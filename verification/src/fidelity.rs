use vstd::prelude::*;
use crate::archive::{Compression, EntryView, has_path, paths_unique, ENTRY_PERMISSIONS};
use crate::builder::{
    entry_for, is_emitted, is_packable, is_valid_walk, lemma_sorted_nodes_permutation,
    planned_entries, record_for, records_for, sorted_nodes, SourceNode,
};
use crate::container::zip_image;
use crate::path::{is_walk_path, lemma_walk_path_end, lemma_walk_path_is_safe};
use crate::reader::{
    entries_of_records, entry_of_record, first_unsafe, lemma_first_unsafe, zip_listing,
};

verus! {

/// What a reader finds for a written record, where the container hands back
/// what was put into it: the stored name, the stored mode, the content.
pub open spec fn read_back(record: (Seq<char>, u32, bool, Seq<u8>)) -> (
    Seq<char>,
    Option<u32>,
    Seq<u8>,
) {
    (record.0, Some(record.1), record.3)
}

/// What a reader finds for the written `records`, in their order.
pub open spec fn read_back_all(records: Seq<(Seq<char>, u32, bool, Seq<u8>)>) -> Seq<
    (Seq<char>, Option<u32>, Seq<u8>),
> {
    Seq::new(records.len(), |i: int| read_back(records[i]))
}

/// An entry as the builder makes it: a path that a walk yields, the fixed
/// permission bits, and no content where it is a directory.
pub open spec fn is_built_entry(entry: EntryView) -> bool {
    &&& is_walk_path(entry.path)
    &&& entry.permissions == ENTRY_PERMISSIONS
    &&& entry.is_directory ==> entry.content == Seq::<u8>::empty()
}

/// Law: writing a built entry and reading the record back gives the entry
/// again, whatever the compression.
pub proof fn lemma_entry_round_trip(entry: EntryView, compression: Compression)
    requires
        is_built_entry(entry),
    ensures
        entry_of_record(read_back(record_for(entry, compression))) == entry,
{
    lemma_walk_path_end(entry.path);
    let p: u32 = ENTRY_PERMISSIONS;
    assert(((p & 0o777) | 0o100000) & 0o777 == p) by (bit_vector)
        requires
            p == 0o755,
    ;
    assert(((p & 0o777) | 0o40000) & 0o777 == p) by (bit_vector)
        requires
            p == 0o755,
    ;
    if entry.is_directory {
        assert(entry.path.push('/').drop_last() == entry.path);
    }
}

/// `entry` stands for an emitted node of `nodes`.
pub open spec fn stands_for_node(nodes: Seq<SourceNode>, entry: EntryView) -> bool {
    exists|i: int|
        0 <= i < nodes.len() && is_emitted(#[trigger] nodes[i]) && entry == entry_for(nodes[i])
}

/// `entry` is among `entries`.
pub open spec fn is_among(entries: Seq<EntryView>, entry: EntryView) -> bool {
    exists|k: int| 0 <= k < entries.len() && #[trigger] entries[k] == entry
}

/// Every planned entry stands for an emitted node of the walk.
pub proof fn lemma_planned_from_nodes(nodes: Seq<SourceNode>)
    ensures
        forall|k: int|
            0 <= k < planned_entries(nodes).len() ==> stands_for_node(
                nodes,
                #[trigger] planned_entries(nodes)[k],
            ),
    decreases nodes.len(),
{
    if nodes.len() > 0 {
        let init = nodes.drop_last();
        lemma_planned_from_nodes(init);
        let planned = planned_entries(nodes);
        assert forall|k: int| 0 <= k < planned.len() implies stands_for_node(
            nodes,
            #[trigger] planned[k],
        ) by {
            if k < planned_entries(init).len() {
                assert(planned[k] == planned_entries(init)[k]);
                assert(stands_for_node(init, planned_entries(init)[k]));
                let i = choose|i: int|
                    0 <= i < init.len() && is_emitted(#[trigger] init[i]) && planned_entries(
                        init,
                    )[k] == entry_for(init[i]);
                assert(nodes[i] == init[i]);
            } else {
                assert(planned[k] == entry_for(nodes[nodes.len() - 1]));
            }
        }
    }
}

/// Every emitted node of the walk has its planned entry.
pub proof fn lemma_nodes_are_planned(nodes: Seq<SourceNode>)
    ensures
        forall|i: int|
            0 <= i < nodes.len() && is_emitted(#[trigger] nodes[i]) ==> is_among(
                planned_entries(nodes),
                entry_for(nodes[i]),
            ),
    decreases nodes.len(),
{
    if nodes.len() > 0 {
        let init = nodes.drop_last();
        lemma_nodes_are_planned(init);
        let planned = planned_entries(nodes);
        assert forall|i: int| 0 <= i < nodes.len() && is_emitted(
            #[trigger] nodes[i],
        ) implies is_among(planned, entry_for(nodes[i])) by {
            if i < init.len() {
                assert(nodes[i] == init[i]);
                assert(is_among(planned_entries(init), entry_for(init[i])));
                let k = choose|k: int|
                    0 <= k < planned_entries(init).len() && #[trigger] planned_entries(init)[k]
                        == entry_for(init[i]);
                assert(planned[k] == planned_entries(init)[k]);
            } else {
                assert(planned[planned.len() - 1] == entry_for(nodes[i]));
            }
        }
    }
}

/// The entries planned for nodes of distinct paths have distinct paths.
pub proof fn lemma_planned_unique(nodes: Seq<SourceNode>)
    requires
        forall|i: int, j: int|
            0 <= i < j < nodes.len() ==> (#[trigger] nodes[i]).relative_path@ != (
            #[trigger] nodes[j]).relative_path@,
    ensures
        paths_unique(planned_entries(nodes)),
    decreases nodes.len(),
{
    if nodes.len() > 0 {
        let init = nodes.drop_last();
        assert forall|i: int, j: int| 0 <= i < j < init.len() implies (
        #[trigger] init[i]).relative_path@ != (#[trigger] init[j]).relative_path@ by {
            assert(init[i] == nodes[i] && init[j] == nodes[j]);
        }
        lemma_planned_unique(init);
        lemma_planned_from_nodes(init);
        let planned = planned_entries(nodes);
        let before = planned_entries(init);
        assert forall|a: int, b: int| 0 <= a < b < planned.len() implies (
        #[trigger] planned[a]).path != (#[trigger] planned[b]).path by {
            if b < before.len() {
                assert(planned[a] == before[a] && planned[b] == before[b]);
            } else {
                assert(planned[a] == before[a]);
                assert(stands_for_node(init, before[a]));
                let i = choose|i: int|
                    0 <= i < init.len() && is_emitted(#[trigger] init[i]) && before[a] == entry_for(
                        init[i],
                    );
                assert(init[i] == nodes[i]);
                assert(planned[b] == entry_for(nodes[nodes.len() - 1]));
            }
        }
    }
}

/// Sorting a valid walk gives a valid walk.
pub proof fn lemma_sorted_walk_valid(nodes: Seq<SourceNode>)
    requires
        is_valid_walk(nodes),
    ensures
        is_valid_walk(sorted_nodes(nodes)),
{
    broadcast use vstd::seq_lib::group_to_multiset_ensures;

    let sorted = sorted_nodes(nodes);
    lemma_sorted_nodes_permutation(nodes);
    assert(nodes.no_duplicates()) by {
        assert forall|i: int, j: int|
            0 <= i < nodes.len() && 0 <= j < nodes.len() && i != j implies nodes[i] != nodes[j] by {
            if i < j {
                assert(nodes[i].relative_path@ != nodes[j].relative_path@);
            } else {
                assert(nodes[j].relative_path@ != nodes[i].relative_path@);
            }
        }
    }
    nodes.lemma_multiset_has_no_duplicates();
    sorted.lemma_multiset_has_no_duplicates_conv();
    assert forall|k: int| 0 <= k < sorted.len() implies nodes.contains(#[trigger] sorted[k]) by {
        assert(sorted.contains(sorted[k]));
        assert(sorted.to_multiset().count(sorted[k]) > 0);
    }
    assert forall|i: int, j: int| 0 <= i < j < sorted.len() implies (
    #[trigger] sorted[i]).relative_path@ != (#[trigger] sorted[j]).relative_path@ by {
        assert(nodes.contains(sorted[i]));
        assert(nodes.contains(sorted[j]));
        let a = choose|a: int| 0 <= a < nodes.len() && nodes[a] == sorted[i];
        let b = choose|b: int| 0 <= b < nodes.len() && nodes[b] == sorted[j];
        assert(sorted[i] != sorted[j]);
        if a < b {
            assert(nodes[a].relative_path@ != nodes[b].relative_path@);
        } else {
            assert(nodes[b].relative_path@ != nodes[a].relative_path@);
        }
    }
    assert forall|k: int| 0 <= k < sorted.len() implies is_packable(#[trigger] sorted[k]) by {
        assert(nodes.contains(sorted[k]));
        let a = choose|a: int| 0 <= a < nodes.len() && nodes[a] == sorted[k];
        assert(nodes[a] == sorted[k]);
    }
}

/// Law: building an archive from a directory tree and unpacking it gives the
/// tree again, where the container hands back what was put into it.
///
/// For a valid walk, which every walk is that the builder accepts, what a
/// reader makes of the written records are the planned entries themselves.
/// They hold every file of the walk with its content and every directory
/// but the source directory as an entry of its own, each once and nothing
/// else, the empty path is not among them, no two share a path, and each
/// has a safe path, so that unpacking refuses none.
pub proof fn lemma_build_then_extract(nodes: Seq<SourceNode>, compression: Compression)
    requires
        is_valid_walk(nodes),
    ensures
        ({
            let planned = planned_entries(sorted_nodes(nodes));
            let found = entries_of_records(read_back_all(records_for(planned, compression)));
            &&& found == planned
            &&& paths_unique(found)
            &&& first_unsafe(found) is None
            &&& !has_path(found, Seq::<char>::empty())
            &&& forall|i: int|
                0 <= i < nodes.len() && is_emitted(#[trigger] nodes[i]) ==> is_among(
                    found,
                    entry_for(nodes[i]),
                )
            &&& forall|k: int| 0 <= k < found.len() ==> stands_for_node(nodes, #[trigger] found[k])
        }),
{
    broadcast use vstd::seq_lib::group_to_multiset_ensures;

    let sorted = sorted_nodes(nodes);
    let planned = planned_entries(sorted);
    let found = entries_of_records(read_back_all(records_for(planned, compression)));
    lemma_sorted_walk_valid(nodes);
    lemma_sorted_nodes_permutation(nodes);
    lemma_planned_from_nodes(sorted);
    lemma_nodes_are_planned(sorted);
    lemma_planned_unique(sorted);
    assert forall|k: int| 0 <= k < planned.len() implies is_built_entry(#[trigger] planned[k]) by {
        assert(stands_for_node(sorted, planned[k]));
        let i = choose|i: int|
            0 <= i < sorted.len() && is_emitted(#[trigger] sorted[i]) && planned[k] == entry_for(
                sorted[i],
            );
        assert(is_emitted(sorted[i]));
    }
    assert(found =~= planned) by {
        assert forall|k: int| 0 <= k < planned.len() implies found[k] == planned[k] by {
            lemma_entry_round_trip(planned[k], compression);
        }
    }
    lemma_first_unsafe(found);
    if first_unsafe(found) is Some {
        assert(is_built_entry(planned[first_unsafe(found)->Some_0]));
        lemma_walk_path_is_safe(planned[first_unsafe(found)->Some_0].path);
    }
    if has_path(found, Seq::<char>::empty()) {
        let k = choose|k: int| 0 <= k < found.len() && (#[trigger] found[k]).path == Seq::<
            char,
        >::empty();
        assert(is_built_entry(planned[k]));
        lemma_walk_path_end(planned[k].path);
    }
    assert forall|i: int| 0 <= i < nodes.len() && is_emitted(#[trigger] nodes[i]) implies is_among(
        found,
        entry_for(nodes[i]),
    ) by {
        assert(nodes.contains(nodes[i]));
        assert(sorted.to_multiset().count(nodes[i]) > 0);
        assert(sorted.contains(nodes[i]));
        let s = choose|s: int| 0 <= s < sorted.len() && sorted[s] == nodes[i];
        assert(is_emitted(sorted[s]));
        assert(is_among(planned, entry_for(sorted[s])));
    }
    assert forall|k: int| 0 <= k < found.len() implies stands_for_node(
        nodes,
        #[trigger] found[k],
    ) by {
        assert(stands_for_node(sorted, planned[k]));
        let s = choose|s: int|
            0 <= s < sorted.len() && is_emitted(#[trigger] sorted[s]) && planned[k] == entry_for(
                sorted[s],
            );
        assert(sorted.contains(sorted[s]));
        assert(nodes.to_multiset().count(sorted[s]) > 0);
        assert(nodes.contains(sorted[s]));
        let i = choose|i: int| 0 <= i < nodes.len() && nodes[i] == sorted[s];
        assert(is_emitted(nodes[i]));
    }
}

/// Law: an archive that was built from a directory tree opens and unpacks
/// as the tree, provided that reading it lists the records that were
/// written. That is the one thing taken from the container here; the rest
/// is proved.
///
/// Where the listing of the archive that the build gives for the walk is
/// what was written, opening it succeeds with the planned entries, and
/// unpacking them refuses none.
pub proof fn lemma_built_archive_unpacks(nodes: Seq<SourceNode>, compression: Compression)
    requires
        is_valid_walk(nodes),
    ensures
        ({
            let planned = planned_entries(sorted_nodes(nodes));
            let records = records_for(planned, compression);
            let listing = zip_listing(zip_image(records));
            listing == Some(read_back_all(records)) ==> {
                &&& entries_of_records(listing->Some_0) == planned
                &&& paths_unique(entries_of_records(listing->Some_0))
                &&& first_unsafe(entries_of_records(listing->Some_0)) is None
            }
        }),
{
    lemma_build_then_extract(nodes, compression);
}

/// `entries` hold a file at `path` with the content `content`.
pub open spec fn has_file(entries: Seq<EntryView>, path: Seq<char>, content: Seq<u8>) -> bool {
    exists|k: int|
        0 <= k < entries.len() && (#[trigger] entries[k]).path == path && !entries[k].is_directory
            && entries[k].content == content
}

/// `entries` hold a file at `path`.
pub open spec fn has_file_at(entries: Seq<EntryView>, path: Seq<char>) -> bool {
    exists|k: int|
        0 <= k < entries.len() && (#[trigger] entries[k]).path == path && !entries[k].is_directory
}

/// `nodes` hold a file at `path` that was read with the content `content`.
pub open spec fn has_file_node(nodes: Seq<SourceNode>, path: Seq<char>, content: Seq<u8>) -> bool {
    exists|i: int|
        0 <= i < nodes.len() && (#[trigger] nodes[i]).is_file && nodes[i].relative_path@ == path
            && nodes[i].content is Some && nodes[i].content->Some_0@ == content
}

/// The content of the file at `path` after the file at `replaced` was
/// given the content `replacement`.
pub open spec fn content_after(
    path: Seq<char>,
    content: Seq<u8>,
    replaced: Seq<char>,
    replacement: Seq<u8>,
) -> Seq<u8> {
    if path == replaced {
        replacement
    } else {
        content
    }
}

/// What a walk finds after `entries` were unpacked into an empty directory
/// and the file at `replaced` was given the content `replacement`, where
/// the file system hands back what was put into it: a valid walk whose
/// files are the files of the entries, each with its content.
pub open spec fn is_walk_after(
    nodes: Seq<SourceNode>,
    entries: Seq<EntryView>,
    replaced: Seq<char>,
    replacement: Seq<u8>,
) -> bool {
    &&& is_valid_walk(nodes)
    &&& forall|k: int|
        0 <= k < entries.len() && !(#[trigger] entries[k]).is_directory ==> has_file_node(
            nodes,
            entries[k].path,
            content_after(entries[k].path, entries[k].content, replaced, replacement),
        )
    &&& forall|i: int|
        0 <= i < nodes.len() && (#[trigger] nodes[i]).is_file ==> has_file_at(
            entries,
            nodes[i].relative_path@,
        )
}

/// Law: a package that is unpacked, given a new configuration and packed
/// again keeps its files, where the file system hands back what was put
/// into it.
///
/// The entries that are packed hold every file of the package under its
/// path: the configuration with its new content, every other file with the
/// content it had. They hold no file that the package did not have, no
/// path twice, and no entry for the directory they were unpacked into.
pub proof fn lemma_rebuild_keeps_files(
    nodes: Seq<SourceNode>,
    entries: Seq<EntryView>,
    replaced: Seq<char>,
    replacement: Seq<u8>,
)
    requires
        is_walk_after(nodes, entries, replaced, replacement),
    ensures
        ({
            let packed = planned_entries(sorted_nodes(nodes));
            &&& forall|k: int|
                0 <= k < entries.len() && !(#[trigger] entries[k]).is_directory ==> has_file(
                    packed,
                    entries[k].path,
                    content_after(entries[k].path, entries[k].content, replaced, replacement),
                )
            &&& forall|j: int|
                0 <= j < packed.len() && !(#[trigger] packed[j]).is_directory ==> has_file_at(
                    entries,
                    packed[j].path,
                )
            &&& paths_unique(packed)
            &&& !has_path(packed, Seq::<char>::empty())
        }),
{
    let packed = planned_entries(sorted_nodes(nodes));
    lemma_build_then_extract(nodes, Compression::Stored);
    assert forall|k: int|
        0 <= k < entries.len() && !(#[trigger] entries[k]).is_directory implies has_file(
        packed,
        entries[k].path,
        content_after(entries[k].path, entries[k].content, replaced, replacement),
    ) by {
        let path = entries[k].path;
        let content = content_after(path, entries[k].content, replaced, replacement);
        assert(has_file_node(nodes, path, content));
        let i = choose|i: int|
            0 <= i < nodes.len() && (#[trigger] nodes[i]).is_file && nodes[i].relative_path@
                == path && nodes[i].content is Some && nodes[i].content->Some_0@ == content;
        assert(is_emitted(nodes[i]));
        assert(is_among(packed, entry_for(nodes[i])));
        let j = choose|j: int| 0 <= j < packed.len() && #[trigger] packed[j] == entry_for(nodes[i]);
        assert(packed[j].path == path);
    }
    assert forall|j: int|
        0 <= j < packed.len() && !(#[trigger] packed[j]).is_directory implies has_file_at(
        entries,
        packed[j].path,
    ) by {
        assert(stands_for_node(nodes, packed[j]));
        let i = choose|i: int|
            0 <= i < nodes.len() && is_emitted(#[trigger] nodes[i]) && packed[j] == entry_for(
                nodes[i],
            );
        assert(nodes[i].is_file);
    }
}

} // verus!
