use vstd::prelude::*;
use crate::archive::{ArchiveEntry, Compression, EntryView, entry_views, ENTRY_PERMISSIONS};
use crate::container::{
    add_directory, directory_record, discard, finish, name_fits_record, new_sink, sink_intact,
    sink_records, start_file, started_record, write_content, zip_adds, zip_finishes, zip_image,
    zip_starts, zip_writes,
};
use crate::error::BuildError;
use crate::path::{
    chars_less, is_walk_path, lemma_lex_le_transitive, lemma_lex_total, lex_le, lex_less,
    walk_path,
};
use crate::text::chars_of;

verus! {

/// One node met while walking a source directory.
///
/// `relative_path` is the node's path below the source directory, empty for
/// the directory itself. `content` is what was read from a regular file, and
/// `None` where reading it failed; it is not looked at for other nodes.
#[derive(Clone, Debug, PartialEq, Eq)]
pub struct SourceNode {
    pub relative_path: String,
    pub is_file: bool,
    pub content: Option<Vec<u8>>,
}

/// What a walk over a source directory found.
///
/// `is_directory` says whether the source exists and is a directory; `nodes`
/// are the nodes below and including it, in whatever order the walk met
/// them; `failed` are the paths at which the walk could not go on, such as
/// a directory that could not be read.
#[derive(Clone, Debug, PartialEq, Eq)]
pub struct SourceTree {
    pub is_directory: bool,
    pub nodes: Vec<SourceNode>,
    pub failed: Vec<String>,
}

/// A regular file whose content could not be read.
pub open spec fn is_unreadable(node: SourceNode) -> bool {
    node.is_file && node.content is None
}

/// A node that can go into an archive: it was read where it is a file, and
/// its path is one that a walk yields, or empty where it is the source
/// directory itself. A walk yields no path with a segment that is empty,
/// `.` or `..`, or that holds NUL.
pub open spec fn is_packable(node: SourceNode) -> bool {
    &&& !is_unreadable(node)
    &&& if node.relative_path@.len() == 0 {
        !node.is_file
    } else {
        is_walk_path(node.relative_path@)
    }
}

/// Nodes as a walk over a directory tree gives them: each can go into an
/// archive, and no path occurs twice.
pub open spec fn is_valid_walk(nodes: Seq<SourceNode>) -> bool {
    &&& forall|i: int| 0 <= i < nodes.len() ==> is_packable(#[trigger] nodes[i])
    &&& forall|i: int, j: int|
        0 <= i < j < nodes.len() ==> (#[trigger] nodes[i]).relative_path@ != (
        #[trigger] nodes[j]).relative_path@
}

/// The walk went everywhere, and what it met is a valid walk.
pub open spec fn is_complete(tree: SourceTree) -> bool {
    tree.failed@.len() == 0 && is_valid_walk(tree.nodes@)
}

/// Whether a node becomes an entry: every file does, and every other node
/// but the source directory itself.
pub open spec fn is_emitted(node: SourceNode) -> bool {
    node.is_file || node.relative_path@.len() > 0
}

/// The entry that stands for `node`.
pub open spec fn entry_for(node: SourceNode) -> EntryView {
    EntryView {
        path: node.relative_path@,
        is_directory: !node.is_file,
        content: if node.is_file {
            node.content->Some_0@
        } else {
            Seq::<u8>::empty()
        },
        permissions: ENTRY_PERMISSIONS,
    }
}

/// The entries for `nodes`, in their order.
pub open spec fn planned_entries(nodes: Seq<SourceNode>) -> Seq<EntryView>
    decreases nodes.len(),
{
    if nodes.len() == 0 {
        Seq::<EntryView>::empty()
    } else {
        let before = planned_entries(nodes.drop_last());
        if is_emitted(nodes.last()) {
            before.push(entry_for(nodes.last()))
        } else {
            before
        }
    }
}

/// The place at which `node` enters `sorted`: behind the last node that is
/// not greater than it.
pub open spec fn landing(sorted: Seq<SourceNode>, node: SourceNode) -> int
    decreases sorted.len(),
{
    if sorted.len() == 0 {
        0
    } else if lex_less(node.relative_path@, sorted.last().relative_path@) {
        landing(sorted.drop_last(), node)
    } else {
        sorted.len() as int
    }
}

/// `nodes` in lexical order of their paths, nodes of equal path in the order
/// in which they came.
pub open spec fn sorted_nodes(nodes: Seq<SourceNode>) -> Seq<SourceNode>
    decreases nodes.len(),
{
    if nodes.len() == 0 {
        Seq::<SourceNode>::empty()
    } else {
        let before = sorted_nodes(nodes.drop_last());
        before.insert(landing(before, nodes.last()), nodes.last())
    }
}

/// The nodes that `order` picks out of `nodes`.
pub open spec fn picked(nodes: Seq<SourceNode>, order: Seq<usize>) -> Seq<SourceNode> {
    Seq::new(order.len(), |k: int| nodes[order[k] as int])
}

/// The landing place lies within the sequence.
pub proof fn lemma_landing_bounds(sorted: Seq<SourceNode>, node: SourceNode)
    ensures
        0 <= landing(sorted, node) <= sorted.len(),
    decreases sorted.len(),
{
    if sorted.len() > 0 {
        lemma_landing_bounds(sorted.drop_last(), node);
    }
}

/// The paths of `nodes` never go down from one node to a later one.
pub open spec fn is_ordered(nodes: Seq<SourceNode>) -> bool {
    forall|i: int, j: int|
        0 <= i < j < nodes.len() ==> lex_le(
            (#[trigger] nodes[i]).relative_path@,
            (#[trigger] nodes[j]).relative_path@,
        )
}

/// Around its landing place a node finds only greater nodes behind it and,
/// directly before it, a node that is not greater.
pub proof fn lemma_landing_splits(sorted: Seq<SourceNode>, node: SourceNode)
    ensures
        forall|k: int|
            landing(sorted, node) <= k < sorted.len() ==> lex_less(
                node.relative_path@,
                (#[trigger] sorted[k]).relative_path@,
            ),
        landing(sorted, node) > 0 ==> lex_le(
            sorted[landing(sorted, node) - 1].relative_path@,
            node.relative_path@,
        ),
    decreases sorted.len(),
{
    lemma_landing_bounds(sorted, node);
    if sorted.len() > 0 {
        if lex_less(node.relative_path@, sorted.last().relative_path@) {
            let init = sorted.drop_last();
            lemma_landing_splits(init, node);
            lemma_landing_bounds(init, node);
            assert forall|k: int| landing(sorted, node) <= k < sorted.len() implies lex_less(
                node.relative_path@,
                (#[trigger] sorted[k]).relative_path@,
            ) by {
                if k < init.len() {
                    assert(sorted[k] == init[k]);
                }
            }
            if landing(sorted, node) > 0 {
                assert(sorted[landing(sorted, node) - 1] == init[landing(init, node) - 1]);
            }
        } else {
            lemma_lex_total(node.relative_path@, sorted.last().relative_path@);
        }
    }
}

/// Law: the packing order is the lexical order of the paths.
pub proof fn lemma_sorted_nodes_ordered(nodes: Seq<SourceNode>)
    ensures
        is_ordered(sorted_nodes(nodes)),
    decreases nodes.len(),
{
    if nodes.len() > 0 {
        let before = sorted_nodes(nodes.drop_last());
        let node = nodes.last();
        let p = landing(before, node);
        let after = sorted_nodes(nodes);
        lemma_sorted_nodes_ordered(nodes.drop_last());
        lemma_landing_bounds(before, node);
        lemma_landing_splits(before, node);
        assert forall|i: int, j: int| 0 <= i < j < after.len() implies lex_le(
            (#[trigger] after[i]).relative_path@,
            (#[trigger] after[j]).relative_path@,
        ) by {
            if j < p {
                assert(after[i] == before[i] && after[j] == before[j]);
            } else if j == p {
                assert(after[i] == before[i]);
                assert(after[j] == node);
                if i < p - 1 {
                    lemma_lex_le_transitive(
                        before[i].relative_path@,
                        before[p - 1].relative_path@,
                        node.relative_path@,
                    );
                }
            } else if i < p {
                assert(after[i] == before[i]);
                assert(after[j] == before[j - 1]);
            } else if i == p {
                assert(after[i] == node);
                assert(after[j] == before[j - 1]);
            } else {
                assert(after[i] == before[i - 1]);
                assert(after[j] == before[j - 1]);
            }
        }
    }
}

/// Law: the packing order holds every node of the walk exactly as often as
/// the walk met it.
pub proof fn lemma_sorted_nodes_permutation(nodes: Seq<SourceNode>)
    ensures
        sorted_nodes(nodes).to_multiset() == nodes.to_multiset(),
    decreases nodes.len(),
{
    broadcast use vstd::seq_lib::group_to_multiset_ensures;

    if nodes.len() == 0 {
        assert(sorted_nodes(nodes) == nodes);
    } else {
        let before = sorted_nodes(nodes.drop_last());
        let node = nodes.last();
        let p = landing(before, node);
        let after = sorted_nodes(nodes);
        lemma_sorted_nodes_permutation(nodes.drop_last());
        lemma_landing_bounds(before, node);
        assert(after.remove(p) == before);
        assert(after[p] == node);
        assert(after.remove(p).to_multiset() == after.to_multiset().remove(node));
        assert(after.contains(node));
        assert(after.to_multiset() == before.to_multiset().insert(node));
        assert(nodes == nodes.drop_last().push(node));
        assert(nodes.to_multiset() == nodes.drop_last().to_multiset().insert(node));
    }
}

/// The longest name, in bytes, that a record can carry.
pub const NAME_LIMIT: usize = 65535;

/// The name under which `entry` is stored: its path, closed by a separator
/// where it is a directory.
pub open spec fn stored_name(entry: EntryView) -> Seq<char> {
    if entry.is_directory {
        entry.path.push('/')
    } else {
        entry.path
    }
}

/// Whether `entry` fits into a record: its name, as it is stored, is short
/// enough.
pub open spec fn entry_fits(entry: EntryView) -> bool {
    name_fits_record(stored_name(entry))
}

/// Every one of `entries` fits into a record.
pub open spec fn all_fit(entries: Seq<EntryView>) -> bool {
    forall|i: int| 0 <= i < entries.len() ==> entry_fits(#[trigger] entries[i])
}

/// The record that is written for `entry`: a directory under its name closed
/// by a separator and without content, a file under its path with its
/// content, packed as `compression` says.
pub open spec fn record_for(entry: EntryView, compression: Compression) -> (
    Seq<char>,
    u32,
    bool,
    Seq<u8>,
) {
    if entry.is_directory {
        directory_record(stored_name(entry), entry.permissions)
    } else {
        let started = started_record(entry.path, compression, entry.permissions);
        (started.0, started.1, started.2, entry.content)
    }
}

/// Whether a writer that holds the records `before` takes `entry`: it adds
/// the record of a directory, or starts the record of a file and takes its
/// content.
pub open spec fn writer_takes_entry(
    before: Seq<(Seq<char>, u32, bool, Seq<u8>)>,
    entry: EntryView,
    compression: Compression,
) -> bool {
    if entry.is_directory {
        zip_adds(before, directory_record(stored_name(entry), entry.permissions))
    } else {
        let started = started_record(entry.path, compression, entry.permissions);
        zip_starts(before, started) && zip_writes(before.push(started), entry.content)
    }
}

/// Whether the writer takes `entries`, one after the other, and closes the
/// archive behind them.
pub open spec fn writer_takes(entries: Seq<EntryView>, compression: Compression) -> bool {
    let records = records_for(entries, compression);
    &&& forall|i: int|
        0 <= i < entries.len() ==> writer_takes_entry(
            records.take(i),
            #[trigger] entries[i],
            compression,
        )
    &&& zip_finishes(records)
}

/// Whether `entries` are packed: each fits into a record, and the writer
/// takes them all.
pub open spec fn packs(entries: Seq<EntryView>, compression: Compression) -> bool {
    all_fit(entries) && writer_takes(entries, compression)
}

/// The records that are written for `entries`, in their order.
pub open spec fn records_for(entries: Seq<EntryView>, compression: Compression) -> Seq<
    (Seq<char>, u32, bool, Seq<u8>),
> {
    Seq::new(entries.len(), |i: int| record_for(entries[i], compression))
}

/// Builds archives out of directory trees.
pub struct ArchiveBuilder {}

impl ArchiveBuilder {
    /// The order in which the nodes are packed: the indices of `nodes` by
    /// lexical order of the paths.
    pub fn order(nodes: &Vec<SourceNode>) -> (order: Vec<usize>)
        ensures
            order.len() == nodes.len(),
            forall|k: int| 0 <= k < order.len() ==> (#[trigger] order[k]) < nodes.len(),
            picked(nodes@, order@) == sorted_nodes(nodes@),
    {
        let mut keys: Vec<Vec<char>> = Vec::new();
        let mut i: usize = 0;
        while i < nodes.len()
            invariant
                i <= nodes.len(),
                keys.len() == i,
                forall|j: int| 0 <= j < i ==> (#[trigger] keys[j])@ == nodes[j].relative_path@,
            decreases nodes.len() - i,
        {
            keys.push(chars_of(nodes[i].relative_path.as_str()));
            i += 1;
        }
        let mut order: Vec<usize> = Vec::new();
        let mut i: usize = 0;
        proof {
            assert(nodes@.take(0) == Seq::<SourceNode>::empty());
            assert(picked(nodes@, order@) == Seq::<SourceNode>::empty());
        }
        while i < nodes.len()
            invariant
                i <= nodes.len(),
                keys.len() == nodes.len(),
                forall|j: int|
                    0 <= j < nodes.len() ==> (#[trigger] keys[j])@ == nodes[j].relative_path@,
                order.len() == i,
                forall|k: int| 0 <= k < order.len() ==> (#[trigger] order[k]) < nodes.len(),
                picked(nodes@, order@) == sorted_nodes(nodes@.take(i as int)),
            decreases nodes.len() - i,
        {
            let ghost before = picked(nodes@, order@);
            let ghost node = nodes@[i as int];
            let mut p: usize = order.len();
            proof {
                assert(before.take(p as int) == before);
            }
            while p > 0 && chars_less(&keys[i], &keys[order[p - 1]])
                invariant
                    p <= order.len(),
                    i < nodes.len(),
                    node == nodes@[i as int],
                    keys.len() == nodes.len(),
                    forall|j: int|
                        0 <= j < nodes.len() ==> (#[trigger] keys[j])@ == nodes[j].relative_path@,
                    forall|k: int| 0 <= k < order.len() ==> (#[trigger] order[k]) < nodes.len(),
                    before == picked(nodes@, order@),
                    landing(before, node) == landing(before.take(p as int), node),
                decreases p,
            {
                proof {
                    assert(before.take(p as int).last() == nodes@[order[p - 1] as int]);
                    assert(before.take(p as int).drop_last() == before.take(p - 1));
                }
                p -= 1;
            }
            proof {
                if p > 0 {
                    assert(before.take(p as int).last() == nodes@[order[p - 1] as int]);
                }
                assert(landing(before, node) == p);
                let upto = nodes@.take(i + 1);
                assert(upto.drop_last() == nodes@.take(i as int));
                assert(upto.last() == node);
            }
            order.insert(p, i);
            proof {
                assert(picked(nodes@, order@) == before.insert(p as int, node));
            }
            i += 1;
        }
        proof {
            assert(nodes@.take(nodes.len() as int) == nodes@);
        }
        order
    }

    /// Packs `entries` into an archive, in their order.
    ///
    /// Succeeds exactly where the name of every entry fits into a record
    /// and the writer takes them all; every failure is `BuildError::Io`.
    /// Nothing is written before every name was found to fit. On success the result is the
    /// archive that the writer makes of the records for `entries`.
    pub fn pack(entries: &Vec<ArchiveEntry>, compression: Compression) -> (packed: Result<
        Vec<u8>,
        BuildError,
    >)
        ensures
            packed is Ok <==> packs(entry_views(entries@), compression),
            packed is Ok ==> packed->Ok_0@ == zip_image(
                records_for(entry_views(entries@), compression),
            ),
            packed is Err ==> packed->Err_0 == BuildError::Io,
    {
        let ghost views = entry_views(entries@);
        let ghost records = records_for(views, compression);
        let mut names: Vec<String> = Vec::new();
        let mut i: usize = 0;
        while i < entries.len()
            invariant
                i <= entries.len(),
                names.len() == i,
                views == entry_views(entries@),
                forall|j: int| 0 <= j < i ==> entry_fits(#[trigger] views[j]),
                forall|j: int| 0 <= j < i ==> (#[trigger] names[j])@ == stored_name(views[j]),
            decreases entries.len() - i,
        {
            let entry = &entries[i];
            proof {
                assert(views[i as int] == entry@);
            }
            let mut name = entry.path.clone();
            if entry.is_directory {
                name.push('/');
            }
            if name.as_str().as_bytes().len() > NAME_LIMIT {
                return Err(BuildError::Io);
            }
            names.push(name);
            i += 1;
        }
        let mut sink = new_sink();
        let mut i: usize = 0;
        proof {
            assert(records.take(0) == sink_records(sink));
        }
        while i < entries.len()
            invariant
                i <= entries.len(),
                names.len() == entries.len(),
                views == entry_views(entries@),
                records == records_for(views, compression),
                all_fit(views),
                forall|j: int|
                    0 <= j < names.len() ==> (#[trigger] names[j])@ == stored_name(views[j]),
                sink_intact(sink),
                sink_records(sink) == records.take(i as int),
                forall|j: int|
                    0 <= j < i ==> writer_takes_entry(
                        records.take(j),
                        #[trigger] views[j],
                        compression,
                    ),
            decreases entries.len() - i,
        {
            let entry = &entries[i];
            proof {
                assert(records.take(i + 1) == records.take(i as int).push(records[i as int]));
                assert(views[i as int] == entry@);
                assert(entry_fits(views[i as int]));
                assert(names[i as int]@ == stored_name(views[i as int]));
            }
            if entry.is_directory {
                if add_directory(&mut sink, names[i].as_str(), entry.permissions).is_err() {
                    discard(sink);
                    return Err(BuildError::Io);
                }
            } else {
                let started = start_file(
                    &mut sink,
                    names[i].as_str(),
                    compression,
                    entry.permissions,
                );
                if started.is_err() {
                    discard(sink);
                    return Err(BuildError::Io);
                }
                let ghost begun = sink_records(sink);
                if write_content(&mut sink, &entry.content).is_err() {
                    return Err(BuildError::Io);
                }
                proof {
                    assert(begun.drop_last() == records.take(i as int));
                }
            }
            i += 1;
        }
        proof {
            assert(records.take(entries.len() as int) == records);
        }
        match finish(&mut sink) {
            Ok(image) => Ok(image),
            Err(_) => {
                discard(sink);
                Err(BuildError::Io)
            },
        }
    }

    /// Builds the archive of a walked source directory.
    ///
    /// Fails with `SourceNotFound` where the source is no directory, and
    /// with `Io` where the walk is not complete: it could not go on
    /// somewhere, a file could not be read, a node has a path that no walk
    /// yields, or a path occurs twice. Otherwise the entries that
    /// [`ArchiveBuilder::plan`] decides on are packed as
    /// [`ArchiveBuilder::pack`] does it, and the build succeeds exactly
    /// where that does.
    pub fn build(tree: &SourceTree, compression: Compression) -> (built: Result<
        Vec<u8>,
        BuildError,
    >)
        ensures
            !tree.is_directory ==> built == Err::<Vec<u8>, BuildError>(BuildError::SourceNotFound),
            tree.is_directory && !is_complete(*tree) ==> built == Err::<Vec<u8>, BuildError>(
                BuildError::Io,
            ),
            tree.is_directory && is_complete(*tree) ==> {
                let planned = planned_entries(sorted_nodes(tree.nodes@));
                &&& built is Ok <==> packs(planned, compression)
                &&& built is Ok ==> built->Ok_0@ == zip_image(records_for(planned, compression))
                &&& built is Err ==> built->Err_0 == BuildError::Io
            },
    {
        match Self::plan(tree) {
            Ok(entries) => Self::pack(&entries, compression),
            Err(e) => Err(e),
        }
    }

    /// Decides what goes into the archive for a walked source directory.
    ///
    /// A source that is no directory is refused with `SourceNotFound`. A
    /// walk that is not complete is refused with `Io`: one that could not go
    /// on somewhere, one with a file that could not be read, one with a
    /// path that no walk yields, and one with a path that occurs twice.
    /// Otherwise the nodes are
    /// taken in lexical order of their paths: a file becomes a file entry
    /// with its content, any other node a directory entry without content,
    /// and the source directory itself is left out. Every entry gets the
    /// fixed permission bits.
    pub fn plan(tree: &SourceTree) -> (planned: Result<Vec<ArchiveEntry>, BuildError>)
        ensures
            !tree.is_directory ==> planned == Err::<Vec<ArchiveEntry>, BuildError>(
                BuildError::SourceNotFound,
            ),
            tree.is_directory && !is_complete(*tree) ==> planned == Err::<
                Vec<ArchiveEntry>,
                BuildError,
            >(BuildError::Io),
            tree.is_directory && is_complete(*tree) ==> planned is Ok && entry_views(
                planned->Ok_0@,
            ) == planned_entries(sorted_nodes(tree.nodes@)),
    {
        if !tree.is_directory {
            return Err(BuildError::SourceNotFound);
        }
        if tree.failed.len() > 0 {
            return Err(BuildError::Io);
        }
        let nodes = &tree.nodes;
        let mut i: usize = 0;
        while i < nodes.len()
            invariant
                i <= nodes.len(),
                tree.is_directory,
                tree.failed@.len() == 0,
                *nodes == tree.nodes,
                forall|j: int| 0 <= j < i ==> is_packable(#[trigger] nodes@[j]),
                forall|a: int, b: int|
                    0 <= a < b < i ==> (#[trigger] nodes@[a]).relative_path@ != (
                    #[trigger] nodes@[b]).relative_path@,
            decreases nodes.len() - i,
        {
            let node = &nodes[i];
            if node.is_file && node.content.is_none() {
                return Err(BuildError::Io);
            }
            if node.relative_path.as_str().is_empty() {
                if node.is_file {
                    return Err(BuildError::Io);
                }
            } else if !walk_path(node.relative_path.as_str()) {
                return Err(BuildError::Io);
            }
            let mut j: usize = 0;
            while j < i
                invariant
                    j <= i,
                    i < nodes.len(),
                    tree.is_directory,
                    *nodes == tree.nodes,
                    forall|a: int|
                        0 <= a < j ==> (#[trigger] nodes@[a]).relative_path@
                            != nodes@[i as int].relative_path@,
                decreases i - j,
            {
                if nodes[j].relative_path == nodes[i].relative_path {
                    return Err(BuildError::Io);
                }
                j += 1;
            }
            i += 1;
        }
        let order = Self::order(nodes);
        let ghost sorted = sorted_nodes(nodes@);
        let mut entries: Vec<ArchiveEntry> = Vec::new();
        let mut k: usize = 0;
        proof {
            assert(sorted.take(0) == Seq::<SourceNode>::empty());
            assert(entry_views(entries@) == Seq::<EntryView>::empty());
        }
        while k < order.len()
            invariant
                k <= order.len(),
                order.len() == nodes.len(),
                forall|j: int| 0 <= j < nodes.len() ==> is_packable(#[trigger] nodes@[j]),
                forall|j: int| 0 <= j < order.len() ==> (#[trigger] order[j]) < nodes.len(),
                sorted == picked(nodes@, order@),
                entry_views(entries@) == planned_entries(sorted.take(k as int)),
            decreases order.len() - k,
        {
            let node = &nodes[order[k]];
            let ghost before = entry_views(entries@);
            proof {
                let upto = sorted.take(k + 1);
                assert(upto.drop_last() == sorted.take(k as int));
                assert(upto.last() == *node);
                assert(is_packable(nodes@[order[k as int] as int]));
            }
            if node.is_file {
                match &node.content {
                    Some(content) => {
                        entries.push(
                            ArchiveEntry {
                                path: node.relative_path.clone(),
                                is_directory: false,
                                content: content.clone(),
                                permissions: ENTRY_PERMISSIONS,
                            },
                        );
                        proof {
                            assert(entry_views(entries@) == before.push(entry_for(*node)));
                        }
                    },
                    None => {
                        return Err(BuildError::Io);
                    },
                }
            } else if !node.relative_path.as_str().is_empty() {
                entries.push(
                    ArchiveEntry {
                        path: node.relative_path.clone(),
                        is_directory: true,
                        content: Vec::new(),
                        permissions: ENTRY_PERMISSIONS,
                    },
                );
                proof {
                    assert(entry_views(entries@) == before.push(entry_for(*node)));
                }
            } else {
                proof {
                    assert(entry_views(entries@) == before);
                }
            }
            k += 1;
        }
        proof {
            assert(sorted.take(order.len() as int) == sorted);
        }
        Ok(entries)
    }
}

} // verus!
