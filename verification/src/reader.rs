use vstd::prelude::*;
use vstd::string::StringExecFns;
use crate::archive::{
    entry_views, has_path, paths_unique, ArchiveEntry, EntryView, ENTRY_PERMISSIONS,
};
use crate::container::{
    archive_len, open_archive, read_record, zip_entry, zip_entry_count, RawRecord,
};
use crate::error::ArchiveError;
use crate::path::{
    has_parent_segment, is_absolute, is_safe_path, lemma_segments_nonempty,
    lemma_traversal_is_unsafe, path_segments, safe_path,
};
use crate::text::{chars_of, text_of};

verus! {

/// What a raw record holds, as mathematical values.
pub open spec fn record_views(records: Seq<RawRecord>) -> Seq<(Seq<char>, Option<u32>, Seq<u8>)> {
    Seq::new(records.len(), |i: int| (records[i].name@, records[i].mode, records[i].data@))
}

/// The entry that a record of the given name, mode and content stands for.
///
/// A name closed by a separator is a directory, whose path is the name
/// without that separator and which has no content. The permission bits are
/// those of the mode, or the default bits where the record has no mode.
pub open spec fn entry_of_record(record: (Seq<char>, Option<u32>, Seq<u8>)) -> EntryView {
    let name = record.0;
    let is_directory = name.len() > 0 && name.last() == '/';
    EntryView {
        path: if is_directory {
            name.drop_last()
        } else {
            name
        },
        is_directory,
        content: if is_directory {
            Seq::<u8>::empty()
        } else {
            record.2
        },
        permissions: match record.1 {
            Some(mode) => mode & 0o777,
            None => ENTRY_PERMISSIONS,
        },
    }
}

/// The entries that `records` stand for, in their order.
pub open spec fn entries_of_records(records: Seq<(Seq<char>, Option<u32>, Seq<u8>)>) -> Seq<
    EntryView,
> {
    Seq::new(records.len(), |i: int| entry_of_record(records[i]))
}

/// The records of the archive `image`; `None` where it does not open or one
/// of its records cannot be read.
pub open spec fn zip_listing(image: Seq<u8>) -> Option<Seq<(Seq<char>, Option<u32>, Seq<u8>)>> {
    match zip_entry_count(image) {
        None => None,
        Some(count) => if forall|i: nat| i < count ==> (#[trigger] zip_entry(image, i)) is Some {
            Some(Seq::new(count, |i: int| zip_entry(image, i as nat)->Some_0))
        } else {
            None
        },
    }
}

/// The place of an entry below `destination`.
pub open spec fn target_path(destination: Seq<char>, path: Seq<char>) -> Seq<char> {
    destination.push('/') + path
}

/// The first of `entries` whose path is not safe, if there is one.
pub open spec fn first_unsafe(entries: Seq<EntryView>) -> Option<int>
    decreases entries.len(),
{
    if entries.len() == 0 {
        None
    } else {
        match first_unsafe(entries.drop_last()) {
            Some(i) => Some(i),
            None => if is_safe_path(entries.last().path) {
                None
            } else {
                Some(entries.len() - 1)
            },
        }
    }
}

/// `first_unsafe` finds an unsafe entry with only safe ones before it, and
/// finds none only where every entry is safe.
pub proof fn lemma_first_unsafe(entries: Seq<EntryView>)
    ensures
        match first_unsafe(entries) {
            Some(i) => 0 <= i < entries.len() && !is_safe_path(entries[i].path) && forall|j: int|
                0 <= j < i ==> is_safe_path((#[trigger] entries[j]).path),
            None => forall|j: int|
                0 <= j < entries.len() ==> is_safe_path((#[trigger] entries[j]).path),
        },
    decreases entries.len(),
{
    if entries.len() > 0 {
        let init = entries.drop_last();
        lemma_first_unsafe(init);
        match first_unsafe(init) {
            Some(i) => {
                assert(entries[i] == init[i]);
                assert forall|j: int| 0 <= j < i implies is_safe_path(
                    (#[trigger] entries[j]).path,
                ) by {
                    assert(entries[j] == init[j]);
                }
            },
            None => {
                assert forall|j: int| 0 <= j < entries.len() - 1 implies is_safe_path(
                    (#[trigger] entries[j]).path,
                ) by {
                    assert(entries[j] == init[j]);
                }
            },
        }
    }
}

/// Law: an archive with an entry whose path is absolute or has a parent
/// segment is refused when it is unpacked: some entry of it is found
/// unsafe.
pub proof fn lemma_traversal_refused(entries: Seq<EntryView>, at: int)
    requires
        0 <= at < entries.len(),
        is_absolute(entries[at].path) || has_parent_segment(entries[at].path),
    ensures
        first_unsafe(entries) is Some,
{
    lemma_traversal_is_unsafe(entries[at].path);
    lemma_first_unsafe(entries);
}

/// Law: an entry with a safe path lands below the destination. The segments
/// of its place are those of the destination followed by those of its path,
/// none of which leads up, and the path does not start anew from the root.
pub proof fn lemma_target_stays_below(destination: Seq<char>, path: Seq<char>)
    ensures
        path_segments(target_path(destination, path)) == path_segments(destination)
            + path_segments(path),
    decreases path.len(),
{
    let opened = destination.push('/');
    if path.len() == 0 {
        assert(opened + path == opened);
        assert(opened.drop_last() == destination);
        assert(path_segments(path) == seq![Seq::<char>::empty()]);
        assert(path_segments(destination).push(Seq::<char>::empty()) == path_segments(destination)
            + seq![Seq::<char>::empty()]);
    } else {
        let init = path.drop_last();
        lemma_target_stays_below(destination, init);
        lemma_segments_nonempty(init);
        assert((opened + path).drop_last() == opened + init);
        assert((opened + path).last() == path.last());
        let before = path_segments(destination) + path_segments(init);
        if path.last() == '/' {
            assert(before.push(Seq::<char>::empty()) == path_segments(destination)
                + path_segments(init).push(Seq::<char>::empty()));
        } else {
            assert(before.last() == path_segments(init).last());
            assert(before.drop_last() == path_segments(destination) + path_segments(
                init,
            ).drop_last());
            assert(before.drop_last().push(before.last().push(path.last())) == path_segments(
                destination,
            ) + path_segments(init).drop_last().push(path_segments(init).last().push(path.last())));
        }
    }
}

/// A validated archive: its records, read and turned into entries, no two of
/// which share a path.
pub struct ArchiveReader {
    entries: Vec<ArchiveEntry>,
}

impl View for ArchiveReader {
    type V = Seq<EntryView>;

    closed spec fn view(&self) -> Seq<EntryView> {
        entry_views(self.entries@)
    }
}

impl ArchiveReader {
    #[verifier::type_invariant]
    spec fn unique(self) -> bool {
        paths_unique(entry_views(self.entries@))
    }

    /// Turns one raw record into an entry.
    pub fn entry_of(record: RawRecord) -> (entry: ArchiveEntry)
        ensures
            entry@ == entry_of_record((record.name@, record.mode, record.data@)),
    {
        let permissions = match record.mode {
            Some(mode) => mode & 0o777,
            None => ENTRY_PERMISSIONS,
        };
        let mut name = chars_of(record.name.as_str());
        let n = name.len();
        if n > 0 && name[n - 1] == '/' {
            name.pop();
            ArchiveEntry {
                path: text_of(&name),
                is_directory: true,
                content: Vec::new(),
                permissions,
            }
        } else {
            ArchiveEntry {
                path: record.name,
                is_directory: false,
                content: record.data,
                permissions,
            }
        }
    }

    /// Validates a list of raw records.
    ///
    /// Each record becomes the entry it stands for. The list is refused as
    /// malformed exactly where two of these entries share a path.
    pub fn from_records(records: Vec<RawRecord>) -> (read: Result<ArchiveReader, ArchiveError>)
        ensures
            match read {
                Ok(reader) => reader@ == entries_of_records(record_views(records@))
                    && paths_unique(reader@),
                Err(e) => e is MalformedArchive && !paths_unique(
                    entries_of_records(record_views(records@)),
                ),
            },
    {
        let ghost wanted = entries_of_records(record_views(records@));
        let ghost all = records@;
        let mut entries: Vec<ArchiveEntry> = Vec::new();
        for record in it: records
            invariant
                it.seq() == all,
                wanted == entries_of_records(record_views(all)),
                entries.len() == it.index(),
                forall|k: int| 0 <= k < entries.len() ==> (#[trigger] entries[k])@ == wanted[k],
        {
            proof {
                assert(record_views(all)[it.index() as int] == (
                    record.name@,
                    record.mode,
                    record.data@,
                ));
            }
            entries.push(Self::entry_of(record));
        }
        assert(entry_views(entries@) == wanted);
        let mut i: usize = 0;
        while i < entries.len()
            invariant
                i <= entries.len(),
                entry_views(entries@) == wanted,
                wanted == entries_of_records(record_views(records@)),
                forall|a: int, b: int|
                    0 <= a < b < i ==> (#[trigger] wanted[a]).path != (#[trigger] wanted[b]).path,
            decreases entries.len() - i,
        {
            let mut j: usize = 0;
            while j < i
                invariant
                    j <= i,
                    i < entries.len(),
                    entry_views(entries@) == wanted,
                    wanted == entries_of_records(record_views(records@)),
                    forall|a: int|
                        0 <= a < j ==> (#[trigger] wanted[a]).path != wanted[i as int].path,
                decreases i - j,
            {
                proof {
                    assert(wanted[j as int] == entries[j as int]@);
                    assert(wanted[i as int] == entries[i as int]@);
                }
                if entries[j].path == entries[i].path {
                    return Err(ArchiveError::MalformedArchive);
                }
                j += 1;
            }
            i += 1;
        }
        Ok(ArchiveReader { entries })
    }

    /// Opens the archive in `image`.
    ///
    /// The archive is refused as malformed where it does not open, where one
    /// of its records cannot be read, and where two of its entries share a
    /// path. Otherwise the reader holds the entries of its records, in the
    /// order of the central directory.
    pub fn open(image: Vec<u8>) -> (opened: Result<ArchiveReader, ArchiveError>)
        ensures
            match opened {
                Ok(reader) => zip_listing(image@) is Some && reader@ == entries_of_records(
                    zip_listing(image@)->Some_0,
                ) && paths_unique(reader@),
                Err(e) => e is MalformedArchive && (zip_listing(image@) is None || !paths_unique(
                    entries_of_records(zip_listing(image@)->Some_0),
                )),
            },
    {
        let ghost bytes = image@;
        let mut archive = match open_archive(image) {
            Ok(archive) => archive,
            Err(_) => {
                return Err(ArchiveError::MalformedArchive);
            },
        };
        let count = archive_len(&archive);
        let mut records: Vec<RawRecord> = Vec::new();
        let mut i: usize = 0;
        while i < count
            invariant
                i <= count,
                bytes == image@,
                crate::container::archive_image(archive) == bytes,
                zip_entry_count(bytes) == Some(count as nat),
                records.len() == i,
                forall|k: int|
                    0 <= k < i ==> zip_entry(bytes, k as nat) == Some(
                        #[trigger] record_views(records@)[k],
                    ),
            decreases count - i,
        {
            match read_record(&mut archive, i) {
                Ok(record) => {
                    let ghost before = record_views(records@);
                    records.push(record);
                    proof {
                        assert forall|k: int| 0 <= k < i + 1 implies zip_entry(bytes, k as nat)
                            == Some(#[trigger] record_views(records@)[k]) by {
                            if k < i {
                                assert(record_views(records@)[k] == before[k]);
                            }
                        }
                    }
                },
                Err(_) => {
                    proof {
                        assert(zip_entry(bytes, i as nat) is None);
                    }
                    return Err(ArchiveError::MalformedArchive);
                },
            }
            i += 1;
        }
        proof {
            assert forall|k: nat| k < count implies (#[trigger] zip_entry(bytes, k)) is Some by {
                assert(zip_entry(bytes, k) == Some(record_views(records@)[k as int]));
            }
            assert(zip_listing(bytes)->Some_0 == record_views(records@));
        }
        Self::from_records(records)
    }

    /// The entries of the archive, in its order.
    pub fn entries(&self) -> (entries: &Vec<ArchiveEntry>)
        ensures
            entry_views(entries@) == self@,
            paths_unique(self@),
    {
        proof {
            use_type_invariant(self);
        }
        &self.entries
    }

    /// Looks for the entry at `path`.
    pub fn find(&self, path: &str) -> (found: Option<usize>)
        ensures
            match found {
                Some(i) => i < self@.len() && self@[i as int].path == path@,
                None => !has_path(self@, path@),
            },
    {
        let wanted = path.to_owned();
        let mut i: usize = 0;
        while i < self.entries.len()
            invariant
                i <= self.entries.len(),
                wanted@ == path@,
                forall|k: int| 0 <= k < i ==> (#[trigger] self@[k]).path != path@,
            decreases self.entries.len() - i,
        {
            if self.entries[i].path == wanted {
                return Some(i);
            }
            i += 1;
        }
        None
    }

    /// Plans the unpacking of the archive below `destination`.
    ///
    /// An archive with an entry whose path is not safe (the empty path, an
    /// absolute path, a path with a parent segment, a path with NUL) is
    /// refused as a whole, with the path of the first such entry. Every
    /// other path is taken as it is, a backslash as an ordinary character
    /// of a name. Otherwise the plan holds every
    /// entry, in the archive's order, with its place below the destination
    /// for a path.
    pub fn extract(&self, destination: &str) -> (plan: Result<Vec<ArchiveEntry>, ArchiveError>)
        ensures
            match plan {
                Ok(steps) => first_unsafe(self@) is None && steps.len() == self@.len() && forall|
                    i: int,
                |
                    0 <= i < steps.len() ==> (#[trigger] steps[i])@ == (EntryView {
                        path: target_path(destination@, self@[i].path),
                        ..self@[i]
                    }),
                Err(e) => first_unsafe(self@) is Some && e is ExtractionFailed
                    && e->ExtractionFailed_path@ == self@[first_unsafe(self@)->Some_0].path,
            },
    {
        let mut i: usize = 0;
        proof {
            assert(self@.take(0) == Seq::<EntryView>::empty());
        }
        while i < self.entries.len()
            invariant
                i <= self.entries.len(),
                first_unsafe(self@.take(i as int)) is None,
            decreases self.entries.len() - i,
        {
            proof {
                let upto = self@.take(i + 1);
                assert(upto.drop_last() == self@.take(i as int));
                assert(upto.last() == self.entries[i as int]@);
            }
            if !safe_path(self.entries[i].path.as_str()) {
                proof {
                    assert(first_unsafe(self@.take(i + 1)) == Some(i as int));
                    lemma_first_unsafe(self@);
                    lemma_first_unsafe(self@.take(i + 1));
                    let found = first_unsafe(self@);
                    if found is None {
                        assert(is_safe_path(self@[i as int].path));
                    } else {
                        let f = found->Some_0;
                        if f < i {
                            assert(self@.take(i + 1)[f] == self@[f]);
                        } else if f > i {
                            assert(is_safe_path(self@[i as int].path));
                        }
                    }
                }
                return Err(ArchiveError::ExtractionFailed { path: self.entries[i].path.clone() });
            }
            i += 1;
        }
        proof {
            assert(self@.take(self.entries.len() as int) == self@);
        }
        let mut steps: Vec<ArchiveEntry> = Vec::new();
        let mut i: usize = 0;
        while i < self.entries.len()
            invariant
                i <= self.entries.len(),
                steps.len() == i,
                forall|k: int|
                    0 <= k < i ==> (#[trigger] steps[k])@ == (EntryView {
                        path: target_path(destination@, self@[k].path),
                        ..self@[k]
                    }),
            decreases self.entries.len() - i,
        {
            let entry = &self.entries[i];
            let mut target = String::new();
            target.append(destination);
            target.push('/');
            target.append(entry.path.as_str());
            steps.push(
                ArchiveEntry {
                    path: target,
                    is_directory: entry.is_directory,
                    content: entry.content.clone(),
                    permissions: entry.permissions,
                },
            );
            i += 1;
        }
        Ok(steps)
    }
}

} // verus!
