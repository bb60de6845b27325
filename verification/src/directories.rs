//! The records of a scan, collected by directory and listed in path order.

use vstd::prelude::*;
use crate::model::{DirectoryEntry, FileDetails};
use crate::redact::{redact_nhs_numbers, redacted};
use crate::text::{lemma_text_not_le, same_text, str_le, text_le, text_lt};

verus! {

/// The files recorded so far for one directory.
pub struct DirectoryGroup {
    /// The directory's path as it was found.
    pub raw: Seq<char>,
    /// The directory's path as it is reported.
    pub path: Seq<char>,
    pub files: Seq<FileDetails>,
}

/// Whether the groups are those of distinct directories, each with its
/// redacted path and at least one file.
pub open spec fn is_grouping(groups: Seq<DirectoryGroup>) -> bool {
    &&& forall|i: int, j: int| 0 <= i < j < groups.len() ==> groups[i].raw != groups[j].raw
    &&& forall|i: int|
        0 <= i < groups.len() ==> (#[trigger] groups[i]).path == redacted(groups[i].raw)
            && groups[i].files.len() > 0
}

/// What a directory entry stands for: its path and its files.
pub struct EntryView {
    pub path: Seq<char>,
    pub files: Seq<FileDetails>,
}

/// The views of a list of directory entries.
pub open spec fn entry_views(entries: Seq<DirectoryEntry>) -> Seq<EntryView> {
    entries.map_values(|e: DirectoryEntry| EntryView { path: e.path@, files: e.files@ })
}

/// The groups after one more file of directory `dir`: the file joins the
/// group of its directory, or starts a new group at the end.
pub open spec fn with_file(groups: Seq<DirectoryGroup>, dir: Seq<char>, file: FileDetails) -> Seq<
    DirectoryGroup,
> {
    if exists|i: int| 0 <= i < groups.len() && groups[i].raw == dir {
        let i = choose|i: int| 0 <= i < groups.len() && groups[i].raw == dir;
        groups.update(
            i,
            DirectoryGroup { raw: dir, path: groups[i].path, files: groups[i].files.push(file) },
        )
    } else {
        groups.push(DirectoryGroup { raw: dir, path: redacted(dir), files: seq![file] })
    }
}

/// Where an entry with path `path` goes into a list sorted by path: before
/// the first entry whose path is not smaller.
pub open spec fn slot_for(sorted: Seq<EntryView>, path: Seq<char>) -> int
    decreases sorted.len(),
{
    if sorted.len() == 0 || text_le(path, sorted[0].path) {
        0
    } else {
        1 + slot_for(sorted.drop_first(), path)
    }
}

/// The entries in ascending order of path; entries with the same path keep
/// their order.
pub open spec fn in_path_order(entries: Seq<EntryView>) -> Seq<EntryView>
    decreases entries.len(),
{
    if entries.len() == 0 {
        Seq::empty()
    } else {
        let rest = in_path_order(entries.drop_first());
        rest.insert(slot_for(rest, entries[0].path), entries[0])
    }
}

/// The entry that a group is reported as: its redacted path and its files.
pub open spec fn reported(groups: Seq<DirectoryGroup>) -> Seq<EntryView> {
    groups.map_values(|g: DirectoryGroup| EntryView { path: g.path, files: g.files })
}

/// Whether the entries are in ascending order of path.
pub open spec fn paths_ascend(entries: Seq<EntryView>) -> bool {
    forall|a: int, b: int|
        0 <= a < b < entries.len() ==> text_le(
            #[trigger] entries[a].path,
            #[trigger] entries[b].path,
        )
}

proof fn lemma_slot_for(sorted: Seq<EntryView>, path: Seq<char>)
    ensures
        0 <= slot_for(sorted, path) <= sorted.len(),
        forall|k: int| 0 <= k < slot_for(sorted, path) ==> text_lt(#[trigger] sorted[k].path, path),
        slot_for(sorted, path) < sorted.len() ==> text_le(
            path,
            sorted[slot_for(sorted, path)].path,
        ),
    decreases sorted.len(),
{
    if sorted.len() == 0 || text_le(path, sorted[0].path) {
    } else {
        let rest = sorted.drop_first();
        lemma_slot_for(rest, path);
        lemma_text_not_le(path, sorted[0].path);
        assert forall|k: int| 0 <= k < slot_for(sorted, path) implies text_lt(
            #[trigger] sorted[k].path,
            path,
        ) by {
            if k > 0 {
                assert(sorted[k] == rest[k - 1]);
            }
        }
    }
}

/// Listing in path order gives ascending paths.
pub proof fn lemma_in_path_order_ascends(entries: Seq<EntryView>)
    ensures
        paths_ascend(in_path_order(entries)),
        in_path_order(entries).len() == entries.len(),
    decreases entries.len(),
{
    if entries.len() > 0 {
        let rest = in_path_order(entries.drop_first());
        lemma_in_path_order_ascends(entries.drop_first());
        let e = entries[0];
        let pos = slot_for(rest, e.path);
        lemma_slot_for(rest, e.path);
        let out = rest.insert(pos, e);
        assert forall|a: int, b: int| 0 <= a < b < out.len() implies text_le(
            #[trigger] out[a].path,
            #[trigger] out[b].path,
        ) by {
            if b < pos {
                assert(text_le(rest[a].path, rest[b].path));
            } else if b == pos {
                assert(text_lt(rest[a].path, e.path));
            } else if a < pos {
                assert(text_le(rest[a].path, rest[b - 1].path));
            } else if a == pos {
                if b - 1 > pos {
                    assert(text_le(rest[pos].path, rest[b - 1].path));
                    crate::text::lemma_bytes_le_trans(
                        vstd::utf8::encode_utf8(e.path),
                        vstd::utf8::encode_utf8(rest[pos].path),
                        vstd::utf8::encode_utf8(rest[b - 1].path),
                    );
                }
            } else {
                assert(text_le(rest[a - 1].path, rest[b - 1].path));
            }
        }
    }
}

/// The records of a scan by directory, in the order in which the
/// directories were first met.
pub struct DirectoryIndex {
    raw_paths: Vec<String>,
    entries: Vec<DirectoryEntry>,
}

impl DirectoryIndex {
    #[verifier::type_invariant]
    spec fn well_formed(self) -> bool {
        &&& self.raw_paths.len() == self.entries.len()
        &&& forall|i: int, j: int|
            0 <= i < j < self.raw_paths.len() ==> self.raw_paths[i]@ != self.raw_paths[j]@
        &&& forall|i: int|
            0 <= i < self.entries.len() ==> (#[trigger] self.entries[i]).path@ == redacted(
                self.raw_paths[i]@,
            ) && self.entries[i].files.len() > 0
    }

    /// The groups collected so far.
    pub closed spec fn groups(self) -> Seq<DirectoryGroup> {
        Seq::new(
            self.entries.len() as nat,
            |i: int|
                DirectoryGroup {
                    raw: self.raw_paths[i]@,
                    path: self.entries[i].path@,
                    files: self.entries[i].files@,
                },
        )
    }

    /// An index without records.
    pub fn new() -> (index: DirectoryIndex)
        ensures
            index.groups() == Seq::<DirectoryGroup>::empty(),
            is_grouping(index.groups()),
    {
        let index = DirectoryIndex { raw_paths: Vec::new(), entries: Vec::new() };
        assert(index.groups() =~= Seq::<DirectoryGroup>::empty());
        index
    }

    /// The index with the record of one more file, found in directory `dir`.
    pub fn add(self, dir: &str, file: FileDetails) -> (index: DirectoryIndex)
        ensures
            index.groups() == with_file(self.groups(), dir@, file),
            is_grouping(index.groups()),
    {
        proof {
            use_type_invariant(&self);
        }
        let ghost before = self.groups();
        let mut raw_paths = self.raw_paths;
        let mut entries = self.entries;
        let mut i: usize = 0;
        while i < raw_paths.len() && !same_text(raw_paths[i].as_str(), dir)
            invariant
                i <= raw_paths.len(),
                forall|k: int| 0 <= k < i ==> raw_paths[k]@ != dir@,
            decreases raw_paths.len() - i,
        {
            i += 1;
        }
        if i < raw_paths.len() {
            proof {
                assert(before[i as int].raw == dir@);
                let chosen = choose|k: int| 0 <= k < before.len() && before[k].raw == dir@;
                assert(chosen == i);
            }
            let mut entry = entries.remove(i);
            entry.files.push(file);
            entries.insert(i, entry);
            let index = DirectoryIndex { raw_paths, entries };
            assert(index.groups() =~= with_file(before, dir@, file));
            proof {
                use_type_invariant(&index);
            }
            index
        } else {
            proof {
                assert forall|k: int| 0 <= k < before.len() implies before[k].raw != dir@ by {}
            }
            let mut files: Vec<FileDetails> = Vec::new();
            files.push(file);
            raw_paths.push(dir.to_owned());
            entries.push(DirectoryEntry { path: redact_nhs_numbers(dir), files });
            let index = DirectoryIndex { raw_paths, entries };
            assert(index.groups() =~= with_file(before, dir@, file));
            proof {
                use_type_invariant(&index);
            }
            index
        }
    }

    /// The directory entries: each path redacted, in ascending order of the
    /// redacted paths. Directories whose redacted paths are the same keep the
    /// order in which they were first met. Every entry holds a file.
    pub fn into_entries(self) -> (entries: Vec<DirectoryEntry>)
        ensures
            entry_views(entries@) == in_path_order(reported(self.groups())),
            paths_ascend(entry_views(entries@)),
            forall|k: int| 0 <= k < entries.len() ==> (#[trigger] entries[k]).files.len() > 0,
    {
        proof {
            use_type_invariant(&self);
        }
        let ghost all = reported(self.groups());
        let mut rest = self.entries;
        assert(entry_views(rest@) =~= all);
        let mut out: Vec<DirectoryEntry> = Vec::new();
        assert(all.skip(all.len() as int) =~= Seq::<EntryView>::empty());
        assert(entry_views(out@) =~= Seq::<EntryView>::empty());
        while rest.len() > 0
            invariant
                rest.len() <= all.len(),
                entry_views(rest@) == all.take(rest.len() as int),
                entry_views(out@) == in_path_order(all.skip(rest.len() as int)),
                forall|k: int| 0 <= k < rest.len() ==> (#[trigger] rest[k]).files.len() > 0,
                forall|k: int| 0 <= k < out.len() ==> (#[trigger] out[k]).files.len() > 0,
            decreases rest.len(),
        {
            let ghost n = rest.len() as int;
            let ghost sorted = entry_views(out@);
            let ghost placed = out@;
            let entry = rest.pop().unwrap();
            proof {
                assert(entry_views(rest@) =~= all.take(n - 1));
                assert(EntryView { path: entry.path@, files: entry.files@ } == all.take(n)[n - 1]);
                assert(all.skip(n - 1).drop_first() =~= all.skip(n));
                assert(all.skip(n - 1)[0] == all[n - 1]);
            }
            let mut pos: usize = 0;
            assert(sorted.skip(0) =~= sorted);
            while pos < out.len() && !str_le(entry.path.as_str(), out[pos].path.as_str())
                invariant
                    pos <= out.len(),
                    sorted == entry_views(out@),
                    slot_for(sorted, entry.path@) == pos + slot_for(
                        sorted.skip(pos as int),
                        entry.path@,
                    ),
                decreases out.len() - pos,
            {
                proof {
                    assert(sorted.skip(pos as int)[0] == sorted[pos as int]);
                    assert(sorted.skip(pos as int).drop_first() =~= sorted.skip(pos + 1));
                }
                pos += 1;
            }
            proof {
                if pos < out.len() {
                    assert(sorted.skip(pos as int)[0] == sorted[pos as int]);
                }
                assert(slot_for(sorted, entry.path@) == pos);
            }
            out.insert(pos, entry);
            assert(entry_views(out@) =~= sorted.insert(pos as int, all[n - 1]));
            assert forall|k: int| 0 <= k < out.len() implies (#[trigger] out[k]).files.len()
                > 0 by {
                if k < pos {
                    assert(out[k] == placed[k]);
                } else if k > pos {
                    assert(out[k] == placed[k - 1]);
                }
            }
        }
        proof {
            assert(all.skip(0) =~= all);
            lemma_in_path_order_ascends(all);
        }
        out
    }
}

} // verus!
