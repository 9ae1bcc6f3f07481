//! The selection rules of the file index: which entries of a recursive,
//! gitignore-aware directory walk become root-relative file paths.
//!
//! The walk itself reads the disk and stands outside this library; it asks
//! [`keeps_entry`] whether to descend into an entry and hands the entries it
//! found to [`file_paths`].
use vstd::prelude::*;

verus! {

/// The name of the directory whose whole subtree the walk prunes.
pub open spec fn git_dir_name() -> Seq<char> {
    seq!['.', 'g', 'i', 't']
}

/// Whether the walk keeps an entry with this file name: everything but a
/// `.git` entry, whose subtree is pruned entirely.
pub fn keeps_entry(file_name: &str) -> (r: bool)
    ensures
        r == (file_name@ != git_dir_name()),
{
    let n = file_name.unicode_len();
    if n != 4 {
        return true;
    }
    let is_git = file_name.get_char(0) == '.' && file_name.get_char(1) == 'g'
        && file_name.get_char(2) == 'i' && file_name.get_char(3) == 't';
    if is_git {
        assert(file_name@ =~= git_dir_name());
    }
    !is_git
}

/// One entry that the walk found: its path relative to the walk's root,
/// when it lies under the root, and whether it is a file.
pub struct WalkEntry {
    pub relative: Option<String>,
    pub is_file: bool,
}

/// The view of an entry: its relative path, if any, and whether it is a file.
pub open spec fn entry_view(e: WalkEntry) -> (Option<Seq<char>>, bool) {
    (
        match e.relative {
            Some(s) => Some(s@),
            None => None,
        },
        e.is_file,
    )
}

/// The paths that the index lists, in walk order: those of the entries that
/// are files and lie under the root. Directories are never listed.
pub open spec fn listed(entries: Seq<(Option<Seq<char>>, bool)>) -> Seq<Seq<char>>
    decreases entries.len(),
{
    if entries.len() == 0 {
        seq![]
    } else {
        let e = entries.last();
        listed(entries.drop_last()) + if e.1 && e.0 is Some {
            seq![e.0->0]
        } else {
            seq![]
        }
    }
}

/// The root-relative paths of the files among `entries`, in walk order.
pub fn file_paths(entries: &[WalkEntry]) -> (r: Vec<String>)
    ensures
        r@.map_values(|s: String| s@) == listed(entries@.map_values(|e: WalkEntry| entry_view(e))),
{
    let ghost ev = entries@.map_values(|e: WalkEntry| entry_view(e));
    let mut paths: Vec<String> = Vec::new();
    let mut i: usize = 0;
    while i < entries.len()
        invariant
            i <= entries@.len(),
            ev == entries@.map_values(|e: WalkEntry| entry_view(e)),
            paths@.map_values(|s: String| s@) == listed(ev.take(i as int)),
        decreases entries@.len() - i,
    {
        let entry = &entries[i];
        let ghost before = paths@;
        proof {
            assert(ev.take(i + 1).drop_last() =~= ev.take(i as int));
            assert(ev.take(i + 1).last() == entry_view(*entry));
        }
        if entry.is_file {
            match &entry.relative {
                Some(rel) => {
                    paths.push(rel.clone());
                    assert(paths@.map_values(|s: String| s@) =~= before.map_values(
                        |s: String| s@,
                    ).push(rel@));
                },
                None => {},
            }
        }
        i = i + 1;
    }
    assert(ev.take(i as int) =~= ev);
    paths
}

/// The positions in `entries` of the listed paths, in walk order.
proof fn listed_positions(entries: Seq<(Option<Seq<char>>, bool)>) -> (f: Seq<int>)
    ensures
        f.len() == listed(entries).len(),
        forall|t: int|
            0 <= t < f.len() ==> 0 <= #[trigger] f[t] < entries.len() && entries[f[t]].1
                && entries[f[t]].0 == Some(listed(entries)[t]),
        forall|s: int, t: int| 0 <= s < t < f.len() ==> f[s] < f[t],
        forall|i: int|
            0 <= i < entries.len() && (#[trigger] entries[i]).1 && entries[i].0 is Some ==> exists|t: int|
                0 <= t < f.len() && f[t] == i,
    decreases entries.len(),
{
    if entries.len() == 0 {
        Seq::empty()
    } else {
        let init = entries.drop_last();
        let g = listed_positions(init);
        let e = entries.last();
        let last = entries.len() - 1;
        let prev = listed(init);
        assert forall|i: int| 0 <= i < init.len() implies #[trigger] init[i] == entries[i] by {}
        if e.1 && e.0 is Some {
            let f = g.push(last);
            assert(listed(entries) == prev + seq![e.0->0]);
            assert forall|i: int|
                0 <= i < entries.len() && (#[trigger] entries[i]).1 && entries[i].0 is Some implies exists|t: int|
                0 <= t < f.len() && f[t] == i by {
                if i < last {
                    assert(init[i] == entries[i]);
                    let t = choose|t: int| 0 <= t < g.len() && g[t] == i;
                    assert(f[t] == i);
                } else {
                    assert(f[g.len() as int] == i);
                }
            }
            assert forall|t: int| 0 <= t < f.len() implies 0 <= #[trigger] f[t] < entries.len()
                && entries[f[t]].1 && entries[f[t]].0 == Some(listed(entries)[t]) by {
                if t < g.len() {
                    assert(f[t] == g[t]);
                    assert(listed(entries)[t] == prev[t]);
                    assert(init[g[t]] == entries[g[t]]);
                }
            }
            f
        } else {
            assert(listed(entries) =~= prev);
            assert forall|i: int|
                0 <= i < entries.len() && (#[trigger] entries[i]).1 && entries[i].0 is Some implies exists|t: int|
                0 <= t < g.len() && g[t] == i by {
                assert(i < last);
                assert(init[i] == entries[i]);
            }
            assert forall|t: int| 0 <= t < g.len() implies 0 <= #[trigger] g[t] < entries.len()
                && entries[g[t]].1 && entries[g[t]].0 == Some(listed(entries)[t]) by {
                assert(init[g[t]] == entries[g[t]]);
            }
            g
        }
    }
}

/// `f` gives, for each of `paths`, the position of its entry: the entries at
/// those positions, in increasing order, are files under the root with that
/// path, and every entry that is a file under the root has its position in
/// `f`.
pub open spec fn are_positions_of(
    entries: Seq<(Option<Seq<char>>, bool)>,
    paths: Seq<Seq<char>>,
    f: Seq<int>,
) -> bool {
    &&& f.len() == paths.len()
    &&& forall|t: int|
        0 <= t < f.len() ==> 0 <= #[trigger] f[t] < entries.len() && entries[f[t]].1
            && entries[f[t]].0 == Some(paths[t])
    &&& forall|s: int, t: int| 0 <= s < t < f.len() ==> f[s] < f[t]
    &&& forall|i: int|
        0 <= i < entries.len() && (#[trigger] entries[i]).1 && entries[i].0 is Some ==> exists|t: int|
            0 <= t < f.len() && f[t] == i
}

/// The index lists every file under the root, whatever its path says: the
/// listed paths are, in walk order, the paths of the entries that are files
/// and lie under the root, each once, and nothing else. No file is left out
/// for its depth, its name, or a hidden directory on its path.
pub proof fn lemma_lists_every_file(entries: Seq<(Option<Seq<char>>, bool)>)
    ensures
        exists|f: Seq<int>| #[trigger] are_positions_of(entries, listed(entries), f),
{
    let f = listed_positions(entries);
    assert(are_positions_of(entries, listed(entries), f));
}

} // verus!
