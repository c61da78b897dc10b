//! The scanner: out of the entries met by a directory walk, pick the `bin`
//! directories holding a file whose name contains the package substring,
//! and keep each such path once, in discovery order.

use vstd::prelude::*;

use crate::paths::is_not_skippable;
use crate::paths::path_is_pruned;
use crate::text::bytes_eq;
use crate::text::contains_seq;
use crate::text::contains_subseq;
use crate::text::views;

verus! {

/// Bytes of the directory name `bin`.
pub open spec fn bin_name() -> Seq<u8> {
    seq![98u8, 105u8, 110u8]
}

/// One directory entry met by the walk: its full path, its bare file name,
/// whether it is a directory, and the names of its immediate children
/// (filled in for directories; empty otherwise).
pub struct WalkEntry {
    pub path: Vec<u8>,
    pub name: Vec<u8>,
    pub is_dir: bool,
    pub children: Vec<Vec<u8>>,
}

/// Some immediate child's name contains the package substring `pkg`.
pub open spec fn dir_has_match(children: Seq<Seq<u8>>, pkg: Seq<u8>) -> bool {
    exists|i: int| 0 <= i < children.len() && contains_seq(#[trigger] children[i], pkg)
}

/// The entry is a directory named exactly `bin`, lies outside every pruned
/// subtree, and holds a child whose name contains `pkg`.
pub open spec fn entry_matches(e: WalkEntry, pkg: Seq<u8>) -> bool {
    &&& e.is_dir
    &&& e.name@ == bin_name()
    &&& !path_is_pruned(e.path@)
    &&& dir_has_match(views(e.children@), pkg)
}

/// The paths of all matching entries, in walk order, duplicates included.
pub open spec fn matching_paths(es: Seq<WalkEntry>, pkg: Seq<u8>) -> Seq<Seq<u8>>
    decreases es.len(),
{
    if es.len() == 0 {
        Seq::empty()
    } else if entry_matches(es.last(), pkg) {
        matching_paths(es.drop_last(), pkg).push(es.last().path@)
    } else {
        matching_paths(es.drop_last(), pkg)
    }
}

/// `s` with every repeated element removed, keeping first occurrences and
/// their order.
pub open spec fn dedup_seq(s: Seq<Seq<u8>>) -> Seq<Seq<u8>>
    decreases s.len(),
{
    if s.len() == 0 {
        Seq::empty()
    } else if s.drop_last().contains(s.last()) {
        dedup_seq(s.drop_last())
    } else {
        dedup_seq(s.drop_last()).push(s.last())
    }
}

/// Whether the entry's bare name is exactly `bin`.
pub fn name_is_bin(name: &Vec<u8>) -> (r: bool)
    ensures
        r == (name@ == bin_name()),
{
    if name.len() == 3 && name[0] == 98 && name[1] == 105 && name[2] == 110 {
        assert(name@ =~= bin_name());
        true
    } else {
        assert(name@ != bin_name()) by {
            if name@ == bin_name() {
                assert(name@.len() == 3);
                assert(name@[0] == 98 && name@[1] == 105 && name@[2] == 110);
            }
        }
        false
    }
}

/// Whether any immediate child name contains the package substring.
pub fn dir_contains_match(children: &Vec<Vec<u8>>, pkg: &Vec<u8>) -> (r: bool)
    ensures
        r == dir_has_match(views(children@), pkg@),
{
    let mut i: usize = 0;
    while i < children.len()
        invariant
            i <= children.len(),
            forall|k: int| 0 <= k < i ==> !contains_seq(#[trigger] views(children@)[k], pkg@),
        decreases children.len() - i,
    {
        if contains_subseq(&children[i], pkg) {
            assert(views(children@)[i as int] == children@[i as int]@);
            return true;
        }
        i += 1;
    }
    false
}

/// Whether `x` already occurs among the byte strings of `v`.
fn vec_contains(v: &Vec<Vec<u8>>, x: &Vec<u8>) -> (r: bool)
    ensures
        r == views(v@).contains(x@),
{
    let mut i: usize = 0;
    while i < v.len()
        invariant
            i <= v.len(),
            forall|k: int| 0 <= k < i ==> #[trigger] views(v@)[k] != x@,
        decreases v.len() - i,
    {
        if bytes_eq(&v[i], x) {
            assert(views(v@)[i as int] == x@);
            return true;
        }
        i += 1;
    }
    false
}

/// Deduplication neither invents nor loses byte strings: membership in the
/// deduplicated sequence and in the original agree.
pub proof fn lemma_dedup_contains(s: Seq<Seq<u8>>, x: Seq<u8>)
    ensures
        dedup_seq(s).contains(x) == s.contains(x),
    decreases s.len(),
{
    if s.len() == 0 {
        assert(!s.contains(x));
        assert(!dedup_seq(s).contains(x));
    } else {
        let butlast = s.drop_last();
        let l = s.last();
        lemma_dedup_contains(butlast, x);
        assert(s.contains(x) == (butlast.contains(x) || x == l)) by {
            if butlast.contains(x) {
                let i = choose|i: int| 0 <= i < butlast.len() && butlast[i] == x;
                assert(s[i] == x);
            }
            if x == l {
                assert(s[s.len() - 1] == x);
            }
            if s.contains(x) {
                let i = choose|i: int| 0 <= i < s.len() && s[i] == x;
                if i < s.len() - 1 {
                    assert(butlast[i] == x);
                }
            }
        }
        if butlast.contains(l) {
            assert(dedup_seq(s) == dedup_seq(butlast));
        } else {
            let d = dedup_seq(butlast);
            assert(dedup_seq(s) == d.push(l));
            assert(d.push(l).contains(x) == (d.contains(x) || x == l)) by {
                if d.contains(x) {
                    let i = choose|i: int| 0 <= i < d.len() && d[i] == x;
                    assert(d.push(l)[i] == x);
                }
                if x == l {
                    assert(d.push(l)[d.len() as int] == x);
                }
                if d.push(l).contains(x) {
                    let i = choose|i: int| 0 <= i < d.push(l).len() && d.push(l)[i] == x;
                    if i < d.len() {
                        assert(d[i] == x);
                    }
                }
            }
        }
    }
}

/// A deduplicated sequence holds no byte string twice.
pub proof fn lemma_dedup_distinct(s: Seq<Seq<u8>>)
    ensures
        forall|i: int, j: int| 0 <= i < j < dedup_seq(s).len()
            ==> dedup_seq(s)[i] != dedup_seq(s)[j],
    decreases s.len(),
{
    if s.len() > 0 {
        let butlast = s.drop_last();
        let l = s.last();
        lemma_dedup_distinct(butlast);
        if butlast.contains(l) {
            assert(dedup_seq(s) == dedup_seq(butlast));
            assert forall|i: int, j: int| 0 <= i < j < dedup_seq(s).len()
                implies dedup_seq(s)[i] != dedup_seq(s)[j] by {
                assert(dedup_seq(butlast)[i] != dedup_seq(butlast)[j]);
            }
        } else {
            lemma_dedup_contains(butlast, l);
            let d = dedup_seq(butlast);
            assert forall|i: int, j: int| 0 <= i < j < dedup_seq(s).len()
                implies dedup_seq(s)[i] != dedup_seq(s)[j] by {
                if j == d.len() {
                    assert(dedup_seq(s)[i] == d[i]);
                    assert(dedup_seq(s)[j] == l);
                    if d[i] == l {
                        assert(d.contains(l));
                    }
                } else {
                    assert(dedup_seq(s)[i] == d[i]);
                    assert(dedup_seq(s)[j] == d[j]);
                }
            }
        }
    }
}

/// Removes repeated paths from `v`, keeping the first occurrence of each
/// and the order of first occurrences; the original name of the tool's
/// deduplication pass.
pub fn remove_duplicates(v: &mut Vec<Vec<u8>>)
    ensures
        views(final(v)@) == dedup_seq(views(old(v)@)),
{
    let ghost orig = v@;
    let mut out: Vec<Vec<u8>> = Vec::new();
    let mut i: usize = 0;
    while i < v.len()
        invariant
            i <= v.len(),
            v@ == orig,
            views(out@) == dedup_seq(views(orig.take(i as int))),
        decreases v.len() - i,
    {
        let ghost pre = views(orig.take(i as int));
        let ghost cur = views(orig.take(i + 1));
        proof {
            assert(cur =~= pre.push(orig[i as int]@));
            assert(cur.drop_last() =~= pre);
            lemma_dedup_contains(pre, orig[i as int]@);
        }
        if !vec_contains(&out, &v[i]) {
            let c = v[i].clone();
            out.push(c);
        }
        i += 1;
    }
    proof {
        assert(orig.take(v@.len() as int) =~= orig);
    }
    *v = out;
}

/// The outcome of one scan: the package already resolves on `PATH` and no
/// work is done; nothing was found; or a non-empty deduplicated candidate
/// list in discovery order.
pub enum ScanOutcome {
    AlreadyOnPath,
    NoCandidates,
    Candidates(Vec<Vec<u8>>),
}

/// The scanner's collection pass: out of the walked entries, the paths of
/// the matching `bin` directories, first occurrences only, in walk order.
pub fn select_candidates(entries: &Vec<WalkEntry>, pkg: &Vec<u8>) -> (r: Vec<Vec<u8>>)
    ensures
        views(r@) == dedup_seq(matching_paths(entries@, pkg@)),
{
    let mut found: Vec<Vec<u8>> = Vec::new();
    let mut i: usize = 0;
    while i < entries.len()
        invariant
            i <= entries.len(),
            views(found@) == matching_paths(entries@.take(i as int), pkg@),
        decreases entries.len() - i,
    {
        let e = &entries[i];
        let ghost pre = entries@.take(i as int);
        let ghost cur = entries@.take(i + 1);
        proof {
            assert(cur.drop_last() =~= pre);
            assert(cur.last() == entries@[i as int]);
        }
        let hit = e.is_dir && name_is_bin(&e.name) && is_not_skippable(&e.path)
            && dir_contains_match(&e.children, pkg);
        assert(hit == entry_matches(entries@[i as int], pkg@));
        if hit {
            let p = e.path.clone();
            found.push(p);
        }
        i += 1;
    }
    proof {
        assert(entries@.take(entries@.len() as int) =~= entries@);
    }
    remove_duplicates(&mut found);
    found
}

/// One whole scanner run. When the package already resolves on the current
/// `PATH` the walk's findings are ignored and no candidates are offered;
/// otherwise the deduplicated candidate list decides between an explicit
/// empty outcome and a list to choose from.
pub fn scan_outcome(already_on_path: bool, entries: &Vec<WalkEntry>, pkg: &Vec<u8>) -> (r: ScanOutcome)
    ensures
        (r is AlreadyOnPath) == already_on_path,
        (r is NoCandidates) == (!already_on_path
            && dedup_seq(matching_paths(entries@, pkg@)).len() == 0),
        r matches ScanOutcome::Candidates(c) ==> (views(c@)
            == dedup_seq(matching_paths(entries@, pkg@)) && c@.len() > 0),
{
    if already_on_path {
        return ScanOutcome::AlreadyOnPath;
    }
    let c = select_candidates(entries, pkg);
    assert(views(c@).len() == c@.len());
    if c.len() == 0 {
        ScanOutcome::NoCandidates
    } else {
        ScanOutcome::Candidates(c)
    }
}

/// Every path that the scanner collects is the path of a matching entry.
proof fn lemma_matching_paths_are_entry_paths(es: Seq<WalkEntry>, pkg: Seq<u8>)
    ensures
        forall|k: int| 0 <= k < matching_paths(es, pkg).len()
            ==> !path_is_pruned(#[trigger] matching_paths(es, pkg)[k]),
    decreases es.len(),
{
    if es.len() > 0 {
        lemma_matching_paths_are_entry_paths(es.drop_last(), pkg);
        let m0 = matching_paths(es.drop_last(), pkg);
        let m = matching_paths(es, pkg);
        assert forall|k: int| 0 <= k < m.len() implies !path_is_pruned(#[trigger] m[k]) by {
            if entry_matches(es.last(), pkg) {
                if k < m0.len() {
                    assert(m[k] == m0[k]);
                } else {
                    assert(m[k] == es.last().path@);
                }
            } else {
                assert(m[k] == m0[k]);
            }
        }
    }
}

/// Pruning invariant: no candidate the scanner returns lies beneath a
/// `dev`, `proc` or `sys` component, whatever the walk handed in.
pub proof fn lemma_candidates_not_pruned(es: Seq<WalkEntry>, pkg: Seq<u8>)
    ensures
        forall|k: int| 0 <= k < dedup_seq(matching_paths(es, pkg)).len()
            ==> !path_is_pruned(#[trigger] dedup_seq(matching_paths(es, pkg))[k]),
{
    let m = matching_paths(es, pkg);
    let d = dedup_seq(m);
    lemma_matching_paths_are_entry_paths(es, pkg);
    assert forall|k: int| 0 <= k < d.len() implies !path_is_pruned(#[trigger] d[k]) by {
        assert(d.contains(d[k]));
        lemma_dedup_contains(m, d[k]);
        let i = choose|i: int| 0 <= i < m.len() && m[i] == d[k];
        assert(!path_is_pruned(m[i]));
    }
}

/// Deduplication law: the candidate list never holds the same path twice,
/// and it offers exactly the paths the matching entries yielded.
pub proof fn lemma_candidates_unique(es: Seq<WalkEntry>, pkg: Seq<u8>)
    ensures
        forall|i: int, j: int| 0 <= i < j < dedup_seq(matching_paths(es, pkg)).len()
            ==> dedup_seq(matching_paths(es, pkg))[i] != dedup_seq(matching_paths(es, pkg))[j],
        forall|x: Seq<u8>| dedup_seq(matching_paths(es, pkg)).contains(x)
            == matching_paths(es, pkg).contains(x),
{
    lemma_dedup_distinct(matching_paths(es, pkg));
    assert forall|x: Seq<u8>| dedup_seq(matching_paths(es, pkg)).contains(x)
        == matching_paths(es, pkg).contains(x) by {
        lemma_dedup_contains(matching_paths(es, pkg), x);
    }
}

} // verus!
