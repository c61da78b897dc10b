//! Paths as byte strings split on `/`, and the pruning rule that keeps the
//! directory walk out of `dev`, `proc` and `sys` subtrees.

use vstd::prelude::*;

verus! {

/// ASCII code of the path separator `/`.
pub const SLASH: u8 = 47;

/// Bytes of the directory name `dev`.
pub open spec fn dev_name() -> Seq<u8> {
    seq![100u8, 101u8, 118u8]
}

/// Bytes of the directory name `proc`.
pub open spec fn proc_name() -> Seq<u8> {
    seq![112u8, 114u8, 111u8, 99u8]
}

/// Bytes of the directory name `sys`.
pub open spec fn sys_name() -> Seq<u8> {
    seq![115u8, 121u8, 115u8]
}

/// A component name whose subtree the walk never enters.
pub open spec fn is_skip_name(c: Seq<u8>) -> bool {
    c == dev_name() || c == proc_name() || c == sys_name()
}

/// `[i, j)` spans one whole `/`-delimited component of `p`: it touches a
/// separator (or an end of the path) on both sides and holds none inside.
pub open spec fn is_component_at(p: Seq<u8>, i: int, j: int) -> bool {
    &&& 0 <= i <= j <= p.len()
    &&& (i == 0 || p[i - 1] == SLASH)
    &&& (j == p.len() || p[j] == SLASH)
    &&& (forall|k: int| i <= k < j ==> p[k] != SLASH)
}

/// Some component of `p` is `dev`, `proc` or `sys`, so the walk prunes the
/// whole subtree at `p`.
pub open spec fn path_is_pruned(p: Seq<u8>) -> bool {
    exists|i: int, j: int| #[trigger] is_component_at(p, i, j) && is_skip_name(p.subrange(i, j))
}

/// A component's end determines its start: it is the position right after
/// the previous separator (or the start of the path).
proof fn lemma_component_start_unique(p: Seq<u8>, i: int, start: int, j: int)
    requires
        is_component_at(p, i, j),
        0 <= start <= j <= p.len(),
        start == 0 || p[start - 1] == SLASH,
        forall|t: int| start <= t < j ==> p[t] != SLASH,
    ensures
        i == start,
{
    if i < start {
        assert(p[start - 1] == SLASH);
        assert(i <= start - 1 < j);
        assert(p[start - 1] != SLASH);
    } else if i > start {
        assert(p[i - 1] == SLASH);
        assert(start <= i - 1 < j);
        assert(p[i - 1] != SLASH);
    }
}

/// Compares the segment `[i, j)` of `p` against the three skip names.
fn segment_is_skip_name(p: &Vec<u8>, i: usize, j: usize) -> (r: bool)
    requires
        i <= j <= p.len(),
    ensures
        r == is_skip_name(p@.subrange(i as int, j as int)),
{
    let ghost s = p@.subrange(i as int, j as int);
    let len = j - i;
    if len == 3 && p[i] == 100 && p[i + 1] == 101 && p[i + 2] == 118 {
        assert(s =~= dev_name());
        true
    } else if len == 4 && p[i] == 112 && p[i + 1] == 114 && p[i + 2] == 111 && p[i + 3] == 99 {
        assert(s =~= proc_name());
        true
    } else if len == 3 && p[i] == 115 && p[i + 1] == 121 && p[i + 2] == 115 {
        assert(s =~= sys_name());
        true
    } else {
        assert(!is_skip_name(s)) by {
            assert(s.len() == len);
            if s == dev_name() {
                assert(s[0] == 100 && s[1] == 101 && s[2] == 118);
            } else if s == proc_name() {
                assert(s[0] == 112 && s[1] == 114 && s[2] == 111 && s[3] == 99);
            } else if s == sys_name() {
                assert(s[0] == 115 && s[1] == 121 && s[2] == 115);
            }
        }
        false
    }
}

/// Whether a walk may descend into `path`: true exactly when no component
/// of the path is `dev`, `proc` or `sys`.
pub fn is_not_skippable(path: &Vec<u8>) -> (r: bool)
    ensures
        r == !path_is_pruned(path@),
{
    let n = path.len();
    let mut start: usize = 0;
    let mut k: usize = 0;
    while k < n
        invariant
            n == path.len(),
            start <= k <= n,
            start == 0 || path@[start - 1] == SLASH,
            forall|t: int| start <= t < k ==> path@[t] != SLASH,
            forall|i: int, j: int| #[trigger] is_component_at(path@, i, j) && j < k
                ==> !is_skip_name(path@.subrange(i, j)),
        decreases n - k,
    {
        if path[k] == SLASH {
            if segment_is_skip_name(path, start, k) {
                assert(is_component_at(path@, start as int, k as int));
                return false;
            }
            assert forall|i: int, j: int| #[trigger] is_component_at(path@, i, j) && j < k + 1
                implies !is_skip_name(path@.subrange(i, j)) by {
                if j == k {
                    lemma_component_start_unique(path@, i, start as int, j);
                }
            }
            start = k + 1;
        } else {
            assert forall|i: int, j: int| #[trigger] is_component_at(path@, i, j) && j < k + 1
                implies !is_skip_name(path@.subrange(i, j)) by {
                assert(j != k);
            }
        }
        k += 1;
    }
    if segment_is_skip_name(path, start, n) {
        assert(is_component_at(path@, start as int, n as int));
        return false;
    }
    assert forall|i: int, j: int| #[trigger] is_component_at(path@, i, j)
        implies !is_skip_name(path@.subrange(i, j)) by {
        if j == n {
            lemma_component_start_unique(path@, i, start as int, j);
        }
    }
    true
}

} // verus!
