//! The configurator: resolve the shell startup file from the shell's
//! executable path, build the `export PATH` line for a chosen candidate,
//! and decide whether the startup file needs the line appended.

use vstd::prelude::*;

use crate::paths::SLASH;
use crate::text::contains_seq;
use crate::text::contains_subseq;
use crate::text::ends_with;
use crate::text::ends_with_seq;
use crate::text::matches_at;

verus! {

/// Bytes of the path suffix `/bash`.
pub open spec fn bash_suffix() -> Seq<u8> {
    seq![47u8, 98u8, 97u8, 115u8, 104u8]
}

/// Bytes of the path suffix `/zsh`.
pub open spec fn zsh_suffix() -> Seq<u8> {
    seq![47u8, 122u8, 115u8, 104u8]
}

/// Bytes of the file name `.bashrc`.
pub open spec fn bashrc_name() -> Seq<u8> {
    seq![46u8, 98u8, 97u8, 115u8, 104u8, 114u8, 99u8]
}

/// Bytes of the file name `.zshrc`.
pub open spec fn zshrc_name() -> Seq<u8> {
    seq![46u8, 122u8, 115u8, 104u8, 114u8, 99u8]
}

/// The startup file's bare name for a given shell executable path: a shell
/// ending in `/bash` targets `.bashrc`, one ending in `/zsh` targets
/// `.zshrc`, anything else is unsupported.
pub open spec fn config_name_spec(shell: Seq<u8>) -> Option<Seq<u8>> {
    if ends_with_seq(shell, bash_suffix()) {
        Option::Some(bashrc_name())
    } else if ends_with_seq(shell, zsh_suffix()) {
        Option::Some(zshrc_name())
    } else {
        Option::None
    }
}

/// The startup file's full path: the home directory, a separator, and the
/// resolved file name.
pub open spec fn config_path_spec(home: Seq<u8>, shell: Seq<u8>) -> Option<Seq<u8>> {
    match config_name_spec(shell) {
        Option::Some(nm) => Option::Some(home + seq![SLASH] + nm),
        Option::None => Option::None,
    }
}

/// Appends all of `src` to `dst`.
pub fn append_bytes(dst: &mut Vec<u8>, src: &Vec<u8>)
    ensures
        final(dst)@ == old(dst)@ + src@,
{
    let ghost orig = dst@;
    let mut i: usize = 0;
    while i < src.len()
        invariant
            i <= src.len(),
            dst@ == orig + src@.take(i as int),
        decreases src.len() - i,
    {
        dst.push(src[i]);
        proof {
            assert(orig + src@.take(i + 1) =~= (orig + src@.take(i as int)).push(src@[i as int]));
        }
        i += 1;
    }
    proof {
        assert(orig + src@.take(src@.len() as int) =~= orig + src@);
    }
}

/// Resolves the startup file's bare name from the shell executable path,
/// or nothing when the shell is unsupported.
pub fn shell_config_name(shell_path: &Vec<u8>) -> (r: Option<Vec<u8>>)
    ensures
        (r is Some) == (config_name_spec(shell_path@) is Some),
        r matches Some(nm) ==> (config_name_spec(shell_path@) matches Some(s) && nm@ == s),
{
    let mut bash: Vec<u8> = Vec::new();
    bash.push(47);
    bash.push(98);
    bash.push(97);
    bash.push(115);
    bash.push(104);
    assert(bash@ =~= bash_suffix());
    if ends_with(shell_path, &bash) {
        let mut nm: Vec<u8> = Vec::new();
        nm.push(46);
        nm.push(98);
        nm.push(97);
        nm.push(115);
        nm.push(104);
        nm.push(114);
        nm.push(99);
        assert(nm@ =~= bashrc_name());
        return Option::Some(nm);
    }
    let mut zsh: Vec<u8> = Vec::new();
    zsh.push(47);
    zsh.push(122);
    zsh.push(115);
    zsh.push(104);
    assert(zsh@ =~= zsh_suffix());
    if ends_with(shell_path, &zsh) {
        let mut nm: Vec<u8> = Vec::new();
        nm.push(46);
        nm.push(122);
        nm.push(115);
        nm.push(104);
        nm.push(114);
        nm.push(99);
        assert(nm@ =~= zshrc_name());
        return Option::Some(nm);
    }
    Option::None
}

/// Resolves the startup file's full path beneath `home`, or nothing when
/// the shell is unsupported.
pub fn config_file_path(home: &Vec<u8>, shell_path: &Vec<u8>) -> (r: Option<Vec<u8>>)
    ensures
        (r is Some) == (config_path_spec(home@, shell_path@) is Some),
        r matches Some(p) ==> (config_path_spec(home@, shell_path@) matches Some(q) && p@ == q),
{
    match shell_config_name(shell_path) {
        Option::Some(nm) => {
            let mut p: Vec<u8> = Vec::new();
            append_bytes(&mut p, home);
            p.push(SLASH);
            append_bytes(&mut p, &nm);
            assert(p@ =~= home@ + seq![SLASH] + nm@);
            Option::Some(p)
        },
        Option::None => Option::None,
    }
}

/// Bytes of `\nexport PATH="$PATH:`, the part of the appended line that
/// stands before the candidate path.
pub open spec fn export_prefix() -> Seq<u8> {
    seq![
        10u8, 101u8, 120u8, 112u8, 111u8, 114u8, 116u8, 32u8, 80u8, 65u8, 84u8, 72u8, 61u8,
        34u8, 36u8, 80u8, 65u8, 84u8, 72u8, 58u8,
    ]
}

/// The exact fragment appended for a candidate path: a leading newline,
/// `export PATH="$PATH:`, the path, and the closing quote.
pub open spec fn export_line_spec(path: Seq<u8>) -> Seq<u8> {
    export_prefix() + path + seq![34u8]
}

/// The startup file's contents after one run that selected `line`'s
/// candidate: unchanged when the exact line already occurs somewhere in
/// them, otherwise the line plus a trailing newline appended.
pub open spec fn appended_contents(contents: Seq<u8>, line: Seq<u8>) -> Seq<u8> {
    if contains_seq(contents, line) {
        contents
    } else {
        contents + line + seq![10u8]
    }
}

/// Builds the export line for one candidate path.
pub fn export_line(path: &Vec<u8>) -> (r: Vec<u8>)
    ensures
        r@ == export_line_spec(path@),
{
    let mut v: Vec<u8> = Vec::new();
    v.push(10);
    v.push(101);
    v.push(120);
    v.push(112);
    v.push(111);
    v.push(114);
    v.push(116);
    v.push(32);
    v.push(80);
    v.push(65);
    v.push(84);
    v.push(72);
    v.push(61);
    v.push(34);
    v.push(36);
    v.push(80);
    v.push(65);
    v.push(84);
    v.push(72);
    v.push(58);
    assert(v@ =~= export_prefix());
    append_bytes(&mut v, path);
    v.push(34);
    assert(v@ =~= export_line_spec(path@));
    v
}

/// What one selection does to the startup file: the index misses the
/// candidate list and nothing happens; the exact export line is already in
/// the contents and nothing is written; or the line to append.
pub enum AppendDecision {
    OutOfRange,
    AlreadyPresent,
    Append(Vec<u8>),
}

/// Decides, for a selected index, whether the startup file gets a line.
pub fn decide_append(candidates: &Vec<Vec<u8>>, contents: &Vec<u8>, index: usize) -> (r:
    AppendDecision)
    ensures
        (r is OutOfRange) == (index >= candidates@.len()),
        index < candidates@.len() ==> (r is AlreadyPresent) == contains_seq(
            contents@,
            export_line_spec(candidates@[index as int]@),
        ),
        r matches AppendDecision::Append(line) ==> (index < candidates@.len()
            && line@ == export_line_spec(candidates@[index as int]@)
            && !contains_seq(contents@, line@)),
{
    if index >= candidates.len() {
        return AppendDecision::OutOfRange;
    }
    let line = export_line(&candidates[index]);
    if contains_subseq(contents, &line) {
        AppendDecision::AlreadyPresent
    } else {
        AppendDecision::Append(line)
    }
}

/// A line just appended occurs in the new contents.
pub proof fn lemma_line_in_appended(contents: Seq<u8>, line: Seq<u8>)
    ensures
        contains_seq(appended_contents(contents, line), line),
{
    if !contains_seq(contents, line) {
        let c2 = contents + line + seq![10u8];
        assert(matches_at(c2, line, contents.len() as int)) by {
            assert(c2.subrange(contents.len() as int, contents.len() as int + line.len() as int)
                =~= line);
        }
    }
}

/// Idempotence of the append: a second run over the contents the first run
/// left behind finds the line present and changes nothing.
pub proof fn lemma_append_idempotent(contents: Seq<u8>, line: Seq<u8>)
    ensures
        appended_contents(appended_contents(contents, line), line) == appended_contents(
            contents,
            line,
        ),
{
    lemma_line_in_appended(contents, line);
}

/// ASCII whitespace as a console line carries it: space, tab, line feed,
/// carriage return.
pub open spec fn is_ascii_ws(b: u8) -> bool {
    b == 32 || b == 9 || b == 10 || b == 13
}

/// `s` with leading and trailing ASCII whitespace removed.
pub open spec fn trim_spec(s: Seq<u8>) -> Seq<u8>
    decreases s.len(),
{
    if s.len() > 0 && is_ascii_ws(s[0]) {
        trim_spec(s.drop_first())
    } else if s.len() > 0 && is_ascii_ws(s.last()) {
        trim_spec(s.drop_last())
    } else {
        s
    }
}

/// An ASCII decimal digit.
pub open spec fn is_ascii_digit(b: u8) -> bool {
    48 <= b <= 57
}

/// Every byte of `s` is a decimal digit.
pub open spec fn all_digits(s: Seq<u8>) -> bool {
    forall|i: int| 0 <= i < s.len() ==> is_ascii_digit(#[trigger] s[i])
}

/// The number a digit string denotes, most significant digit first.
pub open spec fn dec_value(s: Seq<u8>) -> int
    decreases s.len(),
{
    if s.len() == 0 {
        0
    } else {
        dec_value(s.drop_last()) * 10 + (s.last() - 48)
    }
}

/// The selection an input line denotes: its trimmed text read as a decimal
/// number, provided that text is non-empty, all digits, and the value fits
/// the machine's word.
pub open spec fn selection_spec(input: Seq<u8>) -> Option<int> {
    let t = trim_spec(input);
    if t.len() > 0 && all_digits(t) && dec_value(t) <= usize::MAX as int {
        Option::Some(dec_value(t))
    } else {
        Option::None
    }
}

/// Trimming `s` keeps exactly the bytes between the first and the last
/// position not holding whitespace.
proof fn lemma_trim_subrange(s: Seq<u8>, lo: int, hi: int)
    requires
        0 <= lo <= hi <= s.len(),
        forall|k: int| 0 <= k < lo ==> is_ascii_ws(#[trigger] s[k]),
        forall|k: int| hi <= k < s.len() ==> is_ascii_ws(#[trigger] s[k]),
        lo < hi ==> !is_ascii_ws(s[lo]) && !is_ascii_ws(s[hi - 1]),
    ensures
        trim_spec(s) == s.subrange(lo, hi),
    decreases s.len(),
{
    if s.len() == 0 {
        assert(s.subrange(lo, hi) =~= s);
    } else if is_ascii_ws(s[0]) {
        let s1 = s.drop_first();
        if lo == 0 {
            assert(lo == hi);
            lemma_trim_subrange(s1, 0, 0);
            assert(s.subrange(lo, hi) =~= s1.subrange(0, 0));
        } else {
            lemma_trim_subrange(s1, lo - 1, hi - 1);
            assert(s.subrange(lo, hi) =~= s1.subrange(lo - 1, hi - 1));
        }
    } else if is_ascii_ws(s.last()) {
        let s1 = s.drop_last();
        assert(hi < s.len());
        lemma_trim_subrange(s1, lo, hi);
        assert(s.subrange(lo, hi) =~= s1.subrange(lo, hi));
    } else {
        assert(lo == 0 && hi == s.len());
        assert(s.subrange(lo, hi) =~= s);
    }
}

/// A digit string denotes a non-negative number.
proof fn lemma_dec_value_nonneg(s: Seq<u8>)
    requires
        all_digits(s),
    ensures
        dec_value(s) >= 0,
    decreases s.len(),
{
    if s.len() > 0 {
        assert forall|k: int| 0 <= k < s.drop_last().len()
            implies is_ascii_digit(#[trigger] s.drop_last()[k]) by {
            assert(s.drop_last()[k] == s[k]);
        }
        lemma_dec_value_nonneg(s.drop_last());
        assert(is_ascii_digit(s[s.len() - 1]));
    }
}

/// Reading more digits never shrinks the denoted number.
proof fn lemma_dec_value_prefix_le(s: Seq<u8>, m: int)
    requires
        all_digits(s),
        0 <= m <= s.len(),
    ensures
        dec_value(s.take(m)) <= dec_value(s),
    decreases s.len() - m,
{
    if m == s.len() {
        assert(s.take(m) =~= s);
    } else {
        lemma_dec_value_prefix_le(s, m + 1);
        let a = s.take(m);
        let b = s.take(m + 1);
        assert(b.drop_last() =~= a);
        assert(b.last() == s[m]);
        assert forall|k: int| 0 <= k < a.len() implies is_ascii_digit(#[trigger] a[k]) by {
            assert(a[k] == s[k]);
        }
        lemma_dec_value_nonneg(a);
        assert(is_ascii_digit(s[m]));
        assert(dec_value(b) == dec_value(a) * 10 + (s[m] - 48));
    }
}

/// Reads an operator's selection: the line trimmed of surrounding
/// whitespace and parsed as a non-negative decimal index. Empty input, any
/// non-digit byte, or a value too large for the machine yields nothing, so
/// the caller prompts again.
pub fn parse_selection(input: &Vec<u8>) -> (r: Option<usize>)
    ensures
        (r is Some) == (selection_spec(input@) is Some),
        r matches Some(v) ==> selection_spec(input@) == Option::Some(v as int),
{
    let n = input.len();
    let mut lo: usize = 0;
    while lo < n && (input[lo] == 32 || input[lo] == 9 || input[lo] == 10 || input[lo] == 13)
        invariant
            lo <= n,
            n == input.len(),
            forall|k: int| 0 <= k < lo ==> is_ascii_ws(#[trigger] input@[k]),
        decreases n - lo,
    {
        lo += 1;
    }
    let mut hi: usize = n;
    while hi > lo && (input[hi - 1] == 32 || input[hi - 1] == 9 || input[hi - 1] == 10
        || input[hi - 1] == 13)
        invariant
            lo <= hi <= n,
            n == input.len(),
            forall|k: int| hi <= k < n ==> is_ascii_ws(#[trigger] input@[k]),
        decreases hi,
    {
        hi -= 1;
    }
    let ghost t = input@.subrange(lo as int, hi as int);
    proof {
        lemma_trim_subrange(input@, lo as int, hi as int);
    }
    if lo == hi {
        return Option::None;
    }
    let mut acc: usize = 0;
    let mut k = lo;
    while k < hi
        invariant
            lo <= k <= hi <= n,
            lo < hi,
            n == input.len(),
            t == input@.subrange(lo as int, hi as int),
            trim_spec(input@) == t,
            all_digits(t.take(k - lo)),
            acc == dec_value(t.take(k - lo)),
        decreases hi - k,
    {
        let b = input[k];
        assert(t[k - lo] == b);
        if b < 48 || b > 57 {
            assert(!all_digits(t));
            return Option::None;
        }
        let d = (b - 48) as usize;
        let ghost pre = t.take(k - lo);
        let ghost cur = t.take(k - lo + 1);
        proof {
            assert(cur.drop_last() =~= pre);
            assert(cur.last() == t[k - lo]);
            assert(dec_value(cur) == acc * 10 + d);
            assert forall|x: int| 0 <= x < cur.len() implies is_ascii_digit(#[trigger] cur[x]) by {
                if x < k - lo {
                    assert(cur[x] == pre[x]);
                } else {
                    assert(cur[x] == t[k - lo]);
                }
            }
        }
        if acc > (usize::MAX - d) / 10 {
            proof {
                let m = usize::MAX as int;
                assert(acc * 10 + d > m) by {
                    let q = (m - d) / 10;
                    assert(m - d == 10 * q + (m - d) % 10);
                    assert(acc >= q + 1);
                    assert(acc * 10 >= (q + 1) * 10);
                }
                if all_digits(t) {
                    lemma_dec_value_prefix_le(t, k - lo + 1);
                    assert(dec_value(t) > m);
                }
            }
            return Option::None;
        }
        proof {
            let m = usize::MAX as int;
            assert(acc * 10 + d <= m) by {
                let q = (m - d) / 10;
                assert(m - d == 10 * q + (m - d) % 10);
                assert(acc <= q);
                assert(acc * 10 <= q * 10);
            }
        }
        acc = acc * 10 + d;
        k += 1;
    }
    proof {
        assert(t.take(hi - lo) =~= t);
    }
    Option::Some(acc)
}

} // verus!
