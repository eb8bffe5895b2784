//! Verified text building blocks for the command renderer: decimal digit
//! strings, replacement of every occurrence of a literal pattern, and
//! replacement of the first angle-bracket placeholder in an option template.

use vstd::prelude::*;
use vstd::string::StrSliceExecFns;
use vstd::string::StringExecFns;

verus! {

/// The digit character for a value below ten.
pub open spec fn spec_digit(n: nat) -> char {
    if n == 0 { '0' }
    else if n == 1 { '1' }
    else if n == 2 { '2' }
    else if n == 3 { '3' }
    else if n == 4 { '4' }
    else if n == 5 { '5' }
    else if n == 6 { '6' }
    else if n == 7 { '7' }
    else if n == 8 { '8' }
    else { '9' }
}

/// The decimal digit string of `n`, without sign or padding.
pub open spec fn spec_digits(n: nat) -> Seq<char>
    decreases n,
{
    if n < 10 {
        seq![spec_digit(n)]
    } else {
        spec_digits(n / 10) + seq![spec_digit(n % 10)]
    }
}

fn digit_str(d: u64) -> (r: &'static str)
    requires
        d < 10,
    ensures
        r@ == seq![spec_digit(d as nat)],
{
    proof {
        reveal_strlit("0");
        reveal_strlit("1");
        reveal_strlit("2");
        reveal_strlit("3");
        reveal_strlit("4");
        reveal_strlit("5");
        reveal_strlit("6");
        reveal_strlit("7");
        reveal_strlit("8");
        reveal_strlit("9");
    }
    let r = match d {
        0 => "0",
        1 => "1",
        2 => "2",
        3 => "3",
        4 => "4",
        5 => "5",
        6 => "6",
        7 => "7",
        8 => "8",
        _ => "9",
    };
    proof {
        assert(r@ =~= seq![spec_digit(d as nat)]);
    }
    r
}

/// Renders `n` in decimal.
pub fn render_u64(n: u64) -> (r: String)
    ensures
        r@ == spec_digits(n as nat),
    decreases n,
{
    if n < 10 {
        String::from_str(digit_str(n))
    } else {
        let mut s = render_u64(n / 10);
        s.append(digit_str(n % 10));
        s
    }
}

/// Every occurrence of `pat` replaced by `rep`, scanning left to right over
/// non-overlapping occurrences; replaced text is not rescanned.
pub open spec fn spec_replace_all(s: Seq<char>, pat: Seq<char>, rep: Seq<char>) -> Seq<char>
    decreases s.len(),
    when pat.len() >= 1
{
    if s.len() < pat.len() {
        s
    } else if s.take(pat.len() as int) == pat {
        rep + spec_replace_all(s.skip(pat.len() as int), pat, rep)
    } else {
        seq![s[0]] + spec_replace_all(s.skip(1), pat, rep)
    }
}

/// Whether `pat` occurs in `s` starting at character position `i`.
fn matches_at(s: &str, i: usize, pat: &str) -> (r: bool)
    requires
        i + pat@.len() <= s@.len(),
        s@.len() <= usize::MAX,
    ensures
        r == (s@.subrange(i as int, i + pat@.len()) == pat@),
{
    let m = pat.unicode_len();
    let mut j: usize = 0;
    while j < m
        invariant
            j <= m,
            m == pat@.len(),
            i + m <= s@.len(),
            s@.len() <= usize::MAX,
            forall|k: int| 0 <= k < j ==> s@[i + k] == pat@[k],
        decreases m - j,
    {
        if s.get_char(i + j) != pat.get_char(j) {
            proof {
                assert(s@.subrange(i as int, i + pat@.len())[j as int] != pat@[j as int]);
            }
            return false;
        }
        j = j + 1;
    }
    proof {
        assert(s@.subrange(i as int, i + pat@.len()) =~= pat@);
    }
    true
}

/// Replaces every occurrence of `pat` in `s` by `rep`.
pub fn replace_all(s: &str, pat: &str, rep: &str) -> (r: String)
    requires
        pat@.len() >= 1,
    ensures
        r@ == spec_replace_all(s@, pat@, rep@),
{
    let n = s.unicode_len();
    let m = pat.unicode_len();
    let mut out = String::new();
    let mut i: usize = 0;
    proof {
        assert(s@.skip(0) =~= s@);
        assert(Seq::<char>::empty() + spec_replace_all(s@, pat@, rep@) =~= spec_replace_all(
            s@,
            pat@,
            rep@,
        ));
    }
    while i < n
        invariant
            i <= n,
            n == s@.len(),
            m == pat@.len(),
            m >= 1,
            spec_replace_all(s@, pat@, rep@) == out@ + spec_replace_all(
                s@.skip(i as int),
                pat@,
                rep@,
            ),
        decreases n - i,
    {
        let ghost rest = s@.skip(i as int);
        if m <= n - i && matches_at(s, i, pat) {
            proof {
                assert(rest.take(m as int) =~= s@.subrange(i as int, i + m));
                assert(rest.skip(m as int) =~= s@.skip(i + m));
                assert(spec_replace_all(rest, pat@, rep@) == rep@ + spec_replace_all(
                    s@.skip(i + m),
                    pat@,
                    rep@,
                ));
                assert(out@ + (rep@ + spec_replace_all(s@.skip(i + m), pat@, rep@)) =~= (out@
                    + rep@) + spec_replace_all(s@.skip(i + m), pat@, rep@));
            }
            out.append(rep);
            i = i + m;
        } else {
            let c = s.substring_char(i, i + 1);
            proof {
                assert(c@ =~= seq![rest[0]]);
                assert(rest.skip(1) =~= s@.skip(i + 1));
                if rest.len() < m {
                    // the tail is shorter than the pattern: it is kept verbatim,
                    // one character at a time
                    assert(spec_replace_all(rest, pat@, rep@) == rest);
                    assert(s@.skip(i + 1).len() < m);
                    assert(rest =~= seq![rest[0]] + s@.skip(i + 1));
                } else {
                    assert(rest.take(m as int) =~= s@.subrange(i as int, i + m));
                    assert(spec_replace_all(rest, pat@, rep@) == seq![rest[0]]
                        + spec_replace_all(s@.skip(i + 1), pat@, rep@));
                }
                assert(out@ + (seq![rest[0]] + spec_replace_all(s@.skip(i + 1), pat@, rep@)) =~= (
                out@ + seq![rest[0]]) + spec_replace_all(s@.skip(i + 1), pat@, rep@));
            }
            out.append(c);
            i = i + 1;
        }
    }
    proof {
        assert(s@.skip(n as int) =~= Seq::<char>::empty());
        assert(out@ + Seq::<char>::empty() =~= out@);
    }
    out
}

/// A placeholder of an option template runs from a `<` at `i` to the nearest
/// `>` at `j` with at least one character between them; the characters
/// between may be anything but a newline, and none before `j` may close the
/// placeholder earlier.
pub open spec fn is_marker(s: Seq<char>, i: int, j: int) -> bool {
    &&& 0 <= i
    &&& i + 2 <= j < s.len()
    &&& s[i] == '<'
    &&& s[j] == '>'
    &&& forall|k: int| i < k < j ==> s[k] != '\n'
    &&& forall|k: int| i + 1 < k < j ==> s[k] != '>'
}

pub open spec fn marker_at(s: Seq<char>, i: int) -> bool {
    exists|j: int| is_marker(s, i, j)
}

/// The closing position of the placeholder that starts at `i`; meaningful
/// only when `marker_at(s, i)` holds, and then unique.
pub open spec fn marker_end(s: Seq<char>, i: int) -> int {
    choose|j: int| is_marker(s, i, j)
}

/// The start of the leftmost placeholder at or after `i`.
pub open spec fn first_marker(s: Seq<char>, i: int) -> Option<int>
    decreases s.len() - i,
    when 0 <= i <= s.len()
{
    if i >= s.len() {
        None
    } else if marker_at(s, i) {
        Some(i)
    } else {
        first_marker(s, i + 1)
    }
}

/// `t` with its first placeholder replaced by `rep`; `t` itself if it has
/// none.
pub open spec fn spec_substitute(t: Seq<char>, rep: Seq<char>) -> Seq<char> {
    match first_marker(t, 0) {
        Some(i) => t.take(i) + rep + t.skip(marker_end(t, i) + 1),
        None => t,
    }
}

proof fn lemma_marker_end_unique(s: Seq<char>, i: int, j: int)
    requires
        is_marker(s, i, j),
    ensures
        marker_end(s, i) == j,
{
    let j2 = marker_end(s, i);
    assert(is_marker(s, i, j2));
    if j2 < j {
        assert(s[j2] == '>' && i + 1 < j2 < j);
    } else if j < j2 {
        assert(s[j] == '>' && i + 1 < j < j2);
    }
}

/// Scans for the `>` that closes a placeholder opened at `i`.
fn find_marker_end(t: &str, i: usize) -> (r: Option<usize>)
    requires
        i < t@.len(),
        t@[i as int] == '<',
    ensures
        match r {
            Some(j) => is_marker(t@, i as int, j as int),
            None => !marker_at(t@, i as int),
        },
{
    let n = t.unicode_len();
    let mut j: usize = i + 1;
    while j < n
        invariant
            i < j <= n,
            n == t@.len(),
            i < n,
            t@[i as int] == '<',
            forall|k: int| i < k < j ==> t@[k] != '\n',
            forall|k: int| i + 1 < k < j ==> t@[k] != '>',
        decreases n - j,
    {
        let c = t.get_char(j);
        if c == '\n' {
            proof {
                if marker_at(t@, i as int) {
                    let j2 = choose|j2: int| is_marker(t@, i as int, j2);
                    assert(t@[j2] == '>');
                    assert(j2 > j || (i < j < j2) || j2 == j);
                }
            }
            return None;
        }
        if c == '>' && j >= i + 2 {
            return Some(j);
        }
        j = j + 1;
    }
    proof {
        if marker_at(t@, i as int) {
            let j2 = choose|j2: int| is_marker(t@, i as int, j2);
            assert(t@[j2] == '>' && i + 1 < j2 < n);
        }
    }
    None
}

/// Replaces the first placeholder in an option template by the rendered
/// value; a template without a placeholder is returned unchanged.
pub fn substitute_marker(t: &str, rep: &str) -> (r: String)
    ensures
        r@ == spec_substitute(t@, rep@),
{
    let n = t.unicode_len();
    let mut i: usize = 0;
    while i < n
        invariant
            i <= n,
            n == t@.len(),
            first_marker(t@, 0) == first_marker(t@, i as int),
        decreases n - i,
    {
        if t.get_char(i) == '<' {
            if let Some(j) = find_marker_end(t, i) {
                proof {
                    lemma_marker_end_unique(t@, i as int, j as int);
                    assert(marker_at(t@, i as int));
                    assert(first_marker(t@, i as int) == Some(i as int));
                }
                let mut out = String::from_str(t.substring_char(0, i));
                out.append(rep);
                out.append(t.substring_char(j + 1, n));
                proof {
                    assert(out@ =~= t@.take(i as int) + rep@ + t@.skip(j + 1));
                }
                return out;
            }
        }
        proof {
            assert(!marker_at(t@, i as int));
        }
        i = i + 1;
    }
    proof {
        assert(first_marker(t@, n as int) is None);
    }
    String::from_str(t)
}

} // verus!
