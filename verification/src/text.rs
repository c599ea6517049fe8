//! Character classification and small string helpers.
//!
//! The rest of the crate reasons about text as `Seq<char>`; this module
//! supplies the character-level predicates and the executable helpers that
//! connect `String` / `&str` values to those sequences.

use vstd::prelude::*;

verus! {

/// Whether `c` has the Unicode White_Space property.
pub open spec fn is_ws_char(c: char) -> bool {
    ||| c == ' '
    ||| c == '\t'
    ||| c == '\n'
    ||| c == '\r'
    ||| c == '\u{b}'
    ||| c == '\u{c}'
    ||| c == '\u{85}'
    ||| c == '\u{a0}'
    ||| c == '\u{1680}'
    ||| c == '\u{2000}'
    ||| c == '\u{2001}'
    ||| c == '\u{2002}'
    ||| c == '\u{2003}'
    ||| c == '\u{2004}'
    ||| c == '\u{2005}'
    ||| c == '\u{2006}'
    ||| c == '\u{2007}'
    ||| c == '\u{2008}'
    ||| c == '\u{2009}'
    ||| c == '\u{200a}'
    ||| c == '\u{2028}'
    ||| c == '\u{2029}'
    ||| c == '\u{202f}'
    ||| c == '\u{205f}'
    ||| c == '\u{3000}'
}

/// Executable check for [`is_ws_char`].
pub fn is_whitespace_char(c: char) -> (r: bool)
    ensures
        r == is_ws_char(c),
{
    c == ' ' || c == '\t' || c == '\n' || c == '\r' || c == '\u{b}' || c == '\u{c}'
        || c == '\u{85}' || c == '\u{a0}' || c == '\u{1680}' || c == '\u{2000}' || c == '\u{2001}'
        || c == '\u{2002}' || c == '\u{2003}' || c == '\u{2004}' || c == '\u{2005}'
        || c == '\u{2006}' || c == '\u{2007}' || c == '\u{2008}' || c == '\u{2009}'
        || c == '\u{200a}' || c == '\u{2028}' || c == '\u{2029}' || c == '\u{202f}'
        || c == '\u{205f}' || c == '\u{3000}'
}

/// Whether `c` is Unicode alphanumeric.  The full classification is the
/// business of the standard library; contracts only carry the name.
pub uninterp spec fn alnum(c: char) -> bool;

/// Relies on char::is_alphanumeric: whether `c` is in the Unicode classes
/// Alphabetic or Nd/Nl/No, a function of the character alone.
pub assume_specification[ char::is_alphanumeric ](c: char) -> (r: bool)
    ensures
        r == alnum(c),
;

/// Relies on String::push: appends one character at the end.
pub assume_specification[ String::push ](s: &mut String, c: char)
    ensures
        final(s)@ == old(s)@.push(c),
;

/// Builds a `String` out of a vector of characters.
pub fn chars_to_string(v: &Vec<char>) -> (r: String)
    ensures
        r@ == v@,
{
    let mut r = String::new();
    let mut i: usize = 0;
    while i < v.len()
        invariant
            i <= v.len(),
            r@ == v@.subrange(0, i as int),
        decreases v.len() - i,
    {
        r.push(v[i]);
        assert(v@.subrange(0, i as int).push(v@[i as int]) =~= v@.subrange(0, i + 1 as int));
        i = i + 1;
    }
    assert(v@.subrange(0, v@.len() as int) =~= v@);
    r
}

/// Whether the characters of `a` equal those of `b`.
pub fn str_eq(a: &str, b: &str) -> (r: bool)
    ensures
        r == (a@ == b@),
{
    let na = a.unicode_len();
    let nb = b.unicode_len();
    if na != nb {
        return false;
    }
    let mut i: usize = 0;
    while i < na
        invariant
            i <= na,
            na == a@.len(),
            na == b@.len(),
            forall|j: int| 0 <= j < i ==> a@[j] == b@[j],
        decreases na - i,
    {
        if a.get_char(i) != b.get_char(i) {
            return false;
        }
        i = i + 1;
    }
    assert(a@ =~= b@);
    true
}

/// Whether `prefix` starts `s`.
pub fn starts_with_str(s: &str, prefix: &str) -> (r: bool)
    ensures
        r == prefix@.is_prefix_of(s@),
{
    let np = prefix.unicode_len();
    let ns = s.unicode_len();
    if np > ns {
        return false;
    }
    let mut i: usize = 0;
    while i < np
        invariant
            i <= np,
            np == prefix@.len(),
            ns == s@.len(),
            np <= ns,
            forall|j: int| 0 <= j < i ==> s@[j] == prefix@[j],
        decreases np - i,
    {
        if s.get_char(i) != prefix.get_char(i) {
            return false;
        }
        i = i + 1;
    }
    assert(prefix@ =~= s@.subrange(0, prefix@.len() as int));
    true
}

/// The index of the first occurrence of `c` in `s`, or `s.len()` if absent.
pub open spec fn spec_find(s: Seq<char>, c: char) -> int
    decreases s.len(),
{
    if s.len() == 0 {
        0
    } else if s[0] == c {
        0
    } else {
        1 + spec_find(s.drop_first(), c)
    }
}

pub proof fn lemma_spec_find(s: Seq<char>, c: char)
    ensures
        0 <= spec_find(s, c) <= s.len(),
        spec_find(s, c) < s.len() ==> s[spec_find(s, c)] == c,
        forall|j: int| 0 <= j < spec_find(s, c) ==> s[j] != c,
    decreases s.len(),
{
    if s.len() == 0 {
    } else if s[0] == c {
    } else {
        lemma_spec_find(s.drop_first(), c);
        assert forall|j: int| 0 <= j < spec_find(s, c) implies s[j] != c by {
            if j > 0 {
                assert(s.drop_first()[j - 1] == s[j]);
            }
        }
    }
}

pub proof fn lemma_spec_find_at(s: Seq<char>, c: char, k: int)
    requires
        0 <= k < s.len(),
        s[k] == c,
        forall|j: int| 0 <= j < k ==> s[j] != c,
    ensures
        spec_find(s, c) == k,
    decreases s.len(),
{
    if s[0] == c {
    } else {
        assert(s.drop_first()[k - 1] == s[k]);
        assert forall|j: int| 0 <= j < k - 1 implies s.drop_first()[j] != c by {
            assert(s.drop_first()[j] == s[j + 1]);
        }
        lemma_spec_find_at(s.drop_first(), c, k - 1);
    }
}

/// One line segment with a line-terminating carriage return removed.
pub open spec fn strip_cr(s: Seq<char>) -> Seq<char> {
    if s.len() > 0 && s.last() == '\r' {
        s.drop_last()
    } else {
        s
    }
}

/// The lines of `s`: segments split at `'\n'`, each terminated segment losing
/// one trailing `'\r'`, with no final empty segment for text ending in a
/// newline.  This matches how the renderer's output is cut into lines.
pub open spec fn spec_lines(s: Seq<char>) -> Seq<Seq<char>>
    decreases s.len(),
{
    if s.len() == 0 {
        Seq::empty()
    } else {
        let i = spec_find(s, '\n');
        if 0 <= i < s.len() {
            seq![strip_cr(s.subrange(0, i))] + spec_lines(s.subrange(i + 1, s.len() as int))
        } else {
            seq![s]
        }
    }
}

/// Splits `s` into lines as [`spec_lines`] describes.
pub fn split_lines(s: &str) -> (r: Vec<String>)
    ensures
        r.deep_view() == spec_lines(s@),
{
    let n = s.unicode_len();
    let mut r: Vec<String> = Vec::new();
    let mut cur: Vec<char> = Vec::new();
    let mut i: usize = 0;
    proof {
        assert(r.deep_view() =~= Seq::<Seq<char>>::empty());
        assert(cur@ + s@.subrange(0, n as int) =~= s@);
        assert(Seq::<Seq<char>>::empty() + spec_lines(s@) =~= spec_lines(s@));
    }
    while i < n
        invariant
            i <= n,
            n == s@.len(),
            forall|j: int| 0 <= j < cur@.len() ==> cur@[j] != '\n',
            spec_lines(s@) == r.deep_view() + spec_lines(
                cur@ + s@.subrange(i as int, n as int),
            ),
        decreases n - i,
    {
        let c = s.get_char(i);
        let ghost rest = cur@ + s@.subrange(i as int, n as int);
        if c == '\n' {
            proof {
                lemma_spec_find_at(rest, '\n', cur@.len() as int);
                assert(rest.subrange(0, cur@.len() as int) =~= cur@);
                assert(rest.subrange(cur@.len() as int + 1, rest.len() as int) =~= s@.subrange(
                    i + 1 as int,
                    n as int,
                ));
            }
            if cur.len() > 0 && cur[cur.len() - 1] == '\r' {
                cur.pop();
                proof {
                    assert(strip_cr(rest.subrange(0, spec_find(rest, '\n'))) =~= cur@);
                }
            } else {
                proof {
                    assert(strip_cr(rest.subrange(0, spec_find(rest, '\n'))) =~= cur@);
                }
            }
            let line = chars_to_string(&cur);
            r.push(line);
            cur = Vec::new();
            proof {
                assert(r.deep_view().drop_last() + seq![r.deep_view().last()] =~= r.deep_view());
                assert(Seq::<char>::empty() + s@.subrange(i + 1 as int, n as int) =~= s@.subrange(
                    i + 1 as int,
                    n as int,
                ));
            }
        } else {
            cur.push(c);
            proof {
                assert(cur@ + s@.subrange(i + 1 as int, n as int) =~= rest);
            }
        }
        i = i + 1;
    }
    proof {
        assert(cur@ + s@.subrange(n as int, n as int) =~= cur@);
    }
    if cur.len() > 0 {
        let ghost pre = r.deep_view();
        proof {
            lemma_spec_find(cur@, '\n');
            if spec_find(cur@, '\n') < cur@.len() {
                assert(cur@[spec_find(cur@, '\n')] == '\n');
            }
        }
        let line = chars_to_string(&cur);
        r.push(line);
        proof {
            assert(r.deep_view() =~= pre + seq![cur@]);
        }
    }
    r
}

/// Whether `pat` occurs in `s` starting at index `i`.
pub open spec fn occurs_at(s: Seq<char>, pat: Seq<char>, i: int) -> bool {
    0 <= i && i + pat.len() <= s.len() && s.subrange(i, i + pat.len()) == pat
}

/// Whether `pat` occurs anywhere in `s`.
pub open spec fn contains_seq(s: Seq<char>, pat: Seq<char>) -> bool {
    exists|i: int| occurs_at(s, pat, i)
}

/// No character of `s` is the terminal escape character.
pub open spec fn no_esc(s: Seq<char>) -> bool {
    forall|i: int| 0 <= i < s.len() ==> s[i] != '\u{1b}'
}

/// When `pat` occurs in `b` it occurs in `a + b` too.
pub proof fn lemma_contains_concat_right(a: Seq<char>, b: Seq<char>, pat: Seq<char>)
    requires
        contains_seq(b, pat),
    ensures
        contains_seq(a + b, pat),
{
    let k = choose|k: int| occurs_at(b, pat, k);
    assert((a + b).subrange(a.len() + k, a.len() + k + pat.len() as int) =~= b.subrange(
        k,
        k + pat.len() as int,
    ));
    assert(occurs_at(a + b, pat, a.len() + k));
}

/// The first index where `pat` occurs in `s`, if it occurs at all.
pub fn find_substr(s: &str, pat: &str) -> (r: Option<usize>)
    ensures
        match r {
            Some(i) => occurs_at(s@, pat@, i as int) && forall|j: int|
                0 <= j < i ==> !occurs_at(s@, pat@, j),
            None => !contains_seq(s@, pat@),
        },
{
    let ns = s.unicode_len();
    let np = pat.unicode_len();
    if np > ns {
        return None;
    }
    if np == 0 {
        assert(s@.subrange(0, 0) =~= pat@);
        return Some(0);
    }
    let mut i: usize = 0;
    while i <= ns - np
        invariant
            1 <= np <= ns,
            i <= ns - np + 1,
            ns == s@.len(),
            np == pat@.len(),
            forall|j: int| 0 <= j < i ==> !occurs_at(s@, pat@, j),
        decreases ns - i,
    {
        let mut k: usize = 0;
        let mut hit = true;
        while k < np
            invariant
                0 <= k <= np,
                i + np <= ns,
                ns == s@.len(),
                np == pat@.len(),
                hit ==> forall|j: int| 0 <= j < k ==> s@[i + j] == pat@[j],
                !hit ==> !occurs_at(s@, pat@, i as int),
            decreases np - k,
        {
            if s.get_char(i + k) != pat.get_char(k) {
                proof {
                    if occurs_at(s@, pat@, i as int) {
                        assert(s@.subrange(i as int, i + pat@.len())[k as int] == pat@[k as int]);
                    }
                }
                hit = false;
                k = np;
            } else {
                k = k + 1;
            }
        }
        if hit {
            assert(s@.subrange(i as int, i + pat@.len()) =~= pat@);
            return Some(i);
        }
        i = i + 1;
    }
    None
}

/// The first index where `pat` occurs in `s`, or `s.len()` if it does not.
pub open spec fn spec_find_sub(s: Seq<char>, pat: Seq<char>) -> int
    decreases s.len(),
{
    if occurs_at(s, pat, 0) {
        0
    } else if s.len() == 0 {
        0
    } else {
        1 + spec_find_sub(s.drop_first(), pat)
    }
}

pub proof fn lemma_spec_find_sub_at(s: Seq<char>, pat: Seq<char>, k: int)
    requires
        occurs_at(s, pat, k),
        forall|j: int| 0 <= j < k ==> !occurs_at(s, pat, j),
    ensures
        spec_find_sub(s, pat) == k,
    decreases s.len(),
{
    if occurs_at(s, pat, 0) {
    } else {
        assert(s.len() > 0);
        assert(occurs_at(s.drop_first(), pat, k - 1)) by {
            assert(s.drop_first().subrange(k - 1, k - 1 + pat.len() as int) =~= s.subrange(
                k,
                k + pat.len() as int,
            ));
        }
        assert forall|j: int| 0 <= j < k - 1 implies !occurs_at(s.drop_first(), pat, j) by {
            if occurs_at(s.drop_first(), pat, j) {
                assert(s.subrange(j + 1, j + 1 + pat.len() as int) =~= s.drop_first().subrange(
                    j,
                    j + pat.len() as int,
                ));
                assert(occurs_at(s, pat, j + 1));
                assert(!occurs_at(s, pat, j + 1));
            }
        }
        lemma_spec_find_sub_at(s.drop_first(), pat, k - 1);
    }
}

/// Extracts the substring of `s` from character `from` (inclusive) to the end.
pub fn str_suffix(s: &str, from: usize) -> (r: String)
    requires
        from <= s@.len(),
    ensures
        r@ == s@.subrange(from as int, s@.len() as int),
{
    let n = s.unicode_len();
    let sub = s.substring_char(from, n);
    let mut r = String::new();
    r.append(sub);
    proof {
        assert(Seq::<char>::empty() + s@.subrange(from as int, s@.len() as int) =~= s@.subrange(
            from as int,
            s@.len() as int,
        ));
    }
    r
}

} // verus!
