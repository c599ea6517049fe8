//! Splitting text into the smallest stylable units.
//!
//! A token is a maximal run of alphanumeric characters (a word) or one single
//! non-alphanumeric character: every space, tab, newline and punctuation
//! character stands alone, so that each can be restyled individually.  The
//! tokens concatenate back to exactly the input.

use vstd::prelude::*;
use vstd::string::StringExecFns;

use crate::text::alnum;

verus! {

/// The length of the maximal alphanumeric prefix of `s`.
pub open spec fn word_len(s: Seq<char>) -> int
    decreases s.len(),
{
    if s.len() == 0 {
        0
    } else if !alnum(s[0]) {
        0
    } else {
        1 + word_len(s.drop_first())
    }
}

pub proof fn lemma_word_len(s: Seq<char>)
    ensures
        0 <= word_len(s) <= s.len(),
        forall|j: int| 0 <= j < word_len(s) ==> alnum(s[j]),
        word_len(s) < s.len() ==> !alnum(s[word_len(s)]),
    decreases s.len(),
{
    if s.len() == 0 {
    } else if !alnum(s[0]) {
    } else {
        lemma_word_len(s.drop_first());
        assert forall|j: int| 0 <= j < word_len(s) implies alnum(s[j]) by {
            if j > 0 {
                assert(s.drop_first()[j - 1] == s[j]);
            }
        }
        if word_len(s) < s.len() {
            assert(s.drop_first()[word_len(s) - 1] == s[word_len(s)]);
        }
    }
}

pub proof fn lemma_word_len_at(s: Seq<char>, k: int)
    requires
        0 <= k <= s.len(),
        forall|j: int| 0 <= j < k ==> alnum(s[j]),
        k < s.len() ==> !alnum(s[k]),
    ensures
        word_len(s) == k,
    decreases s.len(),
{
    if s.len() == 0 {
    } else if k == 0 {
    } else {
        assert(alnum(s[0]));
        assert forall|j: int| 0 <= j < k - 1 implies alnum(s.drop_first()[j]) by {
            assert(s.drop_first()[j] == s[j + 1]);
        }
        if k - 1 < s.drop_first().len() {
            assert(s.drop_first()[k - 1] == s[k]);
        }
        lemma_word_len_at(s.drop_first(), k - 1);
    }
}

/// The tokens of `s`: maximal alphanumeric runs, and one token per other
/// character.
pub open spec fn spec_tokenize(s: Seq<char>) -> Seq<Seq<char>>
    decreases s.len(),
{
    if s.len() == 0 {
        Seq::empty()
    } else if !alnum(s[0]) {
        seq![seq![s[0]]] + spec_tokenize(s.drop_first())
    } else {
        let w = word_len(s);
        if 1 <= w <= s.len() {
            seq![s.subrange(0, w)] + spec_tokenize(s.subrange(w, s.len() as int))
        } else {
            Seq::empty()
        }
    }
}

/// Every token holds at least one character.
pub proof fn lemma_tokenize_nonempty(s: Seq<char>)
    ensures
        forall|i: int|
            0 <= i < spec_tokenize(s).len() ==> #[trigger] spec_tokenize(s)[i].len() > 0,
    decreases s.len(),
{
    if s.len() == 0 {
    } else if !alnum(s[0]) {
        lemma_tokenize_nonempty(s.drop_first());
        assert forall|i: int|
            0 <= i < spec_tokenize(s).len() implies #[trigger] spec_tokenize(s)[i].len() > 0 by {
            if i > 0 {
                assert(spec_tokenize(s)[i] == spec_tokenize(s.drop_first())[i - 1]);
            }
        }
    } else {
        let w = word_len(s);
        lemma_word_len(s);
        assert(w >= 1);
        lemma_tokenize_nonempty(s.subrange(w, s.len() as int));
        assert forall|i: int|
            0 <= i < spec_tokenize(s).len() implies #[trigger] spec_tokenize(s)[i].len() > 0 by {
            if i > 0 {
                assert(spec_tokenize(s)[i] == spec_tokenize(s.subrange(w, s.len() as int))[i - 1]);
            } else {
                assert(spec_tokenize(s)[0] == s.subrange(0, w));
            }
        }
    }
}

/// The tokens concatenate back to the input.
pub proof fn lemma_tokenize_flatten(s: Seq<char>)
    ensures
        spec_tokenize(s).flatten() == s,
    decreases s.len(),
{
    if s.len() == 0 {
        assert(spec_tokenize(s).flatten() =~= s);
    } else if !alnum(s[0]) {
        lemma_tokenize_flatten(s.drop_first());
        let parts = seq![seq![s[0]]] + spec_tokenize(s.drop_first());
        assert(parts.drop_first() =~= spec_tokenize(s.drop_first()));
        assert(parts.flatten() =~= seq![s[0]] + spec_tokenize(s.drop_first()).flatten());
        assert(seq![s[0]] + s.drop_first() =~= s);
    } else {
        let w = word_len(s);
        lemma_word_len(s);
        lemma_tokenize_flatten(s.subrange(w, s.len() as int));
        let parts = seq![s.subrange(0, w)] + spec_tokenize(s.subrange(w, s.len() as int));
        assert(parts.drop_first() =~= spec_tokenize(s.subrange(w, s.len() as int)));
        assert(parts.flatten() =~= s.subrange(0, w) + spec_tokenize(
            s.subrange(w, s.len() as int),
        ).flatten());
        assert(s.subrange(0, w) + s.subrange(w, s.len() as int) =~= s);
    }
}

/// Splits `text` into tokens as [`spec_tokenize`] describes.
pub fn tokenize(text: &str) -> (r: Vec<String>)
    ensures
        r.deep_view() == spec_tokenize(text@),
{
    let n = text.unicode_len();
    let mut r: Vec<String> = Vec::new();
    let mut i: usize = 0;
    proof {
        assert(r.deep_view() =~= Seq::<Seq<char>>::empty());
        assert(text@.subrange(0, n as int) =~= text@);
        assert(Seq::<Seq<char>>::empty() + spec_tokenize(text@) =~= spec_tokenize(text@));
    }
    while i < n
        invariant
            i <= n,
            n == text@.len(),
            spec_tokenize(text@) == r.deep_view() + spec_tokenize(
                text@.subrange(i as int, n as int),
            ),
        decreases n - i,
    {
        let ghost rem = text@.subrange(i as int, n as int);
        let ghost pre = r.deep_view();
        let c = text.get_char(i);
        if !c.is_alphanumeric() {
            let mut tok: Vec<char> = Vec::new();
            tok.push(c);
            let tok_str = crate::text::chars_to_string(&tok);
            r.push(tok_str);
            proof {
                assert(tok@ =~= seq![rem[0]]);
                assert(r.deep_view() =~= pre + seq![seq![rem[0]]]);
                assert(rem.drop_first() =~= text@.subrange(i + 1, n as int));
                assert(pre + (seq![seq![rem[0]]] + spec_tokenize(rem.drop_first())) =~= (pre
                    + seq![seq![rem[0]]]) + spec_tokenize(rem.drop_first()));
            }
            i = i + 1;
        } else {
            let mut j: usize = i + 1;
            while j < n && text.get_char(j).is_alphanumeric()
                invariant
                    i < j <= n,
                    n == text@.len(),
                    alnum(text@[i as int]),
                    forall|k: int| i <= k < j ==> alnum(text@[k]),
                decreases n - j,
            {
                j = j + 1;
            }
            let word = text.substring_char(i, j);
            let word_string = String::from_str(word);
            r.push(word_string);
            proof {
                assert forall|k: int| 0 <= k < j - i implies alnum(rem[k]) by {
                    assert(rem[k] == text@[i + k]);
                }
                if j < n {
                    assert(rem[j - i] == text@[j as int]);
                }
                lemma_word_len_at(rem, j - i);
                assert(word@ =~= rem.subrange(0, j - i));
                assert(r.deep_view() =~= pre + seq![rem.subrange(0, j - i)]);
                assert(rem.subrange(j - i, rem.len() as int) =~= text@.subrange(
                    j as int,
                    n as int,
                ));
                assert(pre + (seq![rem.subrange(0, j - i)] + spec_tokenize(
                    rem.subrange(j - i, rem.len() as int),
                )) =~= (pre + seq![rem.subrange(0, j - i)]) + spec_tokenize(
                    rem.subrange(j - i, rem.len() as int),
                ));
            }
            i = j;
        }
    }
    proof {
        assert(text@.subrange(n as int, n as int) =~= Seq::<char>::empty());
    }
    r
}

} // verus!
