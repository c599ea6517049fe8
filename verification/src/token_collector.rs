//! Styled tokens and the renderer turning a token stream into escaped text.
//!
//! A [`StyledToken`] is the smallest independently stylable unit of text.  A
//! [`TokenCollector`] gathers the tokens of one side (old or new) of a diff
//! block behind a fixed line prefix (`-` or `+`) and renders them into
//! terminal escape sequences, applying the structural highlight rules:
//! trailing whitespace and non-leading tabs on added lines render in the
//! error style, and a single space between two highlighted words is
//! highlighted too.

use vstd::prelude::*;

use crate::constants::{
    error_color, inverse_video, inverse_video_str, new_color, normal, normal_str,
    not_inverse_video, not_inverse_video_str, old_color,
};
use crate::text::{
    alnum, contains_seq, is_whitespace_char, is_ws_char, lemma_contains_concat_right, no_esc,
    occurs_at, str_eq,
};

verus! {

/// The style of one token.
#[derive(Clone, Copy, Debug, PartialEq, Eq, Structural)]
pub enum Style {
    Old,
    OldInverse,
    New,
    NewInverse,
    Error,
}

impl Style {
    /// Whether this style renders in inverse video.
    pub open spec fn spec_is_inverse(&self) -> bool {
        match self {
            Style::OldInverse | Style::NewInverse | Style::Error => true,
            _ => false,
        }
    }

    /// Executable check for [`Style::spec_is_inverse`].
    #[verifier::when_used_as_spec(spec_is_inverse)]
    pub fn is_inverse(&self) -> (r: bool)
        ensures
            r == self.spec_is_inverse(),
    {
        match self {
            Style::OldInverse | Style::NewInverse | Style::Error => true,
            _ => false,
        }
    }

    /// The inverse-video counterpart of this style.
    pub open spec fn spec_inverted(&self) -> Style {
        match self {
            Style::Old => Style::OldInverse,
            Style::New => Style::NewInverse,
            Style::OldInverse => Style::OldInverse,
            Style::NewInverse => Style::NewInverse,
            Style::Error => Style::Error,
        }
    }

    /// Executable version of [`Style::spec_inverted`].
    #[verifier::when_used_as_spec(spec_inverted)]
    pub fn inverted(&self) -> (r: Style)
        ensures
            r == self.spec_inverted(),
    {
        match self {
            Style::Old => Style::OldInverse,
            Style::New => Style::NewInverse,
            Style::OldInverse => Style::OldInverse,
            Style::NewInverse => Style::NewInverse,
            Style::Error => Style::Error,
        }
    }

    /// The non-inverse counterpart of this style.  The error style has no
    /// such counterpart and stays as it is.
    pub open spec fn spec_uninverted(&self) -> Style {
        match self {
            Style::Old => Style::Old,
            Style::OldInverse => Style::Old,
            Style::New => Style::New,
            Style::NewInverse => Style::New,
            Style::Error => Style::Error,
        }
    }

    /// Executable version of [`Style::spec_uninverted`].
    #[verifier::when_used_as_spec(spec_uninverted)]
    pub fn uninverted(&self) -> (r: Style)
        ensures
            r == self.spec_uninverted(),
    {
        match self {
            Style::Old => Style::Old,
            Style::OldInverse => Style::Old,
            Style::New => Style::New,
            Style::NewInverse => Style::New,
            Style::Error => Style::Error,
        }
    }

    /// The color escape sequence of this style.
    pub open spec fn spec_color(&self) -> Seq<char> {
        match self {
            Style::Old => old_color(),
            Style::OldInverse => old_color(),
            Style::New => new_color(),
            Style::NewInverse => new_color(),
            Style::Error => error_color(),
        }
    }

    /// Executable version of [`Style::spec_color`].
    pub fn color(&self) -> (r: &'static str)
        ensures
            r@ == self.spec_color(),
    {
        match self {
            Style::Old => crate::constants::old_color_str(),
            Style::OldInverse => crate::constants::old_color_str(),
            Style::New => crate::constants::new_color_str(),
            Style::NewInverse => crate::constants::new_color_str(),
            Style::Error => crate::constants::error_color_str(),
        }
    }
}

/// The mathematical value of a [`StyledToken`]: its text and style.
#[verifier::ext_equal]
pub ghost struct TokenV {
    pub text: Seq<char>,
    pub style: Style,
}

/// One stylable unit of text: a word, or a single non-alphanumeric character
/// (including a newline or a tab).
#[derive(Debug)]
pub struct StyledToken {
    token: String,
    style: Style,
}

impl View for StyledToken {
    type V = TokenV;

    closed spec fn view(&self) -> TokenV {
        TokenV { text: self.token@, style: self.style }
    }
}

impl PartialEq for StyledToken {
    fn eq(&self, other: &Self) -> (r: bool) {
        self.token == other.token && self.style == other.style
    }
}

impl vstd::std_specs::cmp::PartialEqSpecImpl for StyledToken {
    open spec fn obeys_eq_spec() -> bool {
        true
    }

    open spec fn eq_spec(&self, other: &Self) -> bool {
        self@ == other@
    }
}

/// The views of a token sequence.
pub open spec fn views(s: Seq<StyledToken>) -> Seq<TokenV> {
    s.map_values(|t: StyledToken| t@)
}

pub broadcast proof fn lemma_views_index(s: Seq<StyledToken>, i: int)
    requires
        0 <= i < s.len(),
    ensures
        #[trigger] views(s)[i] == s[i]@,
{
}

pub broadcast proof fn lemma_views_len(s: Seq<StyledToken>)
    ensures
        #[trigger] views(s).len() == s.len(),
{
}

/// Every token holds at least one character.
pub open spec fn all_nonempty(row: Seq<TokenV>) -> bool {
    forall|i: int| 0 <= i < row.len() ==> #[trigger] row[i].text.len() > 0
}

/// A token consisting of one whitespace character.
pub open spec fn is_ws_token(t: TokenV) -> bool {
    t.text.len() == 1 && is_ws_char(t.text[0])
}

/// A word: several characters, or one alphanumeric character.
pub open spec fn is_word_token(t: TokenV) -> bool {
    t.text.len() >= 2 || (t.text.len() == 1 && alnum(t.text[0]))
}

/// A token consisting of exactly one tab character.
pub open spec fn is_tab_token(t: TokenV) -> bool {
    t.text.len() == 1 && t.text[0] == '\t'
}

/// A token consisting of exactly one newline character.
pub open spec fn is_nl_token(t: TokenV) -> bool {
    t.text.len() == 1 && t.text[0] == '\n'
}

/// `t` with its style replaced.
pub open spec fn recolor(t: TokenV, style: Style) -> TokenV {
    TokenV { text: t.text, style }
}

impl StyledToken {
    /// Wraps `token` with a style.
    pub fn new(token: String, style: Style) -> (r: StyledToken)
        ensures
            r@.text == token@,
            r@.style == style,
    {
        StyledToken { token, style }
    }

    /// The token's text.
    pub fn text(&self) -> (r: &str)
        ensures
            r@ == self@.text,
    {
        self.token.as_str()
    }

    /// The token's style.
    pub fn style(&self) -> (r: Style)
        ensures
            r == self@.style,
    {
        self.style
    }

    /// An owned copy of this token.
    pub fn duplicate(&self) -> (r: StyledToken)
        ensures
            r@ == self@,
    {
        StyledToken { token: self.token.clone(), style: self.style }
    }

    /// Whether the token is one single whitespace character.
    pub fn is_whitespace(&self) -> (r: bool)
        requires
            self@.text.len() > 0,
        ensures
            r == is_ws_token(self@),
    {
        if self.token.as_str().unicode_len() != 1 {
            return false;
        }
        is_whitespace_char(self.token.as_str().get_char(0))
    }

    /// Whether the token is a word.
    pub fn is_word(&self) -> (r: bool)
        requires
            self@.text.len() > 0,
        ensures
            r == is_word_token(self@),
    {
        if self.token.as_str().unicode_len() >= 2 {
            return true;
        }
        self.token.as_str().get_char(0).is_alphanumeric()
    }

    /// Whether the token is one single newline character.
    pub fn is_newline(&self) -> (r: bool)
        ensures
            r == is_nl_token(self@),
    {
        self.token.as_str().unicode_len() == 1 && self.token.as_str().get_char(0) == '\n'
    }

    /// Whether the token is one single tab character.
    pub fn is_tab(&self) -> (r: bool)
        ensures
            r == is_tab_token(self@),
    {
        self.token.as_str().unicode_len() == 1 && self.token.as_str().get_char(0) == '\t'
    }
}

/// Whether every token from `i` to the end of the row is whitespace.
pub open spec fn all_ws_from(row: Seq<TokenV>, i: int) -> bool {
    forall|j: int| i <= j < row.len() ==> is_ws_token(#[trigger] row[j])
}

/// Trailing whitespace recolored to the error style: a token turns red
/// exactly when it and everything after it is whitespace.
pub open spec fn spec_hl_trailing_ws(row: Seq<TokenV>) -> Seq<TokenV> {
    Seq::new(
        row.len(),
        |i: int|
            if all_ws_from(row, i) {
                recolor(row[i], Style::Error)
            } else {
                row[i]
            },
    )
}

/// Recolors the row's trailing whitespace tokens to the error style.
pub fn highlight_trailing_whitespace(row: &mut Vec<StyledToken>)
    requires
        all_nonempty(views(old(row)@)),
    ensures
        views(final(row)@) == spec_hl_trailing_ws(views(old(row)@)),
{
    broadcast use {lemma_views_index, lemma_views_len};

    let ghost orig = views(old(row)@);
    let mut i: usize = row.len();
    while i > 0
        invariant
            orig == views(old(row)@),
            i <= row@.len(),
            row@.len() == orig.len(),
            all_nonempty(orig),
            forall|j: int| 0 <= j < i ==> #[trigger] row@[j]@ == orig[j],
            forall|j: int| i <= j < orig.len() ==> is_ws_token(#[trigger] orig[j]),
            forall|j: int|
                i <= j < orig.len() ==> #[trigger] row@[j]@ == recolor(orig[j], Style::Error),
        decreases i,
    {
        proof {
            assert(row@[i - 1]@ == orig[i - 1]);
            assert(orig[i - 1].text.len() > 0);
        }
        if !row[i - 1].is_whitespace() {
            proof {
                lemma_trailing_ws_done(orig, views(row@), i as int);
            }
            return ;
        }
        row[i - 1].style = Style::Error;
        proof {
            assert(row@[i - 1]@ == recolor(orig[i - 1], Style::Error));
        }
        i = i - 1;
    }
    proof {
        lemma_trailing_ws_done(orig, views(row@), 0);
    }
}

proof fn lemma_trailing_ws_done(orig: Seq<TokenV>, cur: Seq<TokenV>, i: int)
    requires
        0 <= i <= orig.len(),
        cur.len() == orig.len(),
        i > 0 ==> !is_ws_token(orig[i - 1]),
        forall|j: int| 0 <= j < i ==> #[trigger] cur[j] == orig[j],
        forall|j: int| i <= j < orig.len() ==> is_ws_token(#[trigger] orig[j]),
        forall|j: int| i <= j < orig.len() ==> #[trigger] cur[j] == recolor(orig[j], Style::Error),
    ensures
        cur =~= spec_hl_trailing_ws(orig),
{
    assert forall|k: int| 0 <= k < orig.len() implies cur[k] == spec_hl_trailing_ws(orig)[k] by {
        if k >= i {
            assert forall|j: int| k <= j < orig.len() implies is_ws_token(#[trigger] orig[j]) by {}
            assert(all_ws_from(orig, k));
        } else {
            if all_ws_from(orig, k) {
                assert(is_ws_token(orig[i - 1]));
            }
        }
    }
}

/// Non-leading tabs recolored to the error style: a tab token turns red
/// exactly when some earlier token in the row is not a tab.
pub open spec fn spec_hl_nonleading_tab(row: Seq<TokenV>) -> Seq<TokenV> {
    Seq::new(
        row.len(),
        |i: int|
            if is_tab_token(row[i]) && exists|j: int| 0 <= j < i && !is_tab_token(#[trigger] row[j]) {
                recolor(row[i], Style::Error)
            } else {
                row[i]
            },
    )
}

/// Recolors the row's non-leading tab tokens to the error style.
pub fn highlight_nonleading_tab(row: &mut Vec<StyledToken>)
    ensures
        views(final(row)@) == spec_hl_nonleading_tab(views(old(row)@)),
{
    broadcast use {lemma_views_index, lemma_views_len};

    let ghost orig = views(old(row)@);
    // Skip the leading run of tabs.
    let mut k: usize = 0;
    while k < row.len() && row[k].is_tab()
        invariant
            orig == views(old(row)@),
            k <= orig.len(),
            orig == views(row@),
            row@.len() == orig.len(),
            forall|j: int| 0 <= j < k ==> is_tab_token(#[trigger] orig[j]),
        decreases orig.len() - k,
    {
        proof {
            assert(row@[k as int]@ == orig[k as int]);
        }
        k = k + 1;
    }
    if k == row.len() {
        // Nothing but leading tabs: nothing to recolor.
        proof {
            lemma_nonleading_tab_done(orig, views(row@), k as int);
        }
        return ;
    }
    proof {
        assert(row@[k as int]@ == orig[k as int]);
    }
    let ghost nontab = row@[k as int]@;
    // row[k] is not a tab; every tab after it is non-leading.
    let mut i: usize = k + 1;
    while i < row.len()
        invariant
            orig == views(old(row)@),
            k < i <= orig.len(),
            row@.len() == orig.len(),
            !is_tab_token(orig[k as int]),
            forall|j: int| 0 <= j < k ==> is_tab_token(#[trigger] orig[j]),
            forall|j: int| 0 <= j <= k ==> #[trigger] row@[j]@ == orig[j],
            forall|j: int| i <= j < orig.len() ==> #[trigger] row@[j]@ == orig[j],
            forall|j: int|
                k < j < i ==> #[trigger] row@[j]@ == (if is_tab_token(orig[j]) {
                    recolor(orig[j], Style::Error)
                } else {
                    orig[j]
                }),
        decreases orig.len() - i,
    {
        proof {
            assert(row@[i as int]@ == orig[i as int]);
        }
        if row[i].is_tab() {
            row[i].style = Style::Error;
            proof {
                assert(row@[i as int]@ == recolor(orig[i as int], Style::Error));
            }
        }
        i = i + 1;
    }
    proof {
        lemma_nonleading_tab_done(orig, views(row@), k as int);
    }
}

proof fn lemma_nonleading_tab_done(orig: Seq<TokenV>, cur: Seq<TokenV>, k: int)
    requires
        0 <= k <= orig.len(),
        cur.len() == orig.len(),
        forall|j: int| 0 <= j < k ==> is_tab_token(#[trigger] orig[j]),
        k < orig.len() ==> !is_tab_token(orig[k]),
        forall|j: int| 0 <= j <= k && j < orig.len() ==> #[trigger] cur[j] == orig[j],
        forall|j: int|
            k < j < orig.len() ==> #[trigger] cur[j] == (if is_tab_token(orig[j]) {
                recolor(orig[j], Style::Error)
            } else {
                orig[j]
            }),
    ensures
        cur =~= spec_hl_nonleading_tab(orig),
{
    assert forall|t: int| 0 <= t < orig.len() implies cur[t] == spec_hl_nonleading_tab(orig)[t] by {
        if t <= k {
            if is_tab_token(orig[t]) && exists|j: int|
                0 <= j < t && !is_tab_token(#[trigger] orig[j]) {
                let j = choose|j: int| 0 <= j < t && !is_tab_token(#[trigger] orig[j]);
                assert(is_tab_token(orig[j]));
            }
        } else {
            if is_tab_token(orig[t]) {
                assert(0 <= k < t && !is_tab_token(orig[k]));
            }
        }
    }
}

/// The scanner state of the word-joining pass.
#[derive(Clone, Copy, Debug, PartialEq, Eq, Structural)]
pub enum JoinState {
    Nothing,
    HighlightedWord,
    WordSpace,
}

/// One transition of the word-joining scanner.
pub open spec fn join_step(st: JoinState, t: TokenV) -> JoinState {
    match st {
        JoinState::Nothing => {
            if t.style.spec_is_inverse() && is_word_token(t) {
                JoinState::HighlightedWord
            } else {
                JoinState::Nothing
            }
        },
        JoinState::HighlightedWord => {
            if is_ws_token(t) {
                JoinState::WordSpace
            } else if t.style.spec_is_inverse() && is_word_token(t) {
                JoinState::HighlightedWord
            } else {
                JoinState::Nothing
            }
        },
        JoinState::WordSpace => {
            if t.style.spec_is_inverse() && is_word_token(t) {
                JoinState::HighlightedWord
            } else {
                JoinState::Nothing
            }
        },
    }
}

/// The scanner state before processing token `i`.
pub open spec fn join_state_at(row: Seq<TokenV>, i: int) -> JoinState
    decreases i,
{
    if i <= 0 {
        JoinState::Nothing
    } else {
        join_step(join_state_at(row, i - 1), row[i - 1])
    }
}

/// Whether the whitespace token at `i` connects two highlighted words and is
/// promoted to their inverse style.
pub open spec fn join_promoted(row: Seq<TokenV>, i: int) -> bool {
    &&& 0 <= i
    &&& i + 1 < row.len()
    &&& is_ws_token(row[i])
    &&& join_state_at(row, i) == JoinState::HighlightedWord
    &&& row[i + 1].style.spec_is_inverse()
    &&& is_word_token(row[i + 1])
}

/// A single whitespace token between two inverse-styled words, inverted too.
pub open spec fn spec_hl_space_between_words(row: Seq<TokenV>) -> Seq<TokenV> {
    Seq::new(
        row.len(),
        |i: int|
            if join_promoted(row, i) {
                recolor(row[i], row[i].style.spec_inverted())
            } else {
                row[i]
            },
    )
}

/// Highlights a single space standing between two highlighted words.
pub fn highlight_space_between_words(row: &mut Vec<StyledToken>)
    requires
        all_nonempty(views(old(row)@)),
    ensures
        views(final(row)@) == spec_hl_space_between_words(views(old(row)@)),
{
    broadcast use {lemma_views_index, lemma_views_len};

    let ghost orig = views(old(row)@);
    let mut st = JoinState::Nothing;
    let mut i: usize = 0;
    while i < row.len()
        invariant
            orig == views(old(row)@),
            i <= orig.len(),
            row@.len() == orig.len(),
            all_nonempty(orig),
            st == join_state_at(orig, i as int),
            forall|j: int| i <= j < orig.len() ==> #[trigger] row@[j]@ == orig[j],
            forall|j: int|
                0 <= j < i ==> #[trigger] row@[j]@ == (if join_promoted(orig, j) && j + 1 < i {
                    recolor(orig[j], orig[j].style.spec_inverted())
                } else {
                    orig[j]
                }),
        decreases orig.len() - i,
    {
        proof {
            assert(row@[i as int]@ == orig[i as int]);
            assert(orig[i as int].text.len() > 0);
        }
        let inverse_word = row[i].style().is_inverse() && row[i].is_word();
        match st {
            JoinState::Nothing => {
                if inverse_word {
                    st = JoinState::HighlightedWord;
                } else {
                    st = JoinState::Nothing;
                }
            },
            JoinState::HighlightedWord => {
                if row[i].is_whitespace() {
                    st = JoinState::WordSpace;
                } else if inverse_word {
                    st = JoinState::HighlightedWord;
                } else {
                    st = JoinState::Nothing;
                }
            },
            JoinState::WordSpace => {
                if inverse_word {
                    proof {
                        if i == 0 {
                            assert(join_state_at(orig, 0) == JoinState::Nothing);
                        }
                        assert(join_state_at(orig, i as int) == join_step(
                            join_state_at(orig, i - 1),
                            orig[i - 1],
                        ));
                        assert(is_ws_token(orig[i - 1]) && join_state_at(orig, i - 1)
                            == JoinState::HighlightedWord);
                        assert(row@[i - 1]@ == orig[i - 1]);
                        assert(join_promoted(orig, i - 1));
                    }
                    // The previous token is the connecting whitespace.
                    let promoted = row[i - 1].style().inverted();
                    row[i - 1].style = promoted;
                    proof {
                        assert(row@[i - 1]@ == recolor(
                            orig[i - 1],
                            orig[i - 1].style.spec_inverted(),
                        ));
                    }
                    st = JoinState::HighlightedWord;
                } else {
                    st = JoinState::Nothing;
                }
            },
        }
        i = i + 1;
        proof {
            assert forall|j: int|
                0 <= j < i implies #[trigger] row@[j]@ == (if join_promoted(orig, j) && j + 1 < i {
                recolor(orig[j], orig[j].style.spec_inverted())
            } else {
                orig[j]
            }) by {
                if j == i - 2 && join_promoted(orig, j) {
                    assert(join_state_at(orig, j + 1) == join_step(join_state_at(orig, j), orig[j]));
                }
            }
        }
    }
    proof {
        assert forall|t: int| 0 <= t < orig.len() implies views(row@)[t]
            == spec_hl_space_between_words(orig)[t] by {
            assert(views(row@)[t] == row@[t]@);
            if join_promoted(orig, t) {
                assert(t + 1 < orig.len());
            }
        }
        assert(views(row@) =~= spec_hl_space_between_words(orig));
    }
}


/// The index of the first newline token in `tokens`, or `tokens.len()`.
pub open spec fn find_nl(tokens: Seq<TokenV>) -> int
    decreases tokens.len(),
{
    if tokens.len() == 0 {
        0
    } else if is_nl_token(tokens[0]) {
        0
    } else {
        1 + find_nl(tokens.drop_first())
    }
}

pub proof fn lemma_find_nl(tokens: Seq<TokenV>)
    ensures
        0 <= find_nl(tokens) <= tokens.len(),
        find_nl(tokens) < tokens.len() ==> is_nl_token(tokens[find_nl(tokens)]),
        forall|j: int| 0 <= j < find_nl(tokens) ==> !is_nl_token(tokens[j]),
    decreases tokens.len(),
{
    if tokens.len() == 0 {
    } else if is_nl_token(tokens[0]) {
    } else {
        lemma_find_nl(tokens.drop_first());
        assert forall|j: int| 0 <= j < find_nl(tokens) implies !is_nl_token(tokens[j]) by {
            if j > 0 {
                assert(tokens.drop_first()[j - 1] == tokens[j]);
            }
        }
    }
}

pub proof fn lemma_find_nl_at(tokens: Seq<TokenV>, k: int)
    requires
        0 <= k < tokens.len(),
        is_nl_token(tokens[k]),
        forall|j: int| 0 <= j < k ==> !is_nl_token(tokens[j]),
    ensures
        find_nl(tokens) == k,
    decreases tokens.len(),
{
    if is_nl_token(tokens[0]) {
    } else {
        assert(tokens.drop_first()[k - 1] == tokens[k]);
        assert forall|j: int| 0 <= j < k - 1 implies !is_nl_token(tokens.drop_first()[j]) by {
            assert(tokens.drop_first()[j] == tokens[j + 1]);
        }
        lemma_find_nl_at(tokens.drop_first(), k - 1);
    }
}

/// The structural passes applied to one row before emission.  Trailing
/// whitespace and tab checks run only on added lines; the word-joining pass
/// runs on every line.  The filename-header variant (`structural == false`)
/// skips them all.
pub open spec fn spec_row_passes(prefix_style: Style, row: Seq<TokenV>, structural: bool) -> Seq<
    TokenV,
> {
    if structural && prefix_style == Style::New {
        spec_hl_space_between_words(spec_hl_nonleading_tab(spec_hl_trailing_ws(row)))
    } else if structural {
        spec_hl_space_between_words(row)
    } else {
        row
    }
}

proof fn lemma_tws_nonempty(row: Seq<TokenV>)
    requires
        all_nonempty(row),
    ensures
        all_nonempty(spec_hl_trailing_ws(row)),
{
    assert forall|i: int|
        0 <= i < spec_hl_trailing_ws(row).len() implies #[trigger] spec_hl_trailing_ws(
        row,
    )[i].text.len() > 0 by {
        assert(row[i].text.len() > 0);
    }
}

proof fn lemma_tab_nonempty(row: Seq<TokenV>)
    requires
        all_nonempty(row),
    ensures
        all_nonempty(spec_hl_nonleading_tab(row)),
{
    assert forall|i: int|
        0 <= i < spec_hl_nonleading_tab(row).len() implies #[trigger] spec_hl_nonleading_tab(
        row,
    )[i].text.len() > 0 by {
        assert(row[i].text.len() > 0);
    }
}

/// The escape-minimal emission of a row: an inverse toggle only when the
/// inverse flag changes, a color escape only when the color changes, then the
/// token's text.
pub open spec fn spec_emit(row: Seq<TokenV>, inv: bool, color: Seq<char>) -> Seq<char>
    decreases row.len(),
{
    if row.len() == 0 {
        Seq::empty()
    } else {
        let t = row[0];
        let e1: Seq<char> = if t.style.spec_is_inverse() && !inv {
            inverse_video()
        } else if inv && !t.style.spec_is_inverse() {
            not_inverse_video()
        } else {
            Seq::empty()
        };
        let e2: Seq<char> = if t.style.spec_color() != color {
            t.style.spec_color()
        } else {
            Seq::empty()
        };
        e1 + e2 + t.text + spec_emit(
            row.drop_first(),
            t.style.spec_is_inverse(),
            t.style.spec_color(),
        )
    }
}

/// One rendered row: the line prefix establishes the inverse flag and color,
/// then the row's tokens follow escape-minimally, then a full reset.  An
/// empty row renders as nothing.
pub open spec fn spec_render_row(prefix: TokenV, row: Seq<TokenV>, structural: bool) -> Seq<char> {
    if row.len() == 0 {
        Seq::empty()
    } else {
        let processed = spec_row_passes(prefix.style, row, structural);
        (if prefix.style.spec_is_inverse() {
            inverse_video()
        } else {
            Seq::empty()
        }) + prefix.style.spec_color() + prefix.text + spec_emit(
            processed,
            prefix.style.spec_is_inverse(),
            prefix.style.spec_color(),
        ) + normal()
    }
}

/// The full rendering of a token stream: rows split at newline tokens, each
/// rendered by [`spec_render_row`] and terminated by a plain newline.
pub open spec fn spec_render(prefix: TokenV, tokens: Seq<TokenV>, structural: bool) -> Seq<char>
    decreases tokens.len(),
{
    if tokens.len() == 0 {
        Seq::empty()
    } else {
        let i = find_nl(tokens);
        if 0 <= i < tokens.len() {
            spec_render_row(prefix, tokens.subrange(0, i), structural) + seq!['\n'] + spec_render(
                prefix,
                tokens.subrange(i + 1, tokens.len() as int),
                structural,
            )
        } else {
            spec_render_row(prefix, tokens, structural)
        }
    }
}

/// `a + b`, stopping at the largest `usize`.
pub open spec fn sat_add(a: usize, b: nat) -> usize {
    if a + b > usize::MAX {
        usize::MAX
    } else {
        (a + b) as usize
    }
}

/// The number of characters in all tokens, counted saturatingly on top of
/// `acc`.
pub open spec fn sat_count_all(tokens: Seq<TokenV>, acc: usize) -> usize
    decreases tokens.len(),
{
    if tokens.len() == 0 {
        acc
    } else {
        sat_count_all(tokens.drop_first(), sat_add(acc, tokens[0].text.len()))
    }
}

/// The number of characters in inverse-styled tokens, counted saturatingly
/// on top of `acc`.
pub open spec fn sat_count_inverse(tokens: Seq<TokenV>, acc: usize) -> usize
    decreases tokens.len(),
{
    if tokens.len() == 0 {
        acc
    } else {
        sat_count_inverse(
            tokens.drop_first(),
            if tokens[0].style.spec_is_inverse() {
                sat_add(acc, tokens[0].text.len())
            } else {
                acc
            },
        )
    }
}

/// The mathematical value of a [`TokenCollector`].
#[verifier::ext_equal]
pub ghost struct CollectorV {
    pub prefix: TokenV,
    pub tokens: Seq<TokenV>,
    pub chars_count: usize,
    pub highlighted_chars_count: usize,
    pub rendered: bool,
}

/// Collects the styled tokens of one side of a diff block and renders them.
/// Rendering consumes the tokens and may happen only once; afterwards the
/// character counts become readable.
pub struct TokenCollector {
    line_prefix: StyledToken,
    tokens: Vec<StyledToken>,
    chars_count: usize,
    highlighted_chars_count: usize,
    rendered: bool,
}

impl View for TokenCollector {
    type V = CollectorV;

    closed spec fn view(&self) -> CollectorV {
        CollectorV {
            prefix: self.line_prefix@,
            tokens: views(self.tokens@),
            chars_count: self.chars_count,
            highlighted_chars_count: self.highlighted_chars_count,
            rendered: self.rendered,
        }
    }
}

/// Renders one row of tokens behind the line prefix.
#[verifier::rlimit(50)]
fn render_row(prefix: &StyledToken, row: &mut Vec<StyledToken>, structural: bool) -> (r: String)
    requires
        all_nonempty(views(old(row)@)),
    ensures
        r@ == spec_render_row(prefix@, views(old(row)@), structural),
{
    broadcast use {lemma_views_index, lemma_views_len};

    let ghost orig = views(old(row)@);
    let mut rendered = String::new();
    if row.len() == 0 {
        return rendered;
    }
    if structural {
        if prefix.style() == Style::New {
            highlight_trailing_whitespace(row);
            proof {
                lemma_tws_nonempty(orig);
            }
            highlight_nonleading_tab(row);
            proof {
                lemma_tab_nonempty(spec_hl_trailing_ws(orig));
            }
        }
        highlight_space_between_words(row);
    }
    let ghost proc = spec_row_passes(prefix@.style, orig, structural);
    proof {
        assert(views(row@) == proc);
    }
    let prefix_style = prefix.style();
    let mut is_inv = prefix_style.is_inverse();
    if is_inv {
        rendered.append(inverse_video_str());
    }
    let mut color: &str = prefix_style.color();
    rendered.append(color);
    rendered.append(prefix.text());
    let ghost target = spec_render_row(prefix@, orig, structural);
    proof {
        assert(rendered@ + spec_emit(proc, prefix@.style.spec_is_inverse(), prefix@.style.spec_color())
            + normal() =~= target);
        assert(proc.subrange(0, proc.len() as int) =~= proc);
    }
    let mut i: usize = 0;
    while i < row.len()
        invariant
            proc == views(row@),
            target == spec_render_row(prefix@, orig, structural),
            i <= proc.len(),
            rendered@ + spec_emit(proc.subrange(i as int, proc.len() as int), is_inv, color@)
                + normal() == target,
        decreases proc.len() - i,
    {
        proof {
            assert(row@[i as int]@ == proc[i as int]);
            assert(proc.subrange(i as int, proc.len() as int).drop_first() =~= proc.subrange(
                i + 1,
                proc.len() as int,
            ));
            assert(proc.subrange(i as int, proc.len() as int)[0] == proc[i as int]);
        }
        let ghost pre = rendered@;
        let t_inv = row[i].style().is_inverse();
        if t_inv && !is_inv {
            rendered.append(inverse_video_str());
        }
        if is_inv && !t_inv {
            rendered.append(not_inverse_video_str());
        }
        is_inv = t_inv;
        let tcolor = row[i].style().color();
        if !str_eq(tcolor, color) {
            rendered.append(tcolor);
            color = tcolor;
        }
        rendered.append(row[i].text());
        proof {
            let t = proc[i as int];
            assert(rendered@ + spec_emit(
                proc.subrange(i + 1, proc.len() as int),
                t.style.spec_is_inverse(),
                t.style.spec_color(),
            ) + normal() =~= target);
        }
        i = i + 1;
    }
    proof {
        assert(proc.subrange(proc.len() as int, proc.len() as int) =~= Seq::<TokenV>::empty());
        assert(rendered@ + normal() =~= target);
    }
    rendered.append(normal_str());
    proof {
        assert(rendered@ =~= target);
    }
    rendered
}

impl TokenCollector {
    /// All collected tokens hold at least one character.
    pub open spec fn wf(&self) -> bool {
        all_nonempty(self@.tokens)
    }

    /// A fresh collector for one side of a block, with its line prefix.
    pub fn create(line_prefix: StyledToken) -> (r: TokenCollector)
        ensures
            r@.prefix == line_prefix@,
            r@.tokens.len() == 0,
            r@.chars_count == 0,
            r@.highlighted_chars_count == 0,
            r@.rendered == false,
            r.wf(),
    {
        let r = TokenCollector {
            line_prefix,
            tokens: Vec::new(),
            chars_count: 0,
            highlighted_chars_count: 0,
            rendered: false,
        };
        proof {
            assert(views(r.tokens@) =~= Seq::<TokenV>::empty());
        }
        r
    }

    /// Appends one token to the collected stream.
    pub fn push(&mut self, token: StyledToken)
        requires
            token@.text.len() > 0,
        ensures
            final(self)@.tokens == old(self)@.tokens.push(token@),
            final(self)@.prefix == old(self)@.prefix,
            final(self)@.chars_count == old(self)@.chars_count,
            final(self)@.highlighted_chars_count == old(self)@.highlighted_chars_count,
            final(self)@.rendered == old(self)@.rendered,
            old(self).wf() ==> final(self).wf(),
    {
        broadcast use {lemma_views_index, lemma_views_len};

        let ghost pre = views(self.tokens@);
        self.tokens.push(token);
        proof {
            assert(views(self.tokens@) =~= pre.push(token@));
            if all_nonempty(pre) {
                assert forall|j: int|
                    0 <= j < views(self.tokens@).len() implies #[trigger] views(
                    self.tokens@,
                )[j].text.len() > 0 by {
                    if j < pre.len() {
                        assert(pre[j].text.len() > 0);
                    }
                }
            }
        }
    }

    /// Renders the collected tokens with the structural highlight rules.
    pub fn render(&mut self) -> (r: String)
        requires
            !old(self)@.rendered,
            old(self).wf(),
        ensures
            r@ == spec_render(old(self)@.prefix, old(self)@.tokens, true),
            final(self)@.rendered == true,
            final(self)@.prefix == old(self)@.prefix,
            final(self)@.tokens.len() == 0,
            final(self)@.chars_count == sat_count_all(old(self)@.tokens, old(self)@.chars_count),
            final(self)@.highlighted_chars_count == sat_count_inverse(
                old(self)@.tokens,
                old(self)@.highlighted_chars_count,
            ),
    {
        self.render_impl(true)
    }

    /// Renders the collected tokens without the structural highlight rules,
    /// as the filename-header path does.
    pub fn render_plain(&mut self) -> (r: String)
        requires
            !old(self)@.rendered,
            old(self).wf(),
        ensures
            r@ == spec_render(old(self)@.prefix, old(self)@.tokens, false),
            final(self)@.rendered == true,
            final(self)@.prefix == old(self)@.prefix,
            final(self)@.tokens.len() == 0,
            final(self)@.chars_count == sat_count_all(old(self)@.tokens, old(self)@.chars_count),
            final(self)@.highlighted_chars_count == sat_count_inverse(
                old(self)@.tokens,
                old(self)@.highlighted_chars_count,
            ),
    {
        self.render_impl(false)
    }

    #[verifier::rlimit(50)]
    fn render_impl(&mut self, structural: bool) -> (r: String)
        requires
            !old(self)@.rendered,
            old(self).wf(),
        ensures
            r@ == spec_render(old(self)@.prefix, old(self)@.tokens, structural),
            final(self)@.rendered == true,
            final(self)@.prefix == old(self)@.prefix,
            final(self)@.tokens.len() == 0,
            final(self)@.chars_count == sat_count_all(old(self)@.tokens, old(self)@.chars_count),
            final(self)@.highlighted_chars_count == sat_count_inverse(
                old(self)@.tokens,
                old(self)@.highlighted_chars_count,
            ),
    {
        broadcast use {lemma_views_index, lemma_views_len};

        let ghost toks = old(self)@.tokens;
        let ghost pfx = old(self)@.prefix;
        let mut rendered = String::new();
        let mut current_row: Vec<StyledToken> = Vec::new();
        let mut i: usize = 0;
        proof {
            assert(views(current_row@) =~= Seq::<TokenV>::empty());
            assert(toks.subrange(0, 0) =~= Seq::<TokenV>::empty());
            assert(toks.subrange(0, toks.len() as int) =~= toks);
            assert(Seq::<char>::empty() + spec_render(pfx, toks, structural) =~= spec_render(
                pfx,
                toks,
                structural,
            ));
        }
        while i < self.tokens.len()
            invariant
                toks == old(self)@.tokens,
                pfx == old(self)@.prefix,
                self@.tokens == toks,
                self@.prefix == pfx,
                self@.rendered == old(self)@.rendered,
                all_nonempty(toks),
                current_row@.len() <= i <= toks.len(),
                views(current_row@) == toks.subrange(i - current_row@.len(), i as int),
                forall|j: int|
                    i - current_row@.len() <= j < i ==> !is_nl_token(#[trigger] toks[j]),
                spec_render(pfx, toks, structural) == rendered@ + spec_render(
                    pfx,
                    toks.subrange(i - current_row@.len(), toks.len() as int),
                    structural,
                ),
                sat_count_all(toks, old(self)@.chars_count) == sat_count_all(
                    toks.subrange(i as int, toks.len() as int),
                    self@.chars_count,
                ),
                sat_count_inverse(toks, old(self)@.highlighted_chars_count) == sat_count_inverse(
                    toks.subrange(i as int, toks.len() as int),
                    self@.highlighted_chars_count,
                ),
            decreases toks.len() - i,
        {
            let ghost rs = i - current_row@.len();
            proof {
                assert(self.tokens@[i as int]@ == toks[i as int]);
                assert(toks.subrange(i as int, toks.len() as int)[0] == toks[i as int]);
                assert(toks.subrange(i as int, toks.len() as int).drop_first() =~= toks.subrange(
                    i + 1,
                    toks.len() as int,
                ));
            }
            let tlen = self.tokens[i].text().unicode_len();
            self.chars_count = self.chars_count.saturating_add(tlen);
            if self.tokens[i].style().is_inverse() {
                self.highlighted_chars_count = self.highlighted_chars_count.saturating_add(tlen);
            }
            if self.tokens[i].is_newline() {
                let ghost rem = toks.subrange(rs, toks.len() as int);
                proof {
                    assert(rem[i - rs] == toks[i as int]);
                    assert forall|j: int| 0 <= j < i - rs implies !is_nl_token(rem[j]) by {
                        assert(rem[j] == toks[rs + j]);
                    }
                    lemma_find_nl_at(rem, i - rs);
                    assert(rem.subrange(0, i - rs) =~= toks.subrange(rs, i as int));
                    assert(rem.subrange(i - rs + 1, rem.len() as int) =~= toks.subrange(
                        i + 1,
                        toks.len() as int,
                    ));
                }
                let rendered_row = render_row(&self.line_prefix, &mut current_row, structural);
                rendered.append(rendered_row.as_str());
                rendered.push('\n');
                current_row = Vec::new();
                proof {
                    assert(views(current_row@) =~= Seq::<TokenV>::empty());
                    assert(views(current_row@) =~= toks.subrange(i + 1, i + 1));
                }
            } else {
                current_row.push(self.tokens[i].duplicate());
                proof {
                    assert(views(current_row@) =~= toks.subrange(rs, i + 1));
                }
            }
            i = i + 1;
        }
        let ghost rs = i - current_row@.len();
        let ghost rem = toks.subrange(rs, toks.len() as int);
        if current_row.len() > 0 {
            proof {
                lemma_find_nl(rem);
                if find_nl(rem) < rem.len() {
                    assert(is_nl_token(rem[find_nl(rem)]));
                    assert(rem[find_nl(rem)] == toks[rs + find_nl(rem)]);
                }
            }
            let rendered_row = render_row(&self.line_prefix, &mut current_row, structural);
            rendered.append(rendered_row.as_str());
        } else {
            proof {
                assert(rem =~= Seq::<TokenV>::empty());
            }
        }
        self.tokens = Vec::new();
        self.rendered = true;
        proof {
            assert(views(self.tokens@) =~= Seq::<TokenV>::empty());
            assert(toks.subrange(toks.len() as int, toks.len() as int)
                =~= Seq::<TokenV>::empty());
        }
        rendered
    }

    /// The total number of characters rendered.
    pub fn chars_count(&self) -> (r: usize)
        requires
            self@.rendered,
        ensures
            r == self@.chars_count,
    {
        self.chars_count
    }

    /// The number of characters rendered in inverse-video styles.
    pub fn highlighted_chars_count(&self) -> (r: usize)
        requires
            self@.rendered,
        ensures
            r == self@.highlighted_chars_count,
    {
        self.highlighted_chars_count
    }
}


/// Law: on an added line, the row's trailing whitespace renders in the error
/// style; on any other line the structural passes never introduce the error
/// style, so identical trailing whitespace on the removed side keeps its own
/// style.
pub proof fn lemma_trailing_whitespace_rule(prefix_style: Style, row: Seq<TokenV>)
    ensures
        prefix_style == Style::New ==> forall|i: int|
            0 <= i < row.len() && all_ws_from(row, i) ==> #[trigger] spec_row_passes(
                prefix_style,
                row,
                true,
            )[i].style == Style::Error,
        prefix_style != Style::New ==> forall|i: int|
            0 <= i < row.len() && #[trigger] spec_row_passes(prefix_style, row, true)[i].style
                == Style::Error ==> row[i].style == Style::Error,
{
    if prefix_style == Style::New {
        let a = spec_hl_trailing_ws(row);
        let b = spec_hl_nonleading_tab(a);
        let c = spec_hl_space_between_words(b);
        assert forall|i: int| 0 <= i < row.len() && all_ws_from(row, i) implies #[trigger] spec_row_passes(
            prefix_style,
            row,
            true,
        )[i].style == Style::Error by {
            assert(a[i].style == Style::Error);
            assert(b[i].style == Style::Error);
            assert(c[i].style == Style::Error);
        }
    } else {
        let c = spec_hl_space_between_words(row);
        assert forall|i: int|
            0 <= i < row.len() && #[trigger] spec_row_passes(prefix_style, row, true)[i].style
                == Style::Error implies row[i].style == Style::Error by {
            if join_promoted(row, i) {
                assert(c[i].style == row[i].style.spec_inverted());
            }
        }
    }
}

/// Law: on an added line, a tab standing after any non-tab token renders in
/// the error style; a leading tab keeps its own style, as long as something
/// after it is not whitespace (a row of nothing but whitespace falls to the
/// trailing-whitespace rule instead).
pub proof fn lemma_nonleading_tab_rule(row: Seq<TokenV>)
    ensures
        forall|i: int|
            0 <= i < row.len() && is_tab_token(row[i]) && (exists|j: int|
                0 <= j < i && !is_tab_token(#[trigger] row[j])) ==> #[trigger] spec_row_passes(
                Style::New,
                row,
                true,
            )[i].style == Style::Error,
        forall|i: int|
            0 <= i < row.len() && row[i].style != Style::Error && (forall|j: int|
                0 <= j <= i && j < row.len() ==> is_tab_token(#[trigger] row[j])) && !all_ws_from(
                row,
                i,
            ) ==> #[trigger] spec_row_passes(Style::New, row, true)[i].style != Style::Error,
{
    let a = spec_hl_trailing_ws(row);
    let b = spec_hl_nonleading_tab(a);
    let c = spec_hl_space_between_words(b);
    assert forall|i: int|
        0 <= i < row.len() && is_tab_token(row[i]) && (exists|j: int|
            0 <= j < i && !is_tab_token(#[trigger] row[j])) implies #[trigger] spec_row_passes(
        Style::New,
        row,
        true,
    )[i].style == Style::Error by {
        let j = choose|j: int| 0 <= j < i && !is_tab_token(#[trigger] row[j]);
        assert(a[i].text == row[i].text);
        assert(a[j].text == row[j].text);
        assert(is_tab_token(a[i]) && !is_tab_token(a[j]));
        assert(b[i].style == Style::Error);
        assert(c[i].style == Style::Error);
    }
    assert forall|i: int|
        0 <= i < row.len() && row[i].style != Style::Error && (forall|j: int|
            0 <= j <= i && j < row.len() ==> is_tab_token(#[trigger] row[j])) && !all_ws_from(
            row,
            i,
        ) implies #[trigger] spec_row_passes(Style::New, row, true)[i].style != Style::Error by {
        assert(a[i] == row[i]);
        assert(b[i] == a[i]) by {
            if is_tab_token(a[i]) && exists|j: int| 0 <= j < i && !is_tab_token(#[trigger] a[j]) {
                let j = choose|j: int| 0 <= j < i && !is_tab_token(#[trigger] a[j]);
                assert(a[j].text == row[j].text);
                assert(is_tab_token(row[j]));
            }
        }
        if join_promoted(b, i) {
            assert(c[i].style == b[i].style.spec_inverted());
        } else {
            assert(c[i] == b[i]);
        }
    }
}

/// Law: an inverse-styled word, one whitespace token, and another
/// inverse-styled word render with the connecting whitespace in an inverse
/// style too, whatever else stands in the row.
pub proof fn lemma_word_join_rule(prefix_style: Style, row: Seq<TokenV>, i: int)
    requires
        0 <= i,
        i + 2 < row.len(),
        row[i].style.spec_is_inverse(),
        is_word_token(row[i]),
        !is_ws_token(row[i]),
        is_ws_token(row[i + 1]),
        row[i + 2].style.spec_is_inverse(),
        is_word_token(row[i + 2]),
    ensures
        spec_row_passes(prefix_style, row, true)[i + 1].style.spec_is_inverse(),
{
    let y = if prefix_style == Style::New {
        spec_hl_nonleading_tab(spec_hl_trailing_ws(row))
    } else {
        row
    };
    assert(y.len() == row.len());
    assert forall|k: int| 0 <= k < row.len() implies #[trigger] y[k].text == row[k].text
        && (row[k].style.spec_is_inverse() ==> y[k].style.spec_is_inverse()) by {
        if prefix_style == Style::New {
            let a = spec_hl_trailing_ws(row);
            assert(a[k].text == row[k].text);
            assert(row[k].style.spec_is_inverse() ==> a[k].style.spec_is_inverse());
            assert(y[k].text == a[k].text);
            assert(a[k].style.spec_is_inverse() ==> y[k].style.spec_is_inverse());
        }
    }
    assert(y[i].style.spec_is_inverse() && is_word_token(y[i]));
    assert(is_ws_token(y[i + 1]));
    assert(y[i + 2].style.spec_is_inverse() && is_word_token(y[i + 2]));
    assert(join_state_at(y, i + 1) == join_step(join_state_at(y, i), y[i]));
    assert(join_state_at(y, i + 1) == JoinState::HighlightedWord);
    assert(join_promoted(y, i + 1));
    assert(spec_hl_space_between_words(y)[i + 1].style == y[i + 1].style.spec_inverted());
}


/// No token text holds the terminal escape character.
pub open spec fn row_no_esc(row: Seq<TokenV>) -> bool {
    forall|i: int| 0 <= i < row.len() ==> no_esc(#[trigger] row[i].text)
}

/// Every escape character of `s` starts an escape of at least four
/// characters whose third character is not the inverse-video `7`.
pub open spec fn esc_contained(s: Seq<char>) -> bool {
    forall|j: int|
        0 <= j < s.len() && (#[trigger] s[j]) == '\u{1b}' ==> j + 4 <= s.len() && s[j + 2] != '7'
}

proof fn lemma_esc_contained_concat(a: Seq<char>, b: Seq<char>)
    requires
        esc_contained(a),
        esc_contained(b),
    ensures
        esc_contained(a + b),
{
    assert forall|j: int|
        0 <= j < (a + b).len() && (#[trigger] (a + b)[j]) == '\u{1b}' implies j + 4 <= (a
        + b).len() && (a + b)[j + 2] != '7' by {
        if j < a.len() {
            assert(a[j] == '\u{1b}');
            assert((a + b)[j + 2] == a[j + 2]);
        } else {
            assert(b[j - a.len()] == '\u{1b}');
            assert((a + b)[j + 2] == b[j + 2 - a.len()]);
        }
    }
}

proof fn lemma_esc_contained_no_inverse(s: Seq<char>)
    requires
        esc_contained(s),
    ensures
        !contains_seq(s, inverse_video()),
{
    reveal_strlit("\x1b[7m");
    assert forall|j: int| !occurs_at(s, inverse_video(), j) by {
        if occurs_at(s, inverse_video(), j) {
            assert(s.subrange(j, j + 4)[0] == s[j]);
            assert(s.subrange(j, j + 4)[2] == s[j + 2]);
        }
    }
}

proof fn lemma_color_esc_contained(style: Style)
    ensures
        esc_contained(style.spec_color()),
{
    reveal_strlit("\x1b[31m");
    reveal_strlit("\x1b[32m");
}

proof fn lemma_emit_plain_esc_contained(row: Seq<TokenV>, color: Seq<char>)
    requires
        forall|i: int| 0 <= i < row.len() ==> !(#[trigger] row[i].style).spec_is_inverse(),
        row_no_esc(row),
    ensures
        esc_contained(spec_emit(row, false, color)),
    decreases row.len(),
{
    if row.len() == 0 {
    } else {
        let t = row[0];
        assert(!t.style.spec_is_inverse());
        let e2: Seq<char> = if t.style.spec_color() != color {
            t.style.spec_color()
        } else {
            Seq::empty()
        };
        lemma_color_esc_contained(t.style);
        assert(esc_contained(e2));
        assert(no_esc(t.text));
        assert(esc_contained(t.text));
        assert forall|i: int|
            0 <= i < row.drop_first().len() implies !(#[trigger] row.drop_first()[i].style).spec_is_inverse()
            && no_esc(row.drop_first()[i].text) by {
            assert(row.drop_first()[i] == row[i + 1]);
        }
        lemma_emit_plain_esc_contained(row.drop_first(), t.style.spec_color());
        let rest = spec_emit(row.drop_first(), t.style.spec_is_inverse(), t.style.spec_color());
        lemma_esc_contained_concat(t.text, rest);
        lemma_esc_contained_concat(e2, t.text + rest);
        assert(esc_contained(Seq::<char>::empty()));
        assert(Seq::<char>::empty() + e2 + t.text + rest =~= e2 + (t.text + rest));
        assert(spec_emit(row, false, color) =~= e2 + (t.text + rest));
    }
}

proof fn lemma_tws_identity(row: Seq<TokenV>)
    requires
        row.len() > 0 ==> !is_ws_token(row.last()),
    ensures
        spec_hl_trailing_ws(row) == row,
{
    assert forall|i: int| 0 <= i < row.len() implies spec_hl_trailing_ws(row)[i] == row[i] by {
        if all_ws_from(row, i) {
            assert(is_ws_token(row[row.len() - 1]));
        }
    }
    assert(spec_hl_trailing_ws(row) =~= row);
}

proof fn lemma_tab_identity(row: Seq<TokenV>)
    requires
        forall|i: int|
            0 <= i < row.len() && is_tab_token(#[trigger] row[i]) ==> (forall|j: int|
                0 <= j < i ==> is_tab_token(#[trigger] row[j])),
    ensures
        spec_hl_nonleading_tab(row) == row,
{
    assert forall|i: int| 0 <= i < row.len() implies spec_hl_nonleading_tab(row)[i] == row[i] by {
        if is_tab_token(row[i]) && exists|j: int| 0 <= j < i && !is_tab_token(#[trigger] row[j]) {
            let j = choose|j: int| 0 <= j < i && !is_tab_token(#[trigger] row[j]);
            assert(is_tab_token(row[j]));
        }
    }
    assert(spec_hl_nonleading_tab(row) =~= row);
}

proof fn lemma_hsbw_identity(row: Seq<TokenV>)
    requires
        forall|i: int| 0 <= i < row.len() ==> !(#[trigger] row[i].style).spec_is_inverse(),
    ensures
        spec_hl_space_between_words(row) == row,
{
    assert forall|i: int| 0 <= i < row.len() implies spec_hl_space_between_words(row)[i] == row[i]
        by {
        if join_promoted(row, i) {
            assert(row[i + 1].style.spec_is_inverse());
        }
    }
    assert(spec_hl_space_between_words(row) =~= row);
}

/// Law, the suppressed side of the threshold at the escape level: a row with
/// no inverse-styled token and no trailing whitespace or non-leading tab, on
/// either side, renders without a single inverse-video escape.
#[verifier::rlimit(100)]
#[verifier::spinoff_prover]
pub proof fn lemma_plain_row_renders_no_inverse(prefix: TokenV, row: Seq<TokenV>)
    requires
        !prefix.style.spec_is_inverse(),
        no_esc(prefix.text),
        row_no_esc(row),
        forall|i: int| 0 <= i < row.len() ==> !(#[trigger] row[i].style).spec_is_inverse(),
        row.len() > 0 ==> !is_ws_token(row.last()),
        forall|i: int|
            0 <= i < row.len() && is_tab_token(#[trigger] row[i]) ==> (forall|j: int|
                0 <= j < i ==> is_tab_token(#[trigger] row[j])),
    ensures
        !contains_seq(spec_render_row(prefix, row, true), inverse_video()),
{
    if row.len() == 0 {
        assert forall|j: int| !occurs_at(Seq::<char>::empty(), inverse_video(), j) by {
            reveal_strlit("\x1b[7m");
        }
        return ;
    }
    // The structural passes leave such a row unchanged.
    lemma_tws_identity(row);
    lemma_tab_identity(row);
    lemma_hsbw_identity(row);
    let proc = spec_row_passes(prefix.style, row, true);
    assert(proc == row);
    lemma_emit_plain_esc_contained(proc, prefix.style.spec_color());
    lemma_color_esc_contained(prefix.style);
    assert(esc_contained(normal())) by {
        reveal_strlit("\x1b[0m");
    }
    assert(esc_contained(prefix.text));
    let emitted = spec_emit(proc, false, prefix.style.spec_color());
    lemma_esc_contained_concat(emitted, normal());
    lemma_esc_contained_concat(prefix.text, emitted + normal());
    lemma_esc_contained_concat(prefix.style.spec_color(), prefix.text + (emitted + normal()));
    assert(spec_render_row(prefix, row, true) =~= prefix.style.spec_color() + (prefix.text + (
    emitted + normal())));
    lemma_esc_contained_no_inverse(spec_render_row(prefix, row, true));
}

proof fn lemma_emit_contains_inverse(row: Seq<TokenV>, color: Seq<char>)
    requires
        exists|i: int| 0 <= i < row.len() && (#[trigger] row[i].style).spec_is_inverse(),
    ensures
        contains_seq(spec_emit(row, false, color), inverse_video()),
    decreases row.len(),
{
    let t = row[0];
    let e2: Seq<char> = if t.style.spec_color() != color {
        t.style.spec_color()
    } else {
        Seq::empty()
    };
    let rest = spec_emit(row.drop_first(), t.style.spec_is_inverse(), t.style.spec_color());
    if t.style.spec_is_inverse() {
        let out = spec_emit(row, false, color);
        assert(out =~= inverse_video() + (e2 + t.text + rest));
        reveal_strlit("\x1b[7m");
        assert(out.subrange(0, 4) =~= inverse_video());
        assert(occurs_at(out, inverse_video(), 0));
    } else {
        let i = choose|i: int| 0 <= i < row.len() && (#[trigger] row[i].style).spec_is_inverse();
        assert(i > 0);
        assert(row.drop_first()[i - 1] == row[i]);
        assert(row.drop_first()[i - 1].style.spec_is_inverse());
        lemma_emit_contains_inverse(row.drop_first(), t.style.spec_color());
        assert(spec_emit(row, false, color) =~= (Seq::<char>::empty() + e2 + t.text) + rest);
        lemma_contains_concat_right(Seq::<char>::empty() + e2 + t.text, rest, inverse_video());
    }
}

proof fn lemma_passes_keep_inverse(prefix_style: Style, row: Seq<TokenV>, i: int)
    requires
        0 <= i < row.len(),
        row[i].style.spec_is_inverse(),
    ensures
        spec_row_passes(prefix_style, row, true)[i].style.spec_is_inverse(),
{
    let a = spec_hl_trailing_ws(row);
    let b = spec_hl_nonleading_tab(a);
    assert(a[i].style.spec_is_inverse());
    assert(b[i].style.spec_is_inverse());
    if prefix_style == Style::New {
        assert(spec_hl_space_between_words(b)[i].style.spec_is_inverse());
    } else {
        assert(spec_hl_space_between_words(row)[i].style.spec_is_inverse());
    }
}

/// Law, the kept side of the threshold at the escape level: a row holding at
/// least one inverse-styled token, behind a non-inverse line prefix, renders
/// with an inverse-video escape in it.
pub proof fn lemma_inverse_token_renders_inverse(prefix: TokenV, row: Seq<TokenV>, i: int)
    requires
        !prefix.style.spec_is_inverse(),
        0 <= i < row.len(),
        row[i].style.spec_is_inverse(),
    ensures
        contains_seq(spec_render_row(prefix, row, true), inverse_video()),
{
    let proc = spec_row_passes(prefix.style, row, true);
    lemma_passes_keep_inverse(prefix.style, row, i);
    assert(proc[i].style.spec_is_inverse());
    lemma_emit_contains_inverse(proc, prefix.style.spec_color());
    let emitted = spec_emit(proc, false, prefix.style.spec_color());
    lemma_contains_concat_right(
        Seq::<char>::empty() + prefix.style.spec_color() + prefix.text,
        emitted,
        inverse_video(),
    );
    let k = choose|k: int|
        occurs_at(
            Seq::<char>::empty() + prefix.style.spec_color() + prefix.text + emitted,
            inverse_video(),
            k,
        );
    assert(spec_render_row(prefix, row, true).subrange(k, k + 4) =~= (Seq::<char>::empty()
        + prefix.style.spec_color() + prefix.text + emitted).subrange(k, k + 4)) by {
        reveal_strlit("\x1b[7m");
        assert(inverse_video().len() == 4);
        assert(spec_render_row(prefix, row, true) =~= Seq::<char>::empty()
            + prefix.style.spec_color() + prefix.text + emitted + normal());
    }
    assert(occurs_at(spec_render_row(prefix, row, true), inverse_video(), k)) by {
        reveal_strlit("\x1b[7m");
    }
}

} // verus!
