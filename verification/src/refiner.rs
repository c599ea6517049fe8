//! Word-level refinement of one old/new text pair.
//!
//! Both sides are tokenized and aligned by a token-level edit script.  Tokens
//! shared by both sides keep the side's base color; inserted and removed runs
//! are highlighted in inverse video, unless the run touches at least two line
//! boundaries, in which case highlighting is suppressed on both sides and the
//! run renders as a flat colored block.

use vstd::prelude::*;
use vstd::string::StringExecFns;

use crate::script::{op_token, token_diff, valid_script, EditOp};
use crate::text::{contains_seq, no_esc, occurs_at, spec_find, spec_lines, split_lines, strip_cr};
use crate::token_collector::{
    all_nonempty, is_nl_token, lemma_views_index, lemma_views_len, recolor, spec_render, views,
    Style, StyledToken, TokenCollector, TokenV,
};
use crate::tokenizer::{lemma_tokenize_nonempty, spec_tokenize, tokenize};
use crate::constants::{
    inverse_video, new_color, new_color_str, newline_glyph, newline_glyph_str,
    no_eof_newline_color, no_eof_newline_color_str, no_eof_newline_marker,
    no_eof_newline_marker_str, normal, normal_str, old_color, old_color_str,
};

verus! {

/// A queue drained with its highlighting kept.  A highlighted newline becomes
/// a visible glyph followed by the newline itself without the highlight, so
/// that a highlighted line ending is not invisible.
pub open spec fn drain_keep(q: Seq<TokenV>) -> Seq<TokenV>
    decreases q.len(),
{
    if q.len() == 0 {
        Seq::empty()
    } else {
        let t = q[0];
        (if is_nl_token(t) {
            seq![
                TokenV { text: newline_glyph(), style: t.style },
                TokenV { text: t.text, style: t.style.spec_uninverted() },
            ]
        } else {
            seq![t]
        }) + drain_keep(q.drop_first())
    }
}

/// A queue drained with its highlighting suppressed: every token falls back
/// to its base style.
pub open spec fn drain_suppress(q: Seq<TokenV>) -> Seq<TokenV>
    decreases q.len(),
{
    if q.len() == 0 {
        Seq::empty()
    } else {
        seq![recolor(q[0], q[0].style.spec_uninverted())] + drain_suppress(q.drop_first())
    }
}

/// One drained queue.
pub open spec fn drain_one(q: Seq<TokenV>, suppress: bool) -> Seq<TokenV> {
    if suppress {
        drain_suppress(q)
    } else {
        drain_keep(q)
    }
}

/// The number of newline tokens in a queue.
pub open spec fn nl_token_count(q: Seq<TokenV>) -> int
    decreases q.len(),
{
    if q.len() == 0 {
        0
    } else {
        (if is_nl_token(q[0]) {
            1int
        } else {
            0
        }) + nl_token_count(q.drop_first())
    }
}

/// The newline tokens strictly inside a run: a trailing newline merely ends
/// the run and is no internal line break.
pub open spec fn internal_newlines(q: Seq<TokenV>) -> int {
    if q.len() == 0 {
        0
    } else {
        nl_token_count(q.subrange(0, q.len() - 1))
    }
}

/// How many line boundaries a pending run touches: the boundary before it,
/// the boundary after it, and its internal newlines.
pub open spec fn touched_newlines(q: Seq<TokenV>, nl_before: bool, nl_after: bool) -> int {
    (if nl_before {
        1int
    } else {
        0
    }) + (if nl_after {
        1int
    } else {
        0
    }) + internal_newlines(q)
}

/// Word-level highlighting is suppressed when either side's pending run
/// touches at least two line boundaries: such a run spans more than one line
/// and reads better as a flat colored block.
pub open spec fn should_suppress(
    oldq: Seq<TokenV>,
    newq: Seq<TokenV>,
    nl_before: bool,
    nl_after: bool,
) -> bool {
    touched_newlines(oldq, nl_before, nl_after) >= 2 || touched_newlines(
        newq,
        nl_before,
        nl_after,
    ) >= 2
}

/// The two sides' styled token streams for one edit script.  Copied tokens go
/// to both sides at their base color; inserted and removed runs queue up and
/// drain at the next copied token and at the end of the script, keeping or
/// suppressing their highlight by [`should_suppress`].  The start and the end
/// of the text count as line boundaries.
pub open spec fn spec_refine(
    ops: Seq<EditOp>,
    nl_before: bool,
    oldq: Seq<TokenV>,
    newq: Seq<TokenV>,
) -> (Seq<TokenV>, Seq<TokenV>)
    decreases ops.len(),
{
    if ops.len() == 0 {
        let sup = should_suppress(oldq, newq, nl_before, true);
        (drain_one(oldq, sup), drain_one(newq, sup))
    } else {
        match ops[0] {
            EditOp::Copy(t) => {
                let nla = t@.len() > 0 && t@[0] == '\n';
                let sup = should_suppress(oldq, newq, nl_before, nla);
                let nlb2 = t@.len() > 0 && t@.last() == '\n';
                let rest = spec_refine(
                    ops.drop_first(),
                    nlb2,
                    Seq::<TokenV>::empty(),
                    Seq::<TokenV>::empty(),
                );
                (
                    drain_one(oldq, sup) + seq![TokenV { text: t@, style: Style::Old }] + rest.0,
                    drain_one(newq, sup) + seq![TokenV { text: t@, style: Style::New }] + rest.1,
                )
            },
            EditOp::Insert(t) => spec_refine(
                ops.drop_first(),
                nl_before,
                oldq,
                newq.push(TokenV { text: t@, style: Style::NewInverse }),
            ),
            EditOp::Remove(t) => spec_refine(
                ops.drop_first(),
                nl_before,
                oldq.push(TokenV { text: t@, style: Style::OldInverse }),
                newq,
            ),
        }
    }
}

/// Counts a queue's internal newlines.
fn count_internal_newlines(q: &Vec<StyledToken>) -> (r: usize)
    ensures
        r == internal_newlines(views(q@)),
{
    broadcast use {lemma_views_index, lemma_views_len};

    if q.len() == 0 {
        return 0;
    }
    let ghost target = views(q@).subrange(0, q@.len() - 1);
    let mut count: usize = 0;
    let mut i: usize = 0;
    proof {
        assert(target.subrange(0, target.len() as int) =~= target);
    }
    while i < q.len() - 1
        invariant
            q@.len() >= 1,
            i <= q@.len() - 1,
            target == views(q@).subrange(0, q@.len() - 1),
            count <= i,
            count + nl_token_count(target.subrange(i as int, target.len() as int))
                == nl_token_count(target),
        decreases q@.len() - 1 - i,
    {
        proof {
            assert(target.subrange(i as int, target.len() as int)[0] == target[i as int]);
            assert(target[i as int] == q@[i as int]@);
            assert(target.subrange(i as int, target.len() as int).drop_first() =~= target.subrange(
                i + 1,
                target.len() as int,
            ));
        }
        if q[i].is_newline() {
            count = count + 1;
        }
        i = i + 1;
    }
    proof {
        assert(target.subrange(target.len() as int, target.len() as int) =~= Seq::<
            TokenV,
        >::empty());
    }
    count
}

/// Empties `q` into `out`, keeping or suppressing its highlighting.
fn drain_queue(q: &mut Vec<StyledToken>, suppress: bool, out: &mut Vec<StyledToken>)
    requires
        all_nonempty(views(old(q)@)),
    ensures
        final(q)@.len() == 0,
        views(final(out)@) == views(old(out)@) + drain_one(views(old(q)@), suppress),
        all_nonempty(views(old(out)@)) ==> all_nonempty(views(final(out)@)),
{
    broadcast use {lemma_views_index, lemma_views_len};

    let ghost qv = views(old(q)@);
    let ghost base = views(old(out)@);
    let mut i: usize = 0;
    proof {
        reveal_strlit("\u{23ce}");
        assert(qv.subrange(0, qv.len() as int) =~= qv);
    }
    while i < q.len()
        invariant
            qv == views(q@),
            base == views(old(out)@),
            i <= qv.len(),
            all_nonempty(qv),
            newline_glyph().len() == 1,
            base + drain_one(qv, suppress) == views(out@) + drain_one(
                qv.subrange(i as int, qv.len() as int),
                suppress,
            ),
            all_nonempty(base) ==> all_nonempty(views(out@)),
        decreases qv.len() - i,
    {
        proof {
            assert(q@[i as int]@ == qv[i as int]);
            assert(qv[i as int].text.len() > 0);
            assert(qv.subrange(i as int, qv.len() as int)[0] == qv[i as int]);
            assert(qv.subrange(i as int, qv.len() as int).drop_first() =~= qv.subrange(
                i + 1,
                qv.len() as int,
            ));
        }
        let ghost pre = views(out@);
        if suppress {
            let t = StyledToken::new(String::from_str(q[i].text()), q[i].style().uninverted());
            out.push(t);
            proof {
                assert(views(out@) =~= pre + seq![
                    recolor(qv[i as int], qv[i as int].style.spec_uninverted()),
                ]);
            }
        } else {
            if q[i].is_newline() {
                let glyph = StyledToken::new(String::from_str(newline_glyph_str()), q[i].style());
                out.push(glyph);
                let nl = StyledToken::new(String::from_str(q[i].text()), q[i].style().uninverted());
                out.push(nl);
                proof {
                    assert(views(out@) =~= pre + seq![
                        TokenV { text: newline_glyph(), style: qv[i as int].style },
                        TokenV {
                            text: qv[i as int].text,
                            style: qv[i as int].style.spec_uninverted(),
                        },
                    ]);
                }
            } else {
                out.push(q[i].duplicate());
                proof {
                    assert(views(out@) =~= pre + seq![qv[i as int]]);
                }
            }
        }
        proof {
            assert forall|j: int|
                0 <= j < views(out@).len() && all_nonempty(base) implies #[trigger] views(
                out@,
            )[j].text.len() > 0 by {
                if j < pre.len() {
                    assert(pre[j].text.len() > 0);
                }
            }
        }
        i = i + 1;
    }
    proof {
        assert(qv.subrange(qv.len() as int, qv.len() as int) =~= Seq::<TokenV>::empty());
    }
    q.clear();
}

/// Empties both pending runs into their sides, suppressing the highlight on
/// both sides when either run touches at least two line boundaries.
fn drain_inverse_queues(
    newline_before: bool,
    old_queue: &mut Vec<StyledToken>,
    new_queue: &mut Vec<StyledToken>,
    newline_after: bool,
    old_out: &mut Vec<StyledToken>,
    new_out: &mut Vec<StyledToken>,
)
    requires
        all_nonempty(views(old(old_queue)@)),
        all_nonempty(views(old(new_queue)@)),
    ensures
        final(old_queue)@.len() == 0,
        final(new_queue)@.len() == 0,
        views(final(old_out)@) == views(old(old_out)@) + drain_one(
            views(old(old_queue)@),
            should_suppress(
                views(old(old_queue)@),
                views(old(new_queue)@),
                newline_before,
                newline_after,
            ),
        ),
        views(final(new_out)@) == views(old(new_out)@) + drain_one(
            views(old(new_queue)@),
            should_suppress(
                views(old(old_queue)@),
                views(old(new_queue)@),
                newline_before,
                newline_after,
            ),
        ),
        all_nonempty(views(old(old_out)@)) ==> all_nonempty(views(final(old_out)@)),
        all_nonempty(views(old(new_out)@)) ==> all_nonempty(views(final(new_out)@)),
{
    let old_nl = count_internal_newlines(old_queue);
    let new_nl = count_internal_newlines(new_queue);
    let mut touched_old: usize = old_nl;
    let mut touched_new: usize = new_nl;
    if newline_before {
        touched_old = touched_old.saturating_add(1);
        touched_new = touched_new.saturating_add(1);
    }
    if newline_after {
        touched_old = touched_old.saturating_add(1);
        touched_new = touched_new.saturating_add(1);
    }
    let suppress = touched_old >= 2 || touched_new >= 2;
    proof {
        assert(suppress == should_suppress(
            views(old_queue@),
            views(new_queue@),
            newline_before,
            newline_after,
        ));
    }
    drain_queue(old_queue, suppress, old_out);
    drain_queue(new_queue, suppress, new_out);
}

/// Tokenizes both sides, aligns them by an edit script, and builds the two
/// highlighted token streams that [`spec_refine`] describes for that script.
#[verifier::rlimit(60)]
pub fn to_highlighted_tokens(old_text: &str, new_text: &str) -> (r: (
    Vec<StyledToken>,
    Vec<StyledToken>,
))
    ensures
        exists|ops: Seq<EditOp>|
            {
                &&& #[trigger] valid_script(ops, spec_tokenize(old_text@), spec_tokenize(new_text@))
                &&& views(r.0@) == spec_refine(
                    ops,
                    true,
                    Seq::<TokenV>::empty(),
                    Seq::<TokenV>::empty(),
                ).0
                &&& views(r.1@) == spec_refine(
                    ops,
                    true,
                    Seq::<TokenV>::empty(),
                    Seq::<TokenV>::empty(),
                ).1
            },
        all_nonempty(views(r.0@)),
        all_nonempty(views(r.1@)),
{
    broadcast use {lemma_views_index, lemma_views_len};

    let old_tokens = tokenize(old_text);
    let new_tokens = tokenize(new_text);
    let old_refs = crate::script::str_refs(&old_tokens);
    let new_refs = crate::script::str_refs(&new_tokens);
    let diffed = token_diff(&old_refs, &new_refs);
    let ops = match diffed {
        Some(ops) => ops,
        None => Vec::new(),
    };
    proof {
        lemma_tokenize_nonempty(old_text@);
        lemma_tokenize_nonempty(new_text@);
        crate::script::lemma_ops_tokens_nonempty(
            ops@,
            old_refs.deep_view(),
            new_refs.deep_view(),
        );
    }
    let mut old_out: Vec<StyledToken> = Vec::new();
    let mut new_out: Vec<StyledToken> = Vec::new();
    let mut old_queue: Vec<StyledToken> = Vec::new();
    let mut new_queue: Vec<StyledToken> = Vec::new();
    let mut newline_before = true;
    let ghost target = spec_refine(ops@, true, Seq::<TokenV>::empty(), Seq::<TokenV>::empty());
    let mut i: usize = 0;
    proof {
        assert(views(old_out@) =~= Seq::<TokenV>::empty());
        assert(views(new_out@) =~= Seq::<TokenV>::empty());
        assert(views(old_queue@) =~= Seq::<TokenV>::empty());
        assert(views(new_queue@) =~= Seq::<TokenV>::empty());
        assert(ops@.subrange(0, ops@.len() as int) =~= ops@);
        assert(Seq::<TokenV>::empty() + target.0 =~= target.0);
        assert(Seq::<TokenV>::empty() + target.1 =~= target.1);
    }
    while i < ops.len()
        invariant
            i <= ops@.len(),
            target == spec_refine(ops@, true, Seq::<TokenV>::empty(), Seq::<TokenV>::empty()),
            forall|j: int| 0 <= j < ops@.len() ==> #[trigger] op_token(ops@[j]).len() > 0,
            all_nonempty(views(old_queue@)),
            all_nonempty(views(new_queue@)),
            all_nonempty(views(old_out@)),
            all_nonempty(views(new_out@)),
            target.0 == views(old_out@) + spec_refine(
                ops@.subrange(i as int, ops@.len() as int),
                newline_before,
                views(old_queue@),
                views(new_queue@),
            ).0,
            target.1 == views(new_out@) + spec_refine(
                ops@.subrange(i as int, ops@.len() as int),
                newline_before,
                views(old_queue@),
                views(new_queue@),
            ).1,
        decreases ops@.len() - i,
    {
        let ghost rem = ops@.subrange(i as int, ops@.len() as int);
        proof {
            assert(rem[0] == ops@[i as int]);
            assert(rem.drop_first() =~= ops@.subrange(i + 1, ops@.len() as int));
            assert(op_token(ops@[i as int]).len() > 0);
        }
        let op = &ops[i];
        match op {
            EditOp::Copy(t) => {
                let ghost oqv = views(old_queue@);
                let ghost nqv = views(new_queue@);
                let ghost out0 = views(old_out@);
                let ghost out1 = views(new_out@);
                let ghost nlb0 = newline_before;
                let tlen = t.as_str().unicode_len();
                let nla = tlen > 0 && t.as_str().get_char(0) == '\n';
                drain_inverse_queues(
                    newline_before,
                    &mut old_queue,
                    &mut new_queue,
                    nla,
                    &mut old_out,
                    &mut new_out,
                );
                let ghost sup = should_suppress(oqv, nqv, nlb0, nla);
                let ghost mid0 = views(old_out@);
                let ghost mid1 = views(new_out@);
                old_out.push(StyledToken::new(t.clone(), Style::Old));
                new_out.push(StyledToken::new(t.clone(), Style::New));
                newline_before = tlen > 0 && t.as_str().get_char(tlen - 1) == '\n';
                proof {
                    assert(views(old_out@) =~= mid0.push(TokenV { text: t@, style: Style::Old }));
                    assert(views(new_out@) =~= mid1.push(TokenV { text: t@, style: Style::New }));
                    assert forall|j: int|
                        0 <= j < views(old_out@).len() implies #[trigger] views(
                        old_out@,
                    )[j].text.len() > 0 by {
                        if j < mid0.len() {
                            assert(mid0[j].text.len() > 0);
                        } else {
                            assert(op_token(ops@[i as int]).len() > 0);
                        }
                    }
                    assert forall|j: int|
                        0 <= j < views(new_out@).len() implies #[trigger] views(
                        new_out@,
                    )[j].text.len() > 0 by {
                        if j < mid1.len() {
                            assert(mid1[j].text.len() > 0);
                        } else {
                            assert(op_token(ops@[i as int]).len() > 0);
                        }
                    }
                    assert(views(old_out@) =~= out0 + drain_one(oqv, sup) + seq![
                        TokenV { text: t@, style: Style::Old },
                    ]);
                    assert(views(new_out@) =~= out1 + drain_one(nqv, sup) + seq![
                        TokenV { text: t@, style: Style::New },
                    ]);
                    assert(views(old_queue@) =~= Seq::<TokenV>::empty());
                    assert(views(new_queue@) =~= Seq::<TokenV>::empty());
                    let rest = spec_refine(
                        rem.drop_first(),
                        newline_before,
                        Seq::<TokenV>::empty(),
                        Seq::<TokenV>::empty(),
                    );
                    assert(spec_refine(rem, nlb0, oqv, nqv).0 == drain_one(oqv, sup) + seq![
                        TokenV { text: t@, style: Style::Old },
                    ] + rest.0);
                    assert(target.0 =~= views(old_out@) + rest.0);
                    assert(target.1 =~= views(new_out@) + rest.1);
                }
            },
            EditOp::Insert(t) => {
                let ghost nqv = views(new_queue@);
                new_queue.push(StyledToken::new(t.clone(), Style::NewInverse));
                proof {
                    assert(views(new_queue@) =~= nqv.push(
                        TokenV { text: t@, style: Style::NewInverse },
                    ));
                    assert forall|j: int|
                        0 <= j < views(new_queue@).len() implies #[trigger] views(
                        new_queue@,
                    )[j].text.len() > 0 by {
                        if j < nqv.len() {
                            assert(nqv[j].text.len() > 0);
                        }
                    }
                }
            },
            EditOp::Remove(t) => {
                let ghost oqv = views(old_queue@);
                old_queue.push(StyledToken::new(t.clone(), Style::OldInverse));
                proof {
                    assert(views(old_queue@) =~= oqv.push(
                        TokenV { text: t@, style: Style::OldInverse },
                    ));
                    assert forall|j: int|
                        0 <= j < views(old_queue@).len() implies #[trigger] views(
                        old_queue@,
                    )[j].text.len() > 0 by {
                        if j < oqv.len() {
                            assert(oqv[j].text.len() > 0);
                        }
                    }
                }
            },
        }
        i = i + 1;
    }
    let ghost oqv = views(old_queue@);
    let ghost nqv = views(new_queue@);
    let ghost out0 = views(old_out@);
    let ghost out1 = views(new_out@);
    drain_inverse_queues(
        newline_before,
        &mut old_queue,
        &mut new_queue,
        true,
        &mut old_out,
        &mut new_out,
    );
    proof {
        assert(ops@.subrange(ops@.len() as int, ops@.len() as int) =~= Seq::<EditOp>::empty());
        let sup = should_suppress(oqv, nqv, newline_before, true);
        assert(target.0 =~= out0 + drain_one(oqv, sup));
        assert(target.1 =~= out1 + drain_one(nqv, sup));
        assert(valid_script(ops@, spec_tokenize(old_text@), spec_tokenize(new_text@)));
        assert(views(old_out@) == target.0);
        assert(views(new_out@) == target.1);
    }
    (old_out, new_out)
}


/// The "no newline at end of file" text in use: the marker captured from the
/// input, or the built-in default.
pub open spec fn marker_or(marker: Option<Seq<char>>) -> Seq<char> {
    match marker {
        Option::Some(m) => m,
        Option::None => no_eof_newline_marker(),
    }
}

/// [`marker_or`] over an executable optional marker.
pub open spec fn marker_view(marker: &Option<String>) -> Seq<char> {
    marker_or(
        match marker {
            Option::Some(m) => Option::Some(m@),
            Option::None => Option::None,
        },
    )
}

/// The dim synthesized line standing in for a missing final newline.
pub open spec fn spec_no_eof_line(marker: Seq<char>) -> Seq<char> {
    no_eof_newline_color() + marker + normal()
}

/// One plainly colored line: color, prefix character, content, reset.
pub open spec fn spec_simple_line(color: Seq<char>, prefix: char, content: Seq<char>) -> Seq<char> {
    color + seq![prefix] + content + normal()
}

/// One side formatted without word-level refinement: each line flatly
/// colored, and the synthesized marker line appended when the text does not
/// end in a newline.
pub open spec fn spec_simple_side(
    text: Seq<char>,
    color: Seq<char>,
    prefix: char,
    marker: Seq<char>,
) -> Seq<Seq<char>> {
    let lines = spec_lines(text).map_values(|l: Seq<char>| spec_simple_line(color, prefix, l));
    if text.len() > 0 && text.last() != '\n' {
        lines.push(spec_no_eof_line(marker))
    } else {
        lines
    }
}

/// Both sides formatted without refinement, old lines first.
pub open spec fn spec_simple_merged(
    old_text: Seq<char>,
    new_text: Seq<char>,
    marker: Seq<char>,
) -> Seq<Seq<char>> {
    spec_simple_side(old_text, old_color(), '-', marker) + spec_simple_side(
        new_text,
        new_color(),
        '+',
        marker,
    )
}

/// Rendered text cut into lines, with the synthesized marker line appended
/// when the rendered text does not end in a newline.
pub open spec fn spec_side_lines(s: Seq<char>, marker: Seq<char>) -> Seq<Seq<char>> {
    if s.len() > 0 && s.last() != '\n' {
        spec_lines(s).push(spec_no_eof_line(marker))
    } else {
        spec_lines(s)
    }
}

/// The line prefix of the old side.
pub open spec fn minus_prefix() -> TokenV {
    TokenV { text: seq!['-'], style: Style::Old }
}

/// The line prefix of the new side.
pub open spec fn plus_prefix() -> TokenV {
    TokenV { text: seq!['+'], style: Style::New }
}

/// The refined, rendered and line-split output of both sides for one edit
/// script.
pub open spec fn spec_refined_sides(ops: Seq<EditOp>, marker: Seq<char>) -> (
    Seq<Seq<char>>,
    Seq<Seq<char>>,
) {
    let toks = spec_refine(ops, true, Seq::<TokenV>::empty(), Seq::<TokenV>::empty());
    (
        spec_side_lines(spec_render(minus_prefix(), toks.0, true), marker),
        spec_side_lines(spec_render(plus_prefix(), toks.1, true), marker),
    )
}

/// Builds one plainly colored line.
fn format_simple_line(color: &str, plus_minus: char, contents: &str) -> (r: String)
    ensures
        r@ == spec_simple_line(color@, plus_minus, contents@),
{
    let mut line = String::new();
    line.append(color);
    line.push(plus_minus);
    line.append(contents);
    line.append(normal_str());
    proof {
        assert(line@ =~= spec_simple_line(color@, plus_minus, contents@));
    }
    line
}

/// Builds the dim synthesized "no newline at end of file" line.
fn format_no_eof_line(marker: &str) -> (r: String)
    ensures
        r@ == spec_no_eof_line(marker@),
{
    let mut line = String::new();
    line.append(no_eof_newline_color_str());
    line.append(marker);
    line.append(normal_str());
    proof {
        assert(line@ =~= spec_no_eof_line(marker@));
    }
    line
}

/// Formats one side without refinement.
fn simple_format_side(text: &str, color: &str, plus_minus: char, marker: &str) -> (r: Vec<String>)
    ensures
        r.deep_view() == spec_simple_side(text@, color@, plus_minus, marker@),
{
    let lines = split_lines(text);
    let mut out: Vec<String> = Vec::new();
    let mut i: usize = 0;
    while i < lines.len()
        invariant
            i <= lines@.len(),
            lines.deep_view() == spec_lines(text@),
            lines.deep_view().len() == lines@.len(),
            out.deep_view().len() == i,
            forall|j: int|
                0 <= j < i ==> out.deep_view()[j] == spec_simple_line(
                    color@,
                    plus_minus,
                    spec_lines(text@)[j],
                ),
        decreases lines@.len() - i,
    {
        let ghost pre = out.deep_view();
        let line = format_simple_line(color, plus_minus, lines[i].as_str());
        proof {
            assert(lines@[i as int]@ == lines.deep_view()[i as int]);
        }
        out.push(line);
        proof {
            assert(out.deep_view() =~= pre.push(line@));
        }
        i = i + 1;
    }
    let n = text.unicode_len();
    if n > 0 && text.get_char(n - 1) != '\n' {
        let ghost pre = out.deep_view();
        let marker_line = format_no_eof_line(marker);
        out.push(marker_line);
        proof {
            assert(out.deep_view() =~= pre.push(marker_line@));
            assert(pre =~= spec_lines(text@).map_values(
                |l: Seq<char>| spec_simple_line(color@, plus_minus, l),
            ));
        }
    } else {
        proof {
            assert(out.deep_view() =~= spec_lines(text@).map_values(
                |l: Seq<char>| spec_simple_line(color@, plus_minus, l),
            ));
        }
    }
    out
}

/// Formats old and new text with flat colors and no intra-line refinement,
/// using the given "no newline at end of file" marker.
pub fn simple_format_with_marker(old_text: &str, new_text: &str, marker: &Option<String>) -> (r: (
    Vec<String>,
    Vec<String>,
))
    ensures
        r.0.deep_view() == spec_simple_side(old_text@, old_color(), '-', marker_view(marker)),
        r.1.deep_view() == spec_simple_side(new_text@, new_color(), '+', marker_view(marker)),
{
    let marker_str = match marker {
        Some(m) => m.as_str(),
        None => no_eof_newline_marker_str(),
    };
    let old_lines = simple_format_side(old_text, old_color_str(), '-', marker_str);
    let new_lines = simple_format_side(new_text, new_color_str(), '+', marker_str);
    (old_lines, new_lines)
}

/// Formats old and new text with flat colors and no intra-line refinement.
/// Returns one old and one new line array.
pub fn simple_format(old_text: &str, new_text: &str) -> (r: (Vec<String>, Vec<String>))
    ensures
        r.0.deep_view() == spec_simple_side(
            old_text@,
            old_color(),
            '-',
            no_eof_newline_marker(),
        ),
        r.1.deep_view() == spec_simple_side(
            new_text@,
            new_color(),
            '+',
            no_eof_newline_marker(),
        ),
{
    simple_format_with_marker(old_text, new_text, &None)
}

/// Cuts one side's rendered text into lines, appending the synthesized
/// marker line when the text does not end in a newline.
fn side_lines(rendered: &str, marker: &str) -> (r: Vec<String>)
    ensures
        r.deep_view() == spec_side_lines(rendered@, marker@),
{
    let mut out = split_lines(rendered);
    let n = rendered.unicode_len();
    if n > 0 && rendered.get_char(n - 1) != '\n' {
        let ghost pre = out.deep_view();
        let marker_line = format_no_eof_line(marker);
        out.push(marker_line);
        proof {
            assert(out.deep_view() =~= pre.push(marker_line@));
        }
    }
    out
}

/// Cuts both sides' rendered text into lines, appending the synthesized
/// marker line to each side whose text does not end in a newline.
fn to_lines(old_rendered: &str, new_rendered: &str, marker: &Option<String>) -> (r: (
    Vec<String>,
    Vec<String>,
))
    ensures
        r.0.deep_view() == spec_side_lines(old_rendered@, marker_view(marker)),
        r.1.deep_view() == spec_side_lines(new_rendered@, marker_view(marker)),
{
    let marker_str = match marker {
        Some(m) => m.as_str(),
        None => no_eof_newline_marker_str(),
    };
    (side_lines(old_rendered, marker_str), side_lines(new_rendered, marker_str))
}

/// Appends `b`'s lines after `a`'s.
pub fn concat(a: Vec<String>, b: Vec<String>) -> (r: Vec<String>)
    ensures
        r.deep_view() == a.deep_view() + b.deep_view(),
{
    let ghost av = a.deep_view();
    let ghost bv = b.deep_view();
    let mut merged = a;
    let mut rest = b;
    merged.append(&mut rest);
    proof {
        assert(merged.deep_view() =~= av + bv);
    }
    merged
}

/// Fills a fresh collector with a line prefix and a token stream and renders
/// it, with or without the structural highlight rules.
pub(crate) fn render_tokens(
    prefix_text: &str,
    prefix_style: Style,
    tokens: Vec<StyledToken>,
    structural: bool,
) -> (r: String)
    requires
        all_nonempty(views(tokens@)),
    ensures
        r@ == spec_render(
            TokenV { text: prefix_text@, style: prefix_style },
            views(tokens@),
            structural,
        ),
{
    broadcast use {lemma_views_index, lemma_views_len};

    let mut collector = TokenCollector::create(
        StyledToken::new(String::from_str(prefix_text), prefix_style),
    );
    let mut i: usize = 0;
    proof {
        assert(collector@.tokens =~= views(tokens@).subrange(0, 0));
    }
    while i < tokens.len()
        invariant
            i <= tokens@.len(),
            all_nonempty(views(tokens@)),
            collector@.prefix == (TokenV { text: prefix_text@, style: prefix_style }),
            collector@.tokens == views(tokens@).subrange(0, i as int),
            collector@.rendered == false,
            collector.wf(),
        decreases tokens@.len() - i,
    {
        proof {
            assert(tokens@[i as int]@ == views(tokens@)[i as int]);
            assert(views(tokens@)[i as int].text.len() > 0);
        }
        collector.push(tokens[i].duplicate());
        proof {
            assert(views(tokens@).subrange(0, i as int).push(views(tokens@)[i as int])
                =~= views(tokens@).subrange(0, i + 1));
        }
        i = i + 1;
    }
    proof {
        assert(views(tokens@).subrange(0, tokens@.len() as int) =~= views(tokens@));
    }
    if structural {
        collector.render()
    } else {
        collector.render_plain()
    }
}

/// Formats an old/new pair with word-level refinement.  When either side is
/// empty there is nothing to pair up, and the result is the simple
/// formatting.
fn format_split(old_text: &str, new_text: &str, marker: &Option<String>) -> (r: Option<(
    Vec<String>,
    Vec<String>,
)>)
    ensures
        r is Some,
        r matches Some(sides) ==> {
            if old_text@.len() == 0 || new_text@.len() == 0 {
                &&& sides.0.deep_view() == spec_simple_side(
                    old_text@,
                    old_color(),
                    '-',
                    marker_view(marker),
                )
                &&& sides.1.deep_view() == spec_simple_side(
                    new_text@,
                    new_color(),
                    '+',
                    marker_view(marker),
                )
            } else {
                exists|ops: Seq<EditOp>|
                    {
                        &&& #[trigger] valid_script(
                            ops,
                            spec_tokenize(old_text@),
                            spec_tokenize(new_text@),
                        )
                        &&& sides.0.deep_view() == spec_refined_sides(ops, marker_view(marker)).0
                        &&& sides.1.deep_view() == spec_refined_sides(ops, marker_view(marker)).1
                    }
            }
        },
{
    if old_text.is_empty() || new_text.is_empty() {
        return Some(simple_format_with_marker(old_text, new_text, marker));
    }
    let (old_tokens, new_tokens) = to_highlighted_tokens(old_text, new_text);
    let ghost ops = choose|ops: Seq<EditOp>|
        {
            &&& #[trigger] valid_script(ops, spec_tokenize(old_text@), spec_tokenize(new_text@))
            &&& views(old_tokens@) == spec_refine(
                ops,
                true,
                Seq::<TokenV>::empty(),
                Seq::<TokenV>::empty(),
            ).0
            &&& views(new_tokens@) == spec_refine(
                ops,
                true,
                Seq::<TokenV>::empty(),
                Seq::<TokenV>::empty(),
            ).1
        };
    let highlighted_old = render_tokens("-", Style::Old, old_tokens, true);
    let highlighted_new = render_tokens("+", Style::New, new_tokens, true);
    proof {
        reveal_strlit("-");
        reveal_strlit("+");
        assert("-"@ =~= seq!['-']);
        assert("+"@ =~= seq!['+']);
        assert((TokenV { text: "-"@, style: Style::Old }) == minus_prefix());
        assert((TokenV { text: "+"@, style: Style::New }) == plus_prefix());
    }
    let sides = to_lines(highlighted_old.as_str(), highlighted_new.as_str(), marker);
    proof {
        assert(sides.0.deep_view() == spec_refined_sides(ops, marker_view(marker)).0);
        assert(sides.1.deep_view() == spec_refined_sides(ops, marker_view(marker)).1);
    }
    Some(sides)
}

/// Formats an old/new pair into ANSI-highlighted lines, old side first, using
/// the given "no newline at end of file" marker.  With both sides present the
/// lines carry word-level highlighting for some edit script between the two
/// token lists; with either side empty they are the flat simple formatting.
pub fn format_with_marker(old_text: &str, new_text: &str, marker: &Option<String>) -> (r: Vec<
    String,
>)
    ensures
        (old_text@.len() == 0 || new_text@.len() == 0) ==> r.deep_view() == spec_simple_merged(
            old_text@,
            new_text@,
            marker_view(marker),
        ),
        !(old_text@.len() == 0 || new_text@.len() == 0) ==> exists|ops: Seq<EditOp>|
            {
                &&& #[trigger] valid_script(ops, spec_tokenize(old_text@), spec_tokenize(new_text@))
                &&& r.deep_view() == spec_refined_sides(ops, marker_view(marker)).0
                    + spec_refined_sides(ops, marker_view(marker)).1
            },
{
    match format_split(old_text, new_text, marker) {
        None => {
            let (old_lines, new_lines) = simple_format_with_marker(old_text, new_text, marker);
            concat(old_lines, new_lines)
        },
        Some((old_lines, new_lines)) => concat(old_lines, new_lines),
    }
}

/// Formats an old/new pair into ANSI-highlighted lines, old side first, with
/// the built-in "no newline at end of file" marker.
pub fn format(old_text: &str, new_text: &str) -> (r: Vec<String>)
    ensures
        (old_text@.len() == 0 || new_text@.len() == 0) ==> r.deep_view() == spec_simple_merged(
            old_text@,
            new_text@,
            no_eof_newline_marker(),
        ),
        !(old_text@.len() == 0 || new_text@.len() == 0) ==> exists|ops: Seq<EditOp>|
            {
                &&& #[trigger] valid_script(ops, spec_tokenize(old_text@), spec_tokenize(new_text@))
                &&& r.deep_view() == spec_refined_sides(ops, no_eof_newline_marker()).0
                    + spec_refined_sides(ops, no_eof_newline_marker()).1
            },
{
    format_with_marker(old_text, new_text, &None)
}


proof fn lemma_drain_suppress_styles(q: Seq<TokenV>)
    requires
        forall|i: int|
            0 <= i < q.len() ==> (#[trigger] q[i].style) == Style::OldInverse || q[i].style
                == Style::NewInverse,
    ensures
        forall|i: int|
            0 <= i < drain_suppress(q).len() ==> !(#[trigger] drain_suppress(
                q,
            )[i].style.spec_is_inverse()),
    decreases q.len(),
{
    if q.len() > 0 {
        assert(q[0].style == Style::OldInverse || q[0].style == Style::NewInverse);
        assert forall|i: int| 0 <= i < q.drop_first().len() implies (#[trigger] q.drop_first()[i].style)
            == Style::OldInverse || q.drop_first()[i].style == Style::NewInverse by {
            assert(q.drop_first()[i] == q[i + 1]);
        }
        lemma_drain_suppress_styles(q.drop_first());
        assert forall|i: int|
            0 <= i < drain_suppress(q).len() implies !(#[trigger] drain_suppress(
            q,
        )[i].style.spec_is_inverse()) by {
            if i > 0 {
                assert(drain_suppress(q)[i] == drain_suppress(q.drop_first())[i - 1]);
            }
        }
    }
}

proof fn lemma_drain_keep_styles(q: Seq<TokenV>)
    requires
        forall|i: int|
            0 <= i < q.len() ==> (#[trigger] q[i].style) == Style::OldInverse || q[i].style
                == Style::NewInverse,
    ensures
        forall|i: int|
            0 <= i < drain_keep(q).len() ==> ((#[trigger] drain_keep(
                q,
            )[i].style.spec_is_inverse()) <==> !is_nl_token(drain_keep(q)[i])),
    decreases q.len(),
{
    reveal_strlit("\u{23ce}");
    if q.len() > 0 {
        assert(q[0].style == Style::OldInverse || q[0].style == Style::NewInverse);
        assert forall|i: int| 0 <= i < q.drop_first().len() implies (#[trigger] q.drop_first()[i].style)
            == Style::OldInverse || q.drop_first()[i].style == Style::NewInverse by {
            assert(q.drop_first()[i] == q[i + 1]);
        }
        lemma_drain_keep_styles(q.drop_first());
        let head: Seq<TokenV> = if is_nl_token(q[0]) {
            seq![
                TokenV { text: newline_glyph(), style: q[0].style },
                TokenV { text: q[0].text, style: q[0].style.spec_uninverted() },
            ]
        } else {
            seq![q[0]]
        };
        assert forall|i: int|
            0 <= i < drain_keep(q).len() implies ((#[trigger] drain_keep(
            q,
        )[i].style.spec_is_inverse()) <==> !is_nl_token(drain_keep(q)[i])) by {
            if i < head.len() {
                assert(drain_keep(q)[i] == head[i]);
                assert(newline_glyph().len() == 1 && newline_glyph()[0] != '\n');
            } else {
                assert(drain_keep(q)[i] == drain_keep(q.drop_first())[i - head.len()]);
            }
        }
    }
}

/// Law: a pending insert/remove run touching at least two line boundaries
/// drains with its highlighting suppressed on both sides, leaving no inverse
/// style anywhere in it; a run touching at most one drains with every token
/// still inverse, a highlighted newline showing as an inverse glyph followed
/// by a plain newline.
pub proof fn lemma_suppression_threshold(
    oldq: Seq<TokenV>,
    newq: Seq<TokenV>,
    nl_before: bool,
    nl_after: bool,
)
    requires
        forall|i: int| 0 <= i < oldq.len() ==> (#[trigger] oldq[i].style) == Style::OldInverse,
        forall|i: int| 0 <= i < newq.len() ==> (#[trigger] newq[i].style) == Style::NewInverse,
    ensures
        should_suppress(oldq, newq, nl_before, nl_after) ==> forall|i: int|
            0 <= i < drain_one(oldq, true).len() ==> !(#[trigger] drain_one(
                oldq,
                true,
            )[i].style.spec_is_inverse()),
        should_suppress(oldq, newq, nl_before, nl_after) ==> forall|i: int|
            0 <= i < drain_one(newq, true).len() ==> !(#[trigger] drain_one(
                newq,
                true,
            )[i].style.spec_is_inverse()),
        !should_suppress(oldq, newq, nl_before, nl_after) ==> forall|i: int|
            0 <= i < drain_one(oldq, false).len() ==> ((#[trigger] drain_one(
                oldq,
                false,
            )[i].style.spec_is_inverse()) <==> !is_nl_token(drain_one(oldq, false)[i])),
        !should_suppress(oldq, newq, nl_before, nl_after) ==> forall|i: int|
            0 <= i < drain_one(newq, false).len() ==> ((#[trigger] drain_one(
                newq,
                false,
            )[i].style.spec_is_inverse()) <==> !is_nl_token(drain_one(newq, false)[i])),
{
    lemma_drain_suppress_styles(oldq);
    lemma_drain_suppress_styles(newq);
    lemma_drain_keep_styles(oldq);
    lemma_drain_keep_styles(newq);
}

proof fn lemma_no_inverse_occurrence(s: Seq<char>)
    requires
        forall|j: int|
            0 <= j < s.len() && (#[trigger] s[j]) == '\u{1b}' ==> j + 4 > s.len() || s[j + 2]
                != '7',
    ensures
        !contains_seq(s, inverse_video()),
{
    reveal_strlit("\x1b[7m");
    assert(inverse_video().len() == 4);
    assert forall|j: int| !occurs_at(s, inverse_video(), j) by {
        if occurs_at(s, inverse_video(), j) {
            assert(s.subrange(j, j + 4)[0] == s[j]);
            assert(s.subrange(j, j + 4)[2] == s[j + 2]);
            assert(s[j] == '\u{1b}' && s[j + 2] == '7');
        }
    }
}

proof fn lemma_simple_line_no_inverse(color: Seq<char>, prefix: char, content: Seq<char>)
    requires
        no_esc(content),
        prefix != '\u{1b}',
        color == old_color() || color == new_color() || color == no_eof_newline_color(),
    ensures
        !contains_seq(color + seq![prefix] + content + normal(), inverse_video()),
{
    reveal_strlit("\x1b[31m");
    reveal_strlit("\x1b[32m");
    reveal_strlit("\x1b[2m");
    reveal_strlit("\x1b[0m");
    let s = color + seq![prefix] + content + normal();
    let cl = color.len() as int;
    let n0 = cl + 1 + content.len() as int;
    assert(s.len() == n0 + 4);
    assert forall|j: int|
        0 <= j < s.len() && (#[trigger] s[j]) == '\u{1b}' implies j + 4 > s.len() || s[j + 2]
        != '7' by {
        if j < cl {
            assert(s[j] == color[j]);
            assert(j == 0);
            assert(s[2] == color[2]);
        } else if j == cl {
            assert(s[j] == prefix);
        } else if j < n0 {
            assert(s[j] == content[j - cl - 1]);
        } else {
            assert(s[j] == normal()[j - n0]);
            assert(j == n0);
            assert(s[j + 2] == normal()[2]);
        }
    }
    lemma_no_inverse_occurrence(s);
}

proof fn lemma_lines_no_esc(text: Seq<char>)
    requires
        no_esc(text),
    ensures
        forall|k: int| 0 <= k < spec_lines(text).len() ==> no_esc(#[trigger] spec_lines(text)[k]),
    decreases text.len(),
{
    if text.len() == 0 {
    } else {
        let i = spec_find(text, '\n');
        crate::text::lemma_spec_find(text, '\n');
        if 0 <= i < text.len() {
            assert(no_esc(text.subrange(i + 1, text.len() as int)));
            lemma_lines_no_esc(text.subrange(i + 1, text.len() as int));
            assert forall|k: int|
                0 <= k < spec_lines(text).len() implies no_esc(#[trigger] spec_lines(text)[k]) by {
                if k == 0 {
                    assert(spec_lines(text)[0] == strip_cr(text.subrange(0, i)));
                    assert(no_esc(text.subrange(0, i)));
                    assert(no_esc(strip_cr(text.subrange(0, i))));
                } else {
                    assert(spec_lines(text)[k] == spec_lines(
                        text.subrange(i + 1, text.len() as int),
                    )[k - 1]);
                }
            }
        }
    }
}

/// Law: with either side empty, the formatting is the simple rendering, and
/// no inverse-video escape appears in any of its lines.  The inputs carry no
/// escape character of their own, as the pipeline's input contract promises.
pub proof fn lemma_empty_side_no_inverse(old_text: Seq<char>, new_text: Seq<char>, marker: Seq<char>)
    requires
        no_esc(old_text),
        no_esc(new_text),
        no_esc(marker),
    ensures
        forall|k: int|
            0 <= k < spec_simple_merged(old_text, new_text, marker).len() ==> !contains_seq(
                #[trigger] spec_simple_merged(old_text, new_text, marker)[k],
                inverse_video(),
            ),
{
    lemma_side_no_inverse(old_text, old_color(), '-', marker);
    lemma_side_no_inverse(new_text, new_color(), '+', marker);
    assert forall|k: int|
        0 <= k < spec_simple_merged(old_text, new_text, marker).len() implies !contains_seq(
        #[trigger] spec_simple_merged(old_text, new_text, marker)[k],
        inverse_video(),
    ) by {
        let a = spec_simple_side(old_text, old_color(), '-', marker);
        let b = spec_simple_side(new_text, new_color(), '+', marker);
        if k < a.len() {
            assert(spec_simple_merged(old_text, new_text, marker)[k] == a[k]);
        } else {
            assert(spec_simple_merged(old_text, new_text, marker)[k] == b[k - a.len()]);
        }
    }
}

proof fn lemma_side_no_inverse(text: Seq<char>, color: Seq<char>, prefix: char, marker: Seq<char>)
    requires
        no_esc(text),
        no_esc(marker),
        prefix != '\u{1b}',
        color == old_color() || color == new_color(),
    ensures
        forall|k: int|
            0 <= k < spec_simple_side(text, color, prefix, marker).len() ==> !contains_seq(
                #[trigger] spec_simple_side(text, color, prefix, marker)[k],
                inverse_video(),
            ),
{
    lemma_lines_no_esc(text);
    let mapped = spec_lines(text).map_values(|l: Seq<char>| spec_simple_line(color, prefix, l));
    assert forall|k: int|
        0 <= k < spec_simple_side(text, color, prefix, marker).len() implies !contains_seq(
        #[trigger] spec_simple_side(text, color, prefix, marker)[k],
        inverse_video(),
    ) by {
        if k < mapped.len() {
            assert(spec_simple_side(text, color, prefix, marker)[k] == spec_simple_line(
                color,
                prefix,
                spec_lines(text)[k],
            ));
            assert(no_esc(spec_lines(text)[k]));
            lemma_simple_line_no_inverse(color, prefix, spec_lines(text)[k]);
        } else {
            assert(spec_simple_side(text, color, prefix, marker)[k] == spec_no_eof_line(marker));
            reveal_strlit("\x1b[2m");
            assert(spec_no_eof_line(marker) == no_eof_newline_color() + marker + normal());
            lemma_no_eof_line_no_inverse(marker);
        }
    }
}

proof fn lemma_no_eof_line_no_inverse(marker: Seq<char>)
    requires
        no_esc(marker),
    ensures
        !contains_seq(spec_no_eof_line(marker), inverse_video()),
{
    reveal_strlit("\x1b[2m");
    reveal_strlit("\x1b[0m");
    let s = spec_no_eof_line(marker);
    let cl = no_eof_newline_color().len() as int;
    let n0 = cl + marker.len() as int;
    assert(s.len() == n0 + 4);
    assert forall|j: int|
        0 <= j < s.len() && (#[trigger] s[j]) == '\u{1b}' implies j + 4 > s.len() || s[j + 2]
        != '7' by {
        if j < cl {
            assert(s[j] == no_eof_newline_color()[j]);
            assert(j == 0);
            assert(s[2] == no_eof_newline_color()[2]);
        } else if j < n0 {
            assert(s[j] == marker[j - cl]);
        } else {
            assert(s[j] == normal()[j - n0]);
            assert(j == n0);
            assert(s[j + 2] == normal()[2]);
        }
    }
    lemma_no_inverse_occurrence(s);
}

} // verus!
