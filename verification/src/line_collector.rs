//! The line classifier and block accumulator.
//!
//! Input lines arrive one at a time, already free of terminal escapes.  The
//! collector classifies each line by its prefix, accumulates contiguous
//! removed/added runs and plain passthrough text, and emits work items in
//! strict input order: resolved text for plain blocks, and old/new text pairs
//! for diff blocks, to be rendered by the refiner.  Resolving the items in
//! order reproduces the input order exactly, however the diff items are
//! computed.

use vstd::prelude::*;
use vstd::string::StringExecFns;

use crate::constants::{
    bold, bold_str, faint, faint_str, hunk_header_color, hunk_header_color_str,
    no_eof_newline_color, no_eof_newline_color_str, normal, normal_str,
};
use crate::text::{contains_seq, find_substr, starts_with_str, str_eq, str_suffix};
use crate::token_collector::{views, Style, TokenV};

verus! {

/// The mathematical value of a [`WorkItem`].
#[verifier::ext_equal]
pub ghost enum ItemV {
    Plain { text: Seq<char> },
    OldNew { old_text: Seq<char>, new_text: Seq<char>, marker: Option<Seq<char>> },
}

/// One unit of output, emitted in strict input order: either already-resolved
/// text, or an old/new pair still to be rendered by the refiner (with the
/// "no newline at end of file" marker as captured at the time the pair was
/// complete).
pub enum WorkItem {
    Plain(String),
    OldNew { old_text: String, new_text: String, marker: Option<String> },
}

impl View for WorkItem {
    type V = ItemV;

    open spec fn view(&self) -> ItemV {
        match self {
            WorkItem::Plain(text) => ItemV::Plain { text: text@ },
            WorkItem::OldNew { old_text, new_text, marker } => ItemV::OldNew {
                old_text: old_text@,
                new_text: new_text@,
                marker: match marker {
                    Option::Some(m) => Option::Some(m@),
                    Option::None => Option::None,
                },
            },
        }
    }
}

/// The views of an item sequence.
pub open spec fn item_views(s: Seq<WorkItem>) -> Seq<ItemV> {
    s.map_values(|w: WorkItem| w@)
}

pub broadcast proof fn lemma_item_views_index(s: Seq<WorkItem>, i: int)
    requires
        0 <= i < s.len(),
    ensures
        #[trigger] item_views(s)[i] == s[i]@,
{
}

pub broadcast proof fn lemma_item_views_len(s: Seq<WorkItem>)
    ensures
        #[trigger] item_views(s).len() == s.len(),
{
}

/// The mathematical value of a [`LineCollector`].
#[verifier::ext_equal]
pub ghost struct LcV {
    pub old_text: Seq<char>,
    pub new_text: Seq<char>,
    pub plain_text: Seq<char>,
    pub diff_seen: bool,
    pub marker: Option<Seq<char>>,
    pub items: Seq<ItemV>,
}

/// The state of a fresh collector.
pub open spec fn init_lc() -> LcV {
    LcV {
        old_text: Seq::empty(),
        new_text: Seq::empty(),
        plain_text: Seq::empty(),
        diff_seen: false,
        marker: Option::None,
        items: Seq::empty(),
    }
}

/// The fixed style for a recognized header prefix, if the line carries one.
pub open spec fn spec_fixed_highlight(l: Seq<char>) -> Option<Seq<char>> {
    if "diff "@.is_prefix_of(l) {
        Option::Some(faint())
    } else if "index "@.is_prefix_of(l) {
        Option::Some(faint())
    } else if "Binary files "@.is_prefix_of(l) {
        Option::Some(bold())
    } else if "copy from "@.is_prefix_of(l) {
        Option::Some(faint())
    } else if "copy to "@.is_prefix_of(l) {
        Option::Some(bold())
    } else if "rename from "@.is_prefix_of(l) {
        Option::Some(faint())
    } else if "rename to "@.is_prefix_of(l) {
        Option::Some(bold())
    } else if "similarity index "@.is_prefix_of(l) {
        Option::Some(faint())
    } else if "new file mode "@.is_prefix_of(l) {
        Option::Some(faint())
    } else if "deleted file mode "@.is_prefix_of(l) {
        Option::Some(faint())
    } else {
        Option::None
    }
}

/// A pending old/new block is flushed as one work item.
pub open spec fn after_drain_oldnew(s: LcV) -> LcV {
    if s.old_text.len() == 0 && s.new_text.len() == 0 {
        s
    } else {
        LcV {
            old_text: Seq::empty(),
            new_text: Seq::empty(),
            items: s.items.push(
                ItemV::OldNew { old_text: s.old_text, new_text: s.new_text, marker: s.marker },
            ),
            ..s
        }
    }
}

/// A pending plain block is flushed as one resolved work item.
pub open spec fn after_drain_plain(s: LcV) -> LcV {
    if s.plain_text.len() == 0 {
        s
    } else {
        LcV {
            plain_text: Seq::empty(),
            items: s.items.push(ItemV::Plain { text: s.plain_text }),
            ..s
        }
    }
}

/// Part of a plain output line is appended, flushing any old/new block first.
pub open spec fn after_plain_linepart(s: LcV, part: Seq<char>) -> LcV {
    let s1 = after_drain_oldnew(s);
    LcV { plain_text: s1.plain_text + part, ..s1 }
}

/// One whole plain output line is appended, flushing any old/new block first.
pub open spec fn after_plain_line(s: LcV, line: Seq<char>) -> LcV {
    let s1 = after_drain_oldnew(s);
    LcV { plain_text: s1.plain_text + line + seq!['\n'], ..s1 }
}

/// A removed line joins the old buffer, flushing any plain block first.
pub open spec fn after_old_line(s: LcV, line: Seq<char>) -> LcV {
    let s1 = after_drain_plain(s);
    LcV { old_text: s1.old_text + line.drop_first() + seq!['\n'], ..s1 }
}

/// An added line joins the new buffer, flushing any plain block first.
pub open spec fn after_new_line(s: LcV, line: Seq<char>) -> LcV {
    let s1 = after_drain_plain(s);
    LcV { new_text: s1.new_text + line.drop_first() + seq!['\n'], ..s1 }
}

/// A "no newline at end of file" marker line: its text is captured, then the
/// newest nonempty buffer loses its trailing newline; with both buffers empty
/// the marker itself passes through as a dim plain line.
pub open spec fn after_marker(s: LcV, line: Seq<char>) -> LcV {
    let s1 = LcV { marker: Option::Some(line), ..s };
    if s1.new_text.len() > 0 {
        LcV { new_text: s1.new_text.drop_last(), ..s1 }
    } else if s1.old_text.len() > 0 {
        LcV { old_text: s1.old_text.drop_last(), ..s1 }
    } else {
        after_plain_line(s1, no_eof_newline_color() + line + normal())
    }
}

/// The styled body of a hunk header: the line-range part faint, an optional
/// function-name suffix bold.
pub open spec fn spec_hunk_body(l: Seq<char>) -> Seq<char> {
    if contains_seq(l, " @@ "@) {
        let i = crate::text::spec_find_sub(l, " @@ "@);
        faint() + l.subrange(0, i + 4) + bold() + l.subrange(i + 4, l.len() as int)
    } else {
        l
    }
}

/// A hunk header line is appended to the plain block in the hunk color.
pub open spec fn after_hunk_header(s: LcV, line: Seq<char>) -> LcV {
    let s1 = after_drain_oldnew(s);
    LcV {
        plain_text: s1.plain_text + hunk_header_color() + spec_hunk_body(line) + normal() + seq![
            '\n',
        ],
        ..s1
    }
}

/// The line prefix of a rendered old-side filename header.
pub open spec fn old_filename_prefix() -> TokenV {
    TokenV { text: "--- "@, style: Style::Old }
}

/// The line prefix of a rendered new-side filename header.
pub open spec fn new_filename_prefix() -> TokenV {
    TokenV { text: "+++ "@, style: Style::New }
}

/// Whether a marker line can be consumed from this state: the buffer it pops
/// must end in a newline.  The accumulator appends lines with their newlines,
/// so this only fails after a filename header left a bare name in a buffer.
pub open spec fn marker_precondition(s: LcV, line: Seq<char>) -> bool {
    (spec_fixed_highlight(line) is None && !"commit"@.is_prefix_of(line)
        && !"--- "@.is_prefix_of(line) && !"+++ "@.is_prefix_of(line) && !"@@ "@.is_prefix_of(line)
        && line.len() > 0 && line[0] != '-' && line[0] != '+' && line[0] == '\\') ==> {
        if s.new_text.len() > 0 {
            s.new_text.last() == '\n'
        } else if s.old_text.len() > 0 {
            s.old_text.last() == '\n'
        } else {
            true
        }
    }
}

/// Whether the collector hands the line back for external commit formatting.
pub open spec fn is_commit_class(l: Seq<char>) -> bool {
    spec_fixed_highlight(l) is None && "commit"@.is_prefix_of(l)
}

/// How one consumed line transforms the collector's state.  The only
/// non-deterministic step is the completion of a filename header pair, whose
/// rendering depends on the edit script chosen for the two names.
pub open spec fn spec_consume(pre: LcV, line: Seq<char>, post: LcV) -> bool {
    let d = LcV { diff_seen: pre.diff_seen || "diff"@.is_prefix_of(line), ..pre };
    if spec_fixed_highlight(line) is Some {
        post == after_plain_line(d, spec_fixed_highlight(line)->0 + line + normal())
    } else if "commit"@.is_prefix_of(line) {
        post == d
    } else if "--- "@.is_prefix_of(line) {
        post == LcV { old_text: line.subrange(4, line.len() as int), ..d }
    } else if "+++ "@.is_prefix_of(line) {
        spec_consume_plusplus(d, line, post)
    } else if "@@ "@.is_prefix_of(line) {
        post == after_hunk_header(d, line)
    } else if line.len() == 0 {
        post == after_plain_line(d, Seq::empty())
    } else if line[0] == '-' {
        post == after_old_line(d, line)
    } else if line[0] == '+' {
        post == after_new_line(d, line)
    } else if line[0] == '\\' {
        post == after_marker(d, line)
    } else {
        post == after_plain_line(d, line)
    }
}

/// The completion of a filename header pair.  Without a preceding old-side
/// name the line is a silently dropped anomaly.  A `/dev/null` side renders
/// both names plainly; otherwise both names render through the refiner,
/// without the structural highlight passes.
pub open spec fn spec_consume_plusplus(d: LcV, line: Seq<char>, post: LcV) -> bool {
    let new_name = line.subrange(4, line.len() as int);
    let cleared = LcV { old_text: Seq::empty(), new_text: Seq::empty(), ..d };
    if d.old_text.len() == 0 {
        post == d
    } else if d.old_text == "/dev/null"@ {
        post == LcV {
            plain_text: d.plain_text + faint() + "--- /dev/null"@ + normal() + seq!['\n'] + bold()
                + "+++ "@ + new_name + normal() + seq!['\n'],
            ..cleared
        }
    } else if new_name == "/dev/null"@ {
        post == LcV {
            plain_text: d.plain_text + bold() + "--- "@ + d.old_text + normal() + seq!['\n']
                + faint() + "+++ /dev/null"@ + normal() + seq!['\n'],
            ..cleared
        }
    } else {
        exists|ops: Seq<crate::script::EditOp>|
            {
                &&& #[trigger] crate::script::valid_script(
                    ops,
                    crate::tokenizer::spec_tokenize(d.old_text),
                    crate::tokenizer::spec_tokenize(new_name),
                )
                &&& post == LcV {
                    plain_text: d.plain_text + crate::token_collector::spec_render(
                        old_filename_prefix(),
                        crate::refiner::spec_refine(
                            ops,
                            true,
                            Seq::<TokenV>::empty(),
                            Seq::<TokenV>::empty(),
                        ).0,
                        false,
                    ) + seq!['\n'] + crate::token_collector::spec_render(
                        new_filename_prefix(),
                        crate::refiner::spec_refine(
                            ops,
                            true,
                            Seq::<TokenV>::empty(),
                            Seq::<TokenV>::empty(),
                        ).1,
                        false,
                    ) + seq!['\n'],
                    ..cleared
                }
            }
    }
}

/// Whether the collector asks its caller to format a commit line.
#[derive(Clone, Copy, Debug, PartialEq, Eq, Structural)]
pub enum ConsumeOutcome {
    Consumed,
    CommitLine,
}

/// Classifies input lines and accumulates them into blocks, emitting work
/// items in strict input order.
pub struct LineCollector {
    old_text: String,
    new_text: String,
    plain_text: String,
    diff_seen: bool,
    eof_marker: Option<String>,
    items: Vec<WorkItem>,
}

impl View for LineCollector {
    type V = LcV;

    closed spec fn view(&self) -> LcV {
        LcV {
            old_text: self.old_text@,
            new_text: self.new_text@,
            plain_text: self.plain_text@,
            diff_seen: self.diff_seen,
            marker: match &self.eof_marker {
                Option::Some(m) => Option::Some(m@),
                Option::None => Option::None,
            },
            items: item_views(self.items@),
        }
    }
}

impl LineCollector {
    /// A fresh collector with empty buffers and no pending items.
    pub fn new() -> (r: LineCollector)
        ensures
            r@ == init_lc(),
    {
        let r = LineCollector {
            old_text: String::new(),
            new_text: String::new(),
            plain_text: String::new(),
            diff_seen: false,
            eof_marker: None,
            items: Vec::new(),
        };
        proof {
            assert(item_views(r.items@) =~= Seq::<ItemV>::empty());
            assert(r@ =~= init_lc());
        }
        r
    }

    /// Flushes a pending old/new block as one work item.
    fn drain_oldnew(&mut self)
        ensures
            final(self)@ == after_drain_oldnew(old(self)@),
    {
        broadcast use {lemma_item_views_index, lemma_item_views_len};

        if self.old_text.as_str().is_empty() && self.new_text.as_str().is_empty() {
            return ;
        }
        let ghost pre = self@;
        let marker = match &self.eof_marker {
            Some(m) => Some(m.clone()),
            None => None,
        };
        let mut old_text = String::new();
        let mut new_text = String::new();
        core::mem::swap(&mut old_text, &mut self.old_text);
        core::mem::swap(&mut new_text, &mut self.new_text);
        let item = WorkItem::OldNew { old_text, new_text, marker };
        self.items.push(item);
        proof {
            assert(item_views(self.items@) =~= pre.items.push(
                ItemV::OldNew { old_text: pre.old_text, new_text: pre.new_text, marker: pre.marker },
            ));
            assert(self@ =~= after_drain_oldnew(pre));
        }
    }

    /// Flushes a pending plain block as one resolved work item.
    fn drain_plain(&mut self)
        ensures
            final(self)@ == after_drain_plain(old(self)@),
    {
        broadcast use {lemma_item_views_index, lemma_item_views_len};

        if self.plain_text.as_str().is_empty() {
            return ;
        }
        let ghost pre = self@;
        let mut plain_text = String::new();
        core::mem::swap(&mut plain_text, &mut self.plain_text);
        self.items.push(WorkItem::Plain(plain_text));
        proof {
            assert(item_views(self.items@) =~= pre.items.push(ItemV::Plain { text: pre.plain_text }));
            assert(self@ =~= after_drain_plain(pre));
        }
    }

    /// Appends part of a plain output line, without a trailing newline.
    fn consume_plain_linepart(&mut self, linepart: &str)
        ensures
            final(self)@ == after_plain_linepart(old(self)@, linepart@),
    {
        self.drain_oldnew();
        self.plain_text.append(linepart);
        proof {
            assert(self@ =~= after_plain_linepart(old(self)@, linepart@));
        }
    }

    /// Appends one whole plain output line.
    pub fn consume_plain_line(&mut self, line: &str)
        ensures
            final(self)@ == after_plain_line(old(self)@, line@),
    {
        self.drain_oldnew();
        self.plain_text.append(line);
        self.plain_text.push('\n');
        proof {
            assert(self@.plain_text =~= after_drain_oldnew(old(self)@).plain_text + line@ + seq![
                '\n',
            ]);
            assert(self@ =~= after_plain_line(old(self)@, line@));
        }
    }
}


/// Recognizes a fixed-style header prefix.
fn get_fixed_highlight(line: &str) -> (r: Option<&'static str>)
    ensures
        match r {
            Some(style) => spec_fixed_highlight(line@) == Option::Some(style@),
            None => spec_fixed_highlight(line@) is None,
        },
{
    if starts_with_str(line, "diff ") {
        Some(faint_str())
    } else if starts_with_str(line, "index ") {
        Some(faint_str())
    } else if starts_with_str(line, "Binary files ") {
        Some(bold_str())
    } else if starts_with_str(line, "copy from ") {
        Some(faint_str())
    } else if starts_with_str(line, "copy to ") {
        Some(bold_str())
    } else if starts_with_str(line, "rename from ") {
        Some(faint_str())
    } else if starts_with_str(line, "rename to ") {
        Some(bold_str())
    } else if starts_with_str(line, "similarity index ") {
        Some(faint_str())
    } else if starts_with_str(line, "new file mode ") {
        Some(faint_str())
    } else if starts_with_str(line, "deleted file mode ") {
        Some(faint_str())
    } else {
        None
    }
}

impl LineCollector {
    /// Accumulates one removed line (without its `-`) into the old buffer.
    fn consume_old_line(&mut self, line: &str)
        requires
            line@.len() > 0,
            line@[0] == '-',
        ensures
            final(self)@ == after_old_line(old(self)@, line@),
    {
        self.drain_plain();
        let rest = str_suffix(line, 1);
        self.old_text.append(rest.as_str());
        self.old_text.push('\n');
        proof {
            assert(line@.subrange(1, line@.len() as int) =~= line@.drop_first());
            assert(self@ =~= after_old_line(old(self)@, line@));
        }
    }

    /// Accumulates one added line (without its `+`) into the new buffer.
    fn consume_new_line(&mut self, line: &str)
        requires
            line@.len() > 0,
            line@[0] == '+',
        ensures
            final(self)@ == after_new_line(old(self)@, line@),
    {
        self.drain_plain();
        let rest = str_suffix(line, 1);
        self.new_text.append(rest.as_str());
        self.new_text.push('\n');
        proof {
            assert(line@.subrange(1, line@.len() as int) =~= line@.drop_first());
            assert(self@ =~= after_new_line(old(self)@, line@));
        }
    }

    /// Captures the marker's wording, then removes the trailing newline of
    /// the newest nonempty buffer; with both buffers empty the marker passes
    /// through as a dim plain line.
    fn consume_no_eof_newline_marker(&mut self, line: &str)
        requires
            old(self)@.new_text.len() > 0 ==> old(self)@.new_text.last() == '\n',
            old(self)@.new_text.len() == 0 && old(self)@.old_text.len() > 0 ==> old(
                self,
            )@.old_text.last() == '\n',
        ensures
            final(self)@ == after_marker(old(self)@, line@),
    {
        self.eof_marker = Some(String::from_str(line));
        let ghost s1 = self@;
        if !self.new_text.as_str().is_empty() {
            let n = self.new_text.as_str().unicode_len();
            let shortened = String::from_str(self.new_text.as_str().substring_char(0, n - 1));
            self.new_text = shortened;
            proof {
                assert(s1.new_text.subrange(0, s1.new_text.len() - 1) =~= s1.new_text.drop_last());
                assert(self@ =~= after_marker(old(self)@, line@));
            }
            return ;
        }
        if !self.old_text.as_str().is_empty() {
            let n = self.old_text.as_str().unicode_len();
            let shortened = String::from_str(self.old_text.as_str().substring_char(0, n - 1));
            self.old_text = shortened;
            proof {
                assert(s1.old_text.subrange(0, s1.old_text.len() - 1) =~= s1.old_text.drop_last());
                assert(self@ =~= after_marker(old(self)@, line@));
            }
            return ;
        }
        let mut colored = String::new();
        colored.append(no_eof_newline_color_str());
        colored.append(line);
        colored.append(normal_str());
        self.consume_plain_line(colored.as_str());
        proof {
            assert(colored@ =~= no_eof_newline_color() + line@ + normal());
            assert(self@ =~= after_marker(old(self)@, line@));
        }
    }

    /// Emits a hunk header: the line-range part faint, an optional
    /// function-name suffix bold, all in the hunk color.
    fn consume_hunk_header(&mut self, line: &str)
        ensures
            final(self)@ == after_hunk_header(old(self)@, line@),
    {
        self.consume_plain_linepart(hunk_header_color_str());
        let ghost s1 = self@;
        match find_substr(line, " @@ ") {
            Some(idx) => {
                proof {
                    reveal_strlit(" @@ ");
                    crate::text::lemma_spec_find_sub_at(line@, " @@ "@, idx as int);
                }
                self.consume_plain_linepart(faint_str());
                let n = line.unicode_len();
                let head = line.substring_char(0, idx + 4);
                self.consume_plain_linepart(head);
                self.consume_plain_linepart(bold_str());
                let tail = line.substring_char(idx + 4, n);
                self.consume_plain_linepart(tail);
                proof {
                    assert(self@.plain_text =~= s1.plain_text + spec_hunk_body(line@));
                }
            },
            None => {
                self.consume_plain_linepart(line);
                proof {
                    assert(self@.plain_text =~= s1.plain_text + spec_hunk_body(line@));
                }
            },
        }
        self.consume_plain_line(normal_str());
        proof {
            assert(self@ =~= after_hunk_header(old(self)@, line@));
        }
    }

    /// Consumes one side of a filename header pair.  A `---` line records the
    /// old name; a `+++` line completes the pair and emits both names, via
    /// the refiner unless either side is `/dev/null`.
    pub fn consume_plusminus_header(&mut self, line: &str)
        requires
            "--- "@.is_prefix_of(line@) || "+++ "@.is_prefix_of(line@),
        ensures
            "--- "@.is_prefix_of(line@) ==> final(self)@ == (LcV {
                old_text: line@.subrange(4, line@.len() as int),
                ..old(self)@
            }),
            !"--- "@.is_prefix_of(line@) ==> spec_consume_plusplus(old(self)@, line@, final(self)@),
    {
        broadcast use {lemma_item_views_index, lemma_item_views_len};

        proof {
            reveal_strlit("--- ");
            reveal_strlit("+++ ");
        }
        if starts_with_str(line, "--- ") {
            let name = str_suffix(line, 4);
            self.old_text = name;
            proof {
                assert(self@ =~= (LcV {
                    old_text: line@.subrange(4, line@.len() as int),
                    ..old(self)@
                }));
            }
            return ;
        }
        let ghost d = old(self)@;
        if self.old_text.as_str().is_empty() {
            // A +++ line with no preceding --- line cannot be paired and is
            // silently dropped.
            return ;
        }
        let new_name = str_suffix(line, 4);
        self.new_text = new_name;
        if str_eq(self.old_text.as_str(), "/dev/null") {
            let kept_new = self.new_text.clone();
            self.old_text = String::new();
            self.new_text = String::new();
            self.consume_plain_linepart(faint_str());
            self.consume_plain_linepart("--- /dev/null");
            self.consume_plain_line(normal_str());
            self.consume_plain_linepart(bold_str());
            self.consume_plain_linepart("+++ ");
            self.consume_plain_linepart(kept_new.as_str());
            self.consume_plain_line(normal_str());
            proof {
                assert(self@ =~= (LcV {
                    old_text: Seq::<char>::empty(),
                    new_text: Seq::<char>::empty(),
                    plain_text: d.plain_text + faint() + "--- /dev/null"@ + normal() + seq!['\n']
                        + bold() + "+++ "@ + line@.subrange(4, line@.len() as int) + normal()
                        + seq!['\n'],
                    ..d
                }));
            }
            return ;
        }
        if str_eq(self.new_text.as_str(), "/dev/null") {
            let kept_old = self.old_text.clone();
            self.old_text = String::new();
            self.new_text = String::new();
            self.consume_plain_linepart(bold_str());
            self.consume_plain_linepart("--- ");
            self.consume_plain_linepart(kept_old.as_str());
            self.consume_plain_line(normal_str());
            self.consume_plain_linepart(faint_str());
            self.consume_plain_linepart("+++ /dev/null");
            self.consume_plain_line(normal_str());
            proof {
                assert(self@ =~= (LcV {
                    old_text: Seq::<char>::empty(),
                    new_text: Seq::<char>::empty(),
                    plain_text: d.plain_text + bold() + "--- "@ + d.old_text + normal() + seq![
                        '\n',
                    ] + faint() + "+++ /dev/null"@ + normal() + seq!['\n'],
                    ..d
                }));
            }
            return ;
        }
        let old_name = self.old_text.clone();
        let kept_new = self.new_text.clone();
        self.old_text = String::new();
        self.new_text = String::new();
        let (old_tokens, new_tokens) = crate::refiner::to_highlighted_tokens(
            old_name.as_str(),
            kept_new.as_str(),
        );
        let ghost ops = choose|ops: Seq<crate::script::EditOp>|
            {
                &&& #[trigger] crate::script::valid_script(
                    ops,
                    crate::tokenizer::spec_tokenize(old_name@),
                    crate::tokenizer::spec_tokenize(kept_new@),
                )
                &&& views(old_tokens@) == crate::refiner::spec_refine(
                    ops,
                    true,
                    Seq::<TokenV>::empty(),
                    Seq::<TokenV>::empty(),
                ).0
                &&& views(new_tokens@) == crate::refiner::spec_refine(
                    ops,
                    true,
                    Seq::<TokenV>::empty(),
                    Seq::<TokenV>::empty(),
                ).1
            };
        let old_filename = crate::refiner::render_tokens("--- ", Style::Old, old_tokens, false);
        let new_filename = crate::refiner::render_tokens("+++ ", Style::New, new_tokens, false);
        self.consume_plain_line(old_filename.as_str());
        self.consume_plain_line(new_filename.as_str());
        proof {
            assert((TokenV { text: "--- "@, style: Style::Old }) == old_filename_prefix());
            assert((TokenV { text: "+++ "@, style: Style::New }) == new_filename_prefix());
            assert(self@ =~= (LcV {
                old_text: Seq::<char>::empty(),
                new_text: Seq::<char>::empty(),
                plain_text: d.plain_text + old_filename@ + seq!['\n'] + new_filename@ + seq![
                    '\n',
                ],
                ..d
            }));
            assert(spec_consume_plusplus(d, line@, self@));
        }
    }

    /// Classifies and consumes one input line, as [`spec_consume`] describes.
    /// A commit line is handed back for external formatting instead.
    pub fn consume_line(&mut self, line: &str) -> (r: ConsumeOutcome)
        requires
            marker_precondition(old(self)@, line@),
        ensures
            spec_consume(old(self)@, line@, final(self)@),
            r == ConsumeOutcome::CommitLine <==> is_commit_class(line@),
    {
        if starts_with_str(line, "diff") {
            self.diff_seen = true;
        }
        let ghost d = LcV { diff_seen: old(self)@.diff_seen || "diff"@.is_prefix_of(line@), ..old(
            self,
        )@ };
        proof {
            assert(self@ =~= d);
        }
        match get_fixed_highlight(line) {
            Some(style) => {
                self.consume_plain_linepart(style);
                self.consume_plain_linepart(line);
                self.consume_plain_line(normal_str());
                proof {
                    assert(self@ =~= after_plain_line(
                        d,
                        spec_fixed_highlight(line@)->0 + line@ + normal(),
                    ));
                }
                return ConsumeOutcome::Consumed;
            },
            None => {},
        }
        if starts_with_str(line, "commit") {
            return ConsumeOutcome::CommitLine;
        }
        if starts_with_str(line, "--- ") || starts_with_str(line, "+++ ") {
            self.consume_plusminus_header(line);
            return ConsumeOutcome::Consumed;
        }
        if starts_with_str(line, "@@ ") {
            self.consume_hunk_header(line);
            return ConsumeOutcome::Consumed;
        }
        let n = line.unicode_len();
        if n == 0 {
            self.consume_plain_line("");
            proof {
                reveal_strlit("");
                assert(""@ =~= Seq::<char>::empty());
            }
            return ConsumeOutcome::Consumed;
        }
        let c0 = line.get_char(0);
        if c0 == '-' {
            self.consume_old_line(line);
            return ConsumeOutcome::Consumed;
        }
        if c0 == '+' {
            self.consume_new_line(line);
            return ConsumeOutcome::Consumed;
        }
        if c0 == '\\' {
            self.consume_no_eof_newline_marker(line);
            return ConsumeOutcome::Consumed;
        }
        self.consume_plain_line(line);
        ConsumeOutcome::Consumed
    }

    /// Flushes whatever block is still pending, in the order a teardown does.
    pub fn finish(&mut self)
        ensures
            final(self)@ == after_drain_plain(after_drain_oldnew(old(self)@)),
    {
        self.drain_oldnew();
        self.drain_plain();
    }

    /// Hands out the emitted work items, in creation order.
    pub fn take_items(&mut self) -> (r: Vec<WorkItem>)
        ensures
            item_views(r@) == old(self)@.items,
            final(self)@ == (LcV { items: Seq::<ItemV>::empty(), ..old(self)@ }),
    {
        let mut items: Vec<WorkItem> = Vec::new();
        core::mem::swap(&mut items, &mut self.items);
        proof {
            assert(item_views(Seq::<WorkItem>::empty()) =~= Seq::<ItemV>::empty());
            assert(self@ =~= (LcV { items: Seq::<ItemV>::empty(), ..old(self)@ }));
        }
        items
    }

    /// Whether the next line can be consumed from this state: only a marker
    /// line whose buffer does not end in a newline is refused.
    pub fn can_consume(&self, line: &str) -> (r: bool)
        ensures
            r == marker_precondition(self@, line@),
    {
        match get_fixed_highlight(line) {
            Some(_) => {
                return true;
            },
            None => {},
        }
        if starts_with_str(line, "commit") || starts_with_str(line, "--- ") || starts_with_str(
            line,
            "+++ ",
        ) || starts_with_str(line, "@@ ") {
            return true;
        }
        let n = line.unicode_len();
        if n == 0 {
            return true;
        }
        let c0 = line.get_char(0);
        if c0 == '-' || c0 == '+' || c0 != '\\' {
            return true;
        }
        let nn = self.new_text.as_str().unicode_len();
        if nn > 0 {
            return self.new_text.as_str().get_char(nn - 1) == '\n';
        }
        let no = self.old_text.as_str().unicode_len();
        if no > 0 {
            return self.old_text.as_str().get_char(no - 1) == '\n';
        }
        true
    }
}


/// The lines joined with one newline after each.
pub open spec fn join_nl(lines: Seq<Seq<char>>) -> Seq<char>
    decreases lines.len(),
{
    if lines.len() == 0 {
        Seq::empty()
    } else {
        lines[0] + seq!['\n'] + join_nl(lines.drop_first())
    }
}

/// The text one resolved work item contributes to the output: plain items
/// their own text, diff items the refiner's formatting of their pair under
/// their captured marker.
pub open spec fn resolves_to(item: ItemV, out: Seq<char>) -> bool {
    match item {
        ItemV::Plain { text } => out == text,
        ItemV::OldNew { old_text, new_text, marker } => {
            let m = crate::refiner::marker_or(marker);
            if old_text.len() == 0 || new_text.len() == 0 {
                out == join_nl(crate::refiner::spec_simple_merged(old_text, new_text, m))
            } else {
                exists|ops: Seq<crate::script::EditOp>|
                    {
                        &&& #[trigger] crate::script::valid_script(
                            ops,
                            crate::tokenizer::spec_tokenize(old_text),
                            crate::tokenizer::spec_tokenize(new_text),
                        )
                        &&& out == join_nl(
                            crate::refiner::spec_refined_sides(ops, m).0
                                + crate::refiner::spec_refined_sides(ops, m).1,
                        )
                    }
            }
        },
    }
}

/// The output of a resolved item sequence: each item's resolution, in item
/// order.  This is where the pipeline's ordering lives: the output depends
/// only on the order the items were created in, never on the order their
/// resolutions were computed in.
pub open spec fn resolves_all(items: Seq<ItemV>, out: Seq<char>) -> bool
    decreases items.len(),
{
    if items.len() == 0 {
        out == Seq::<char>::empty()
    } else {
        exists|head: Seq<char>|
            {
                &&& #[trigger] resolves_to(items[0], head)
                &&& head.is_prefix_of(out)
                &&& resolves_all(items.drop_first(), out.skip(head.len() as int))
            }
    }
}

proof fn lemma_resolves_snoc(items: Seq<ItemV>, out: Seq<char>, item: ItemV, head: Seq<char>)
    requires
        resolves_all(items, out),
        resolves_to(item, head),
    ensures
        resolves_all(items.push(item), out + head),
    decreases items.len(),
{
    if items.len() == 0 {
        assert(items.push(item)[0] == item);
        assert(items.push(item).drop_first() =~= Seq::<ItemV>::empty());
        assert(out + head =~= head);
        assert(head.is_prefix_of(out + head)) by {
            assert((out + head).subrange(0, head.len() as int) =~= head);
        }
        assert((out + head).skip(head.len() as int) =~= Seq::<char>::empty());
        assert(resolves_to(items.push(item)[0], head));
        assert(resolves_all(
            items.push(item).drop_first(),
            (out + head).skip(head.len() as int),
        ));
    } else {
        let h = choose|h: Seq<char>|
            {
                &&& #[trigger] resolves_to(items[0], h)
                &&& h.is_prefix_of(out)
                &&& resolves_all(items.drop_first(), out.skip(h.len() as int))
            };
        lemma_resolves_snoc(items.drop_first(), out.skip(h.len() as int), item, head);
        assert(items.push(item)[0] == items[0]);
        assert(items.push(item).drop_first() =~= items.drop_first().push(item));
        assert(h.is_prefix_of(out + head)) by {
            assert((out + head).subrange(0, h.len() as int) =~= out.subrange(0, h.len() as int));
        }
        assert((out + head).skip(h.len() as int) =~= out.skip(h.len() as int) + head);
        assert(resolves_to(items.push(item)[0], h));
        assert(resolves_all(items.push(item).drop_first(), (out + head).skip(h.len() as int)));
    }
}

/// One driver step: a commit line is formatted by the driver's collaborator
/// (here: passed through unchanged) and re-fed as a plain line; every other
/// line is consumed as [`spec_consume`] describes.
pub open spec fn driver_step(pre: LcV, line: Seq<char>, post: LcV) -> bool {
    let d = LcV { diff_seen: pre.diff_seen || "diff"@.is_prefix_of(line), ..pre };
    if is_commit_class(line) {
        post == after_plain_line(d, line)
    } else {
        spec_consume(pre, line, post)
    }
}

/// The collector states a line sequence can drive the collector through.
pub open spec fn consume_trace(s0: LcV, lines: Seq<Seq<char>>, s1: LcV) -> bool
    decreases lines.len(),
{
    if lines.len() == 0 {
        s1 == s0
    } else {
        exists|mid: LcV|
            {
                &&& #[trigger] driver_step(s0, lines[0], mid)
                &&& consume_trace(mid, lines.drop_first(), s1)
            }
    }
}

proof fn lemma_trace_snoc(s0: LcV, lines: Seq<Seq<char>>, s1: LcV, line: Seq<char>, s2: LcV)
    requires
        consume_trace(s0, lines, s1),
        driver_step(s1, line, s2),
    ensures
        consume_trace(s0, lines.push(line), s2),
    decreases lines.len(),
{
    if lines.len() == 0 {
        assert(lines.push(line)[0] == line);
        assert(lines.push(line).drop_first() =~= Seq::<Seq<char>>::empty());
        assert(driver_step(s0, lines.push(line)[0], s2));
        assert(consume_trace(s2, lines.push(line).drop_first(), s2));
    } else {
        let mid = choose|mid: LcV|
            {
                &&& #[trigger] driver_step(s0, lines[0], mid)
                &&& consume_trace(mid, lines.drop_first(), s1)
            };
        lemma_trace_snoc(mid, lines.drop_first(), s1, line, s2);
        assert(lines.push(line)[0] == lines[0]);
        assert(lines.push(line).drop_first() =~= lines.drop_first().push(line));
        assert(driver_step(s0, lines.push(line)[0], mid));
    }
}

/// Feeds input lines through a collector in order and resolves the emitted
/// work items in creation order.  The output is the concatenation of the
/// items' resolutions in exactly the order the items were created, which is
/// the order the lines arrived in; nothing about it depends on when each
/// item's rendering was computed.  `None` comes back exactly for the input
/// the accumulator must refuse: a marker line arriving while the buffer it
/// pops does not end in a newline.
pub fn highlight_lines(lines: &Vec<String>) -> (r: Option<String>)
    ensures
        r matches Some(out) ==> exists|s: LcV|
            {
                &&& #[trigger] consume_trace(init_lc(), lines.deep_view(), s)
                &&& resolves_all(after_drain_plain(after_drain_oldnew(s)).items, out@)
            },
        r is None ==> exists|i: int, s: LcV|
            {
                &&& 0 <= i < lines.deep_view().len()
                &&& #[trigger] consume_trace(init_lc(), lines.deep_view().subrange(0, i), s)
                &&& !marker_precondition(s, lines.deep_view()[i])
            },
{
    broadcast use {lemma_item_views_index, lemma_item_views_len};

    let mut collector = LineCollector::new();
    let mut i: usize = 0;
    proof {
        assert(lines.deep_view().subrange(0, 0) =~= Seq::<Seq<char>>::empty());
    }
    while i < lines.len()
        invariant
            i <= lines@.len(),
            lines.deep_view().len() == lines@.len(),
            consume_trace(init_lc(), lines.deep_view().subrange(0, i as int), collector@),
        decreases lines@.len() - i,
    {
        let ghost pre = collector@;
        proof {
            assert(lines@[i as int]@ == lines.deep_view()[i as int]);
        }
        if !collector.can_consume(lines[i].as_str()) {
            return None;
        }
        match collector.consume_line(lines[i].as_str()) {
            ConsumeOutcome::CommitLine => {
                // Commit-line formatting belongs to an outside collaborator;
                // the sequential driver passes the line through unchanged.
                collector.consume_plain_line(lines[i].as_str());
            },
            ConsumeOutcome::Consumed => {},
        }
        proof {
            assert(driver_step(pre, lines.deep_view()[i as int], collector@));
            lemma_trace_snoc(
                init_lc(),
                lines.deep_view().subrange(0, i as int),
                pre,
                lines.deep_view()[i as int],
                collector@,
            );
            assert(lines.deep_view().subrange(0, i as int).push(lines.deep_view()[i as int])
                =~= lines.deep_view().subrange(0, i + 1));
        }
        i = i + 1;
    }
    proof {
        assert(lines.deep_view().subrange(0, lines@.len() as int) =~= lines.deep_view());
    }
    let ghost end_state = collector@;
    collector.finish();
    let items = collector.take_items();
    let ghost itemsv = item_views(items@);
    let mut out = String::new();
    let mut k: usize = 0;
    proof {
        assert(itemsv.subrange(0, 0) =~= Seq::<ItemV>::empty());
        assert(resolves_all(itemsv.subrange(0, 0), out@));
    }
    while k < items.len()
        invariant
            k <= items@.len(),
            itemsv == item_views(items@),
            resolves_all(itemsv.subrange(0, k as int), out@),
        decreases items@.len() - k,
    {
        let ghost out_pre = out@;
        let ghost item = itemsv[k as int];
        proof {
            assert(items@[k as int]@ == itemsv[k as int]);
        }
        let ghost head = arbitrary::<Seq<char>>();
        match &items[k] {
            WorkItem::Plain(text) => {
                out.append(text.as_str());
                proof {
                    assert(resolves_to(item, text@));
                    lemma_resolves_snoc(itemsv.subrange(0, k as int), out_pre, item, text@);
                }
            },
            WorkItem::OldNew { old_text, new_text, marker } => {
                let formatted = crate::refiner::format_with_marker(
                    old_text.as_str(),
                    new_text.as_str(),
                    marker,
                );
                let ghost fv = formatted.deep_view();
                let mut j: usize = 0;
                proof {
                    assert(fv.subrange(0, fv.len() as int) =~= fv);
                    assert(out_pre + join_nl(fv) =~= out@ + join_nl(
                        fv.subrange(0, fv.len() as int),
                    ));
                }
                while j < formatted.len()
                    invariant
                        j <= formatted@.len(),
                        fv == formatted.deep_view(),
                        fv.len() == formatted@.len(),
                        out_pre + join_nl(fv) == out@ + join_nl(
                            fv.subrange(j as int, fv.len() as int),
                        ),
                    decreases formatted@.len() - j,
                {
                    proof {
                        assert(formatted@[j as int]@ == fv[j as int]);
                        assert(fv.subrange(j as int, fv.len() as int)[0] == fv[j as int]);
                        assert(fv.subrange(j as int, fv.len() as int).drop_first() =~= fv.subrange(
                            j + 1,
                            fv.len() as int,
                        ));
                    }
                    out.append(formatted[j].as_str());
                    out.push('\n');
                    j = j + 1;
                }
                proof {
                    assert(fv.subrange(fv.len() as int, fv.len() as int) =~= Seq::<
                        Seq<char>,
                    >::empty());
                    assert(out@ =~= out_pre + join_nl(fv));
                    assert(resolves_to(item, join_nl(fv)));
                    lemma_resolves_snoc(itemsv.subrange(0, k as int), out_pre, item, join_nl(fv));
                }
            },
        }
        proof {
            assert(itemsv.subrange(0, k as int).push(itemsv[k as int]) =~= itemsv.subrange(
                0,
                k + 1,
            ));
        }
        k = k + 1;
    }
    proof {
        assert(itemsv.subrange(0, items@.len() as int) =~= itemsv);
        assert(consume_trace(init_lc(), lines.deep_view(), end_state));
        assert(resolves_all(after_drain_plain(after_drain_oldnew(end_state)).items, out@));
    }
    Some(out)
}

} // verus!
