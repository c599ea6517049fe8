//! Token-level edit scripts.
//!
//! An [`EditOp`] says of one token whether it is shared by both sides of a
//! diff block (`Copy`), only on the new side (`Insert`), or only on the old
//! side (`Remove`).  A valid script reconstructs both sides: its `Copy` and
//! `Remove` tokens are exactly the old side's tokens in order, and its `Copy`
//! and `Insert` tokens are exactly the new side's.  The script itself comes
//! from an outside longest-common-subsequence computation.

use vstd::prelude::*;

use diffus::edit::collection::Edit as CollectionEdit;
use diffus::edit::Edit as DiffEdit;
use diffus::Diffable;

verus! {

/// One step of a token-level edit script.
pub enum EditOp {
    Copy(String),
    Insert(String),
    Remove(String),
}

/// The token an edit step carries.
pub open spec fn op_token(op: EditOp) -> Seq<char> {
    match op {
        EditOp::Copy(t) => t@,
        EditOp::Insert(t) => t@,
        EditOp::Remove(t) => t@,
    }
}

/// The old side a script describes: its `Copy` and `Remove` tokens in order.
pub open spec fn ops_old(ops: Seq<EditOp>) -> Seq<Seq<char>>
    decreases ops.len(),
{
    if ops.len() == 0 {
        Seq::empty()
    } else {
        match ops[0] {
            EditOp::Insert(_) => ops_old(ops.drop_first()),
            _ => seq![op_token(ops[0])] + ops_old(ops.drop_first()),
        }
    }
}

/// The new side a script describes: its `Copy` and `Insert` tokens in order.
pub open spec fn ops_new(ops: Seq<EditOp>) -> Seq<Seq<char>>
    decreases ops.len(),
{
    if ops.len() == 0 {
        Seq::empty()
    } else {
        match ops[0] {
            EditOp::Remove(_) => ops_new(ops.drop_first()),
            _ => seq![op_token(ops[0])] + ops_new(ops.drop_first()),
        }
    }
}

/// Whether `ops` is an edit script from `old_tokens` to `new_tokens`.
pub open spec fn valid_script(
    ops: Seq<EditOp>,
    old_tokens: Seq<Seq<char>>,
    new_tokens: Seq<Seq<char>>,
) -> bool {
    ops_old(ops) == old_tokens && ops_new(ops) == new_tokens
}

/// The number of `Copy` steps in a script.
pub open spec fn copy_count(ops: Seq<EditOp>) -> int
    decreases ops.len(),
{
    if ops.len() == 0 {
        0
    } else {
        (if ops[0] is Copy {
            1int
        } else {
            0
        }) + copy_count(ops.drop_first())
    }
}

/// The number of `Insert` steps in a script.
pub open spec fn insert_count(ops: Seq<EditOp>) -> int
    decreases ops.len(),
{
    if ops.len() == 0 {
        0
    } else {
        (if ops[0] is Insert {
            1int
        } else {
            0
        }) + insert_count(ops.drop_first())
    }
}

/// The number of `Remove` steps in a script.
pub open spec fn remove_count(ops: Seq<EditOp>) -> int
    decreases ops.len(),
{
    if ops.len() == 0 {
        0
    } else {
        (if ops[0] is Remove {
            1int
        } else {
            0
        }) + remove_count(ops.drop_first())
    }
}

/// Both sides of a valid script consume the same number of `Copy` tokens:
/// the length of the shared subsequence, which is the old side's length less
/// the removals, and equally the new side's length less the insertions.
pub proof fn lemma_copy_count_symmetry(
    ops: Seq<EditOp>,
    old_tokens: Seq<Seq<char>>,
    new_tokens: Seq<Seq<char>>,
)
    requires
        valid_script(ops, old_tokens, new_tokens),
    ensures
        copy_count(ops) + remove_count(ops) == old_tokens.len(),
        copy_count(ops) + insert_count(ops) == new_tokens.len(),
    decreases ops.len(),
{
    if ops.len() == 0 {
    } else {
        let rest = ops.drop_first();
        match ops[0] {
            EditOp::Copy(_) => {
                assert(ops_old(rest) =~= old_tokens.drop_first());
                assert(ops_new(rest) =~= new_tokens.drop_first());
                lemma_copy_count_symmetry(rest, old_tokens.drop_first(), new_tokens.drop_first());
            },
            EditOp::Insert(_) => {
                assert(ops_new(rest) =~= new_tokens.drop_first());
                lemma_copy_count_symmetry(rest, old_tokens, new_tokens.drop_first());
            },
            EditOp::Remove(_) => {
                assert(ops_old(rest) =~= old_tokens.drop_first());
                lemma_copy_count_symmetry(rest, old_tokens.drop_first(), new_tokens);
            },
        }
    }
}

/// When both sides' tokens are nonempty, so is every token a valid script
/// carries.
pub proof fn lemma_ops_tokens_nonempty(
    ops: Seq<EditOp>,
    old_tokens: Seq<Seq<char>>,
    new_tokens: Seq<Seq<char>>,
)
    requires
        valid_script(ops, old_tokens, new_tokens),
        forall|i: int| 0 <= i < old_tokens.len() ==> #[trigger] old_tokens[i].len() > 0,
        forall|i: int| 0 <= i < new_tokens.len() ==> #[trigger] new_tokens[i].len() > 0,
    ensures
        forall|i: int| 0 <= i < ops.len() ==> #[trigger] op_token(ops[i]).len() > 0,
    decreases ops.len(),
{
    if ops.len() == 0 {
    } else {
        let rest = ops.drop_first();
        match ops[0] {
            EditOp::Copy(_) => {
                assert(op_token(ops[0]) == old_tokens[0]);
                assert(ops_old(rest) =~= old_tokens.drop_first());
                assert(ops_new(rest) =~= new_tokens.drop_first());
                lemma_ops_tokens_nonempty(rest, old_tokens.drop_first(), new_tokens.drop_first());
            },
            EditOp::Insert(_) => {
                assert(op_token(ops[0]) == new_tokens[0]);
                assert(ops_new(rest) =~= new_tokens.drop_first());
                lemma_ops_tokens_nonempty(rest, old_tokens, new_tokens.drop_first());
            },
            EditOp::Remove(_) => {
                assert(op_token(ops[0]) == old_tokens[0]);
                assert(ops_old(rest) =~= old_tokens.drop_first());
                lemma_ops_tokens_nonempty(rest, old_tokens.drop_first(), new_tokens);
            },
        }
        assert forall|i: int| 0 <= i < ops.len() implies #[trigger] op_token(ops[i]).len() > 0 by {
            if i > 0 {
                assert(ops[i] == rest[i - 1]);
            }
        }
    }
}

/// Borrows each token as a string slice.
pub fn str_refs<'a>(tokens: &'a Vec<String>) -> (r: Vec<&'a str>)
    ensures
        r.deep_view() == tokens.deep_view(),
{
    let mut r: Vec<&str> = Vec::new();
    let mut i: usize = 0;
    while i < tokens.len()
        invariant
            i <= tokens@.len(),
            r.deep_view().len() == i,
            forall|j: int| 0 <= j < i ==> r.deep_view()[j] == tokens.deep_view()[j],
        decreases tokens@.len() - i,
    {
        r.push(tokens[i].as_str());
        i = i + 1;
    }
    proof {
        assert(r.deep_view() =~= tokens.deep_view());
    }
    r
}

/// Relies on diffus's longest-common-subsequence diff over token lists
/// (`Vec<&str>`): the edit script walks both inputs in order, emitting every
/// old token as `Copy` or `Remove` and every new token as `Copy` or `Insert`.
/// Element-wise `Change` steps cannot arise for string tokens, whose `Same`
/// relation is equality, so the result is always `Some`.
#[verifier::external_body]
pub fn token_diff(old_tokens: &Vec<&str>, new_tokens: &Vec<&str>) -> (r: Option<Vec<EditOp>>)
    ensures
        r is Some,
        r matches Some(ops) ==> valid_script(
            ops@,
            old_tokens.deep_view(),
            new_tokens.deep_view(),
        ),
{
    match Diffable::diff(old_tokens, new_tokens) {
        DiffEdit::Copy(ts) => Some(ts.iter().map(|t| EditOp::Copy(t.to_string())).collect()),
        DiffEdit::Change(es) => es.into_iter().map(
            |e| match e {
                CollectionEdit::Copy(t) => Some(EditOp::Copy(t.to_string())),
                CollectionEdit::Insert(t) => Some(EditOp::Insert(t.to_string())),
                CollectionEdit::Remove(t) => Some(EditOp::Remove(t.to_string())),
                CollectionEdit::Change(_) => None,
            },
        ).collect(),
    }
}

} // verus!
