//! The lowering preset for features that became native at the ES2021 level.
//!
//! Its one pass strips digit-group separators from numeric literals: the
//! literal text `1_000_000` becomes `1000000`, with the same numeric value.

use vstd::prelude::*;

use crate::ast::{Node, NodeV};
use crate::transformer::{Intents, Pass, TransformCtx, Transformer};

verus! {

/// The digit-group separator byte, `_`.
pub open spec fn is_sep(b: u8) -> bool {
    b == 95
}

/// A decimal digit byte, `0` through `9`.
pub open spec fn is_digit(b: u8) -> bool {
    48 <= b <= 57
}

/// Whether the literal text holds a digit-group separator.
pub open spec fn has_sep(s: Seq<u8>) -> bool {
    exists|i: int| 0 <= i < s.len() && is_sep(s[i])
}

/// The literal text with every digit-group separator removed.
pub open spec fn strip_seps(s: Seq<u8>) -> Seq<u8>
    decreases s.len(),
{
    if s.len() == 0 {
        Seq::empty()
    } else if is_sep(s.last()) {
        strip_seps(s.drop_last())
    } else {
        strip_seps(s.drop_last()).push(s.last())
    }
}

/// The numeric value of the literal text: its decimal digits read from left
/// to right, with every other byte ignored.
pub open spec fn digits_value(s: Seq<u8>) -> nat
    decreases s.len(),
{
    if s.len() == 0 {
        0
    } else if is_digit(s.last()) {
        digits_value(s.drop_last()) * 10 + ((s.last() - 48) as nat)
    } else {
        digits_value(s.drop_last())
    }
}

/// Stripping leaves no separator behind.
pub proof fn lemma_strip_no_sep(s: Seq<u8>)
    ensures
        forall|i: int| 0 <= i < strip_seps(s).len() ==> !is_sep(strip_seps(s)[i]),
        !has_sep(strip_seps(s)),
    decreases s.len(),
{
    if s.len() > 0 {
        lemma_strip_no_sep(s.drop_last());
    }
}

/// Stripping separators does not change the numeric value of the text.
pub proof fn lemma_strip_value(s: Seq<u8>)
    ensures
        digits_value(strip_seps(s)) == digits_value(s),
    decreases s.len(),
{
    if s.len() > 0 {
        lemma_strip_value(s.drop_last());
        if !is_sep(s.last()) {
            assert(strip_seps(s.drop_last()).push(s.last()).drop_last() =~= strip_seps(
                s.drop_last(),
            ));
        }
    }
}

/// Text without a separator is unchanged by stripping.
pub proof fn lemma_strip_id(s: Seq<u8>)
    requires
        !has_sep(s),
    ensures
        strip_seps(s) == s,
    decreases s.len(),
{
    if s.len() > 0 {
        assert(!is_sep(s.last()));
        assert(!has_sep(s.drop_last()));
        lemma_strip_id(s.drop_last());
        assert(strip_seps(s) =~= s);
    }
}

/// Whether the literal text holds a digit-group separator.
pub fn contains_separator(raw: &Vec<u8>) -> (r: bool)
    ensures
        r == has_sep(raw@),
{
    let mut i: usize = 0;
    while i < raw.len()
        invariant
            i <= raw.len(),
            forall|j: int| 0 <= j < i ==> !is_sep(raw@[j]),
        decreases raw.len() - i,
    {
        if raw[i] == 95 {
            return true;
        }
        i = i + 1;
    }
    false
}

/// The literal text with every digit-group separator removed.
pub fn strip_separators(raw: &Vec<u8>) -> (r: Vec<u8>)
    ensures
        r@ == strip_seps(raw@),
{
    let mut out: Vec<u8> = Vec::new();
    let mut i: usize = 0;
    while i < raw.len()
        invariant
            i <= raw.len(),
            out@ == strip_seps(raw@.take(i as int)),
        decreases raw.len() - i,
    {
        proof {
            assert(raw@.take(i + 1 as int).drop_last() =~= raw@.take(i as int));
        }
        if raw[i] != 95 {
            out.push(raw[i]);
        }
        i = i + 1;
    }
    proof {
        assert(raw@.take(raw@.len() as int) =~= raw@);
    }
    out
}

/// The pass lowering numeric literals with digit-group separators.  On
/// entering a numeric literal whose text holds a separator it proposes a
/// replacement literal with the separators stripped; it has no leave-phase
/// behaviour and no symbol interaction.
#[derive(Clone, Copy)]
pub struct NumericSeparator;

/// The intents the separator pass files for one enter-hook invocation.
pub open spec fn strip_intents(node: NodeV) -> Intents {
    match node {
        NodeV::NumericLiteral { raw } => if has_sep(raw) {
            Intents {
                replacement: Some(NodeV::NumericLiteral { raw: strip_seps(raw) }),
                removals: Set::empty(),
                renames: Map::empty(),
            }
        } else {
            Intents::empty()
        },
        _ => Intents::empty(),
    }
}

impl Transformer for NumericSeparator {
    open spec fn hook_spec(self, node: NodeV, on_leave: bool) -> (Self, Intents) {
        (self, if on_leave {
            Intents::empty()
        } else {
            strip_intents(node)
        })
    }

    fn transform(&mut self, node: &Node, ctx: &mut TransformCtx) {
        match node {
            Node::NumericLiteral { raw } => {
                if contains_separator(raw) {
                    let stripped = strip_separators(raw);
                    ctx.replace_node(Node::NumericLiteral { raw: stripped });
                }
            },
            _ => {},
        }
    }

    fn transform_on_leave(&mut self, _node: &Node, _ctx: &mut TransformCtx) {
    }
}

/// The ordered pass list of this preset.
pub fn preset() -> (r: Vec<Pass>)
    ensures
        r@ =~= seq![Pass::NumericSeparator(NumericSeparator)],
{
    let mut passes: Vec<Pass> = Vec::new();
    passes.push(Pass::NumericSeparator(NumericSeparator));
    passes
}

} // verus!
