//! The pass interface and the per-invocation transform context.
//!
//! A pass never mutates the tree or the symbol table itself: during one hook
//! invocation it files intents — symbol removals, symbol renames, and at most
//! one whole-node replacement — into a fresh [`TransformCtx`].  The
//! orchestrator drains the replacement and applies the symbol intents.

use vstd::prelude::*;

use crate::ast::{Node, NodeV, node_view};
use crate::es2021::NumericSeparator;

verus! {

/// The model of one context: what a pass asked for during one invocation.
#[verifier::ext_equal]
pub ghost struct Intents {
    /// The node value proposed for the slot, if any; a later proposal
    /// within the same context supersedes an earlier one.
    pub replacement: Option<NodeV>,
    /// The symbols marked for removal.
    pub removals: Set<u32>,
    /// The new name for each symbol marked for renaming; a later rename of
    /// the same symbol supersedes an earlier one.
    pub renames: Map<u32, Seq<char>>,
}

impl Intents {
    /// The content of a freshly created context: nothing asked for.
    pub open spec fn empty() -> Intents {
        Intents { replacement: None, removals: Set::empty(), renames: Map::empty() }
    }
}

/// The set of symbol identities in a removal list.
pub open spec fn ids_set(s: Seq<u32>) -> Set<u32>
    decreases s.len(),
{
    if s.len() == 0 {
        Set::empty()
    } else {
        ids_set(s.drop_last()).insert(s.last())
    }
}

/// The map recorded by a rename list; a later entry for the same symbol
/// overrides an earlier one.
pub open spec fn rename_map(s: Seq<(u32, String)>) -> Map<u32, Seq<char>>
    decreases s.len(),
{
    if s.len() == 0 {
        Map::empty()
    } else {
        rename_map(s.drop_last()).insert(s.last().0, s.last().1@)
    }
}

/// The record of one pass invocation's declared mutation intents.
pub struct TransformCtx {
    pub(crate) removed_symbols: Vec<u32>,
    pub(crate) renamed_symbols: Vec<(u32, String)>,
    pub(crate) replaced_node: Option<Node>,
}

impl View for TransformCtx {
    type V = Intents;

    closed spec fn view(&self) -> Intents {
        Intents {
            replacement: match self.replaced_node {
                Some(n) => Some(node_view(n)),
                None => None,
            },
            removals: ids_set(self.removed_symbols@),
            renames: rename_map(self.renamed_symbols@),
        }
    }
}

impl Default for TransformCtx {
    /// A fresh context holds no intents.
    fn default() -> (r: Self)
        ensures
            r@ == Intents::empty(),
    {
        TransformCtx { removed_symbols: Vec::new(), renamed_symbols: Vec::new(), replaced_node: None }
    }
}

impl TransformCtx {
    /// Mark a symbol for removal.  Marking the same symbol again changes
    /// nothing further.
    pub fn remove_symbol(&mut self, symbol_id: u32)
        ensures
            final(self)@ == (Intents {
                removals: old(self)@.removals.insert(symbol_id),
                ..old(self)@
            }),
    {
        self.removed_symbols.push(symbol_id);
        proof {
            assert(self.removed_symbols@.drop_last() =~= old(self).removed_symbols@);
            assert(self@ =~= (Intents {
                removals: old(self)@.removals.insert(symbol_id),
                ..old(self)@
            }));
        }
    }

    /// Mark a symbol for renaming.  The last rename recorded for a symbol
    /// within one context wins.
    pub fn rename_symbol(&mut self, symbol_id: u32, new_name: String)
        ensures
            final(self)@ == (Intents {
                renames: old(self)@.renames.insert(symbol_id, new_name@),
                ..old(self)@
            }),
    {
        self.renamed_symbols.push((symbol_id, new_name));
        proof {
            assert(self.renamed_symbols@.drop_last() =~= old(self).renamed_symbols@);
            assert(self@ =~= (Intents {
                renames: old(self)@.renames.insert(symbol_id, new_name@),
                ..old(self)@
            }));
        }
    }

    /// Propose a replacement value for the node slot under visit.  The last
    /// proposal within one context wins; the orchestrator checks the kind.
    pub fn replace_node(&mut self, node: Node)
        ensures
            final(self)@ == (Intents { replacement: Some(node@), ..old(self)@ }),
    {
        self.replaced_node = Some(node);
    }

    /// Drain the proposed replacement; at most one drain per context
    /// observes a value.
    pub fn get_replaced_node(&mut self) -> (r: Option<Node>)
        ensures
            final(self)@ == (Intents { replacement: None, ..old(self)@ }),
            match r {
                Some(n) => old(self)@.replacement == Some(n@),
                None => old(self)@.replacement is None,
            },
    {
        let mut taken: Option<Node> = None;
        core::mem::swap(&mut taken, &mut self.replaced_node);
        taken
    }
}

/// How a context's model is laid down in its fields; for the orchestrator's
/// synchronization step, which walks the recorded lists.
pub(crate) proof fn lemma_ctx_view(ctx: TransformCtx)
    ensures
        ctx@.removals == ids_set(ctx.removed_symbols@),
        ctx@.renames == rename_map(ctx.renamed_symbols@),
{
}

/// Law: within one context, a later rename of a symbol supersedes an
/// earlier rename of the same symbol, and leaves every other symbol's
/// recorded name alone.
pub proof fn lemma_rename_last_write_wins(
    m: Map<u32, Seq<char>>,
    symbol_id: u32,
    first: Seq<char>,
    second: Seq<char>,
)
    ensures
        m.insert(symbol_id, first).insert(symbol_id, second) == m.insert(symbol_id, second),
{
    assert(m.insert(symbol_id, first).insert(symbol_id, second) =~= m.insert(
        symbol_id,
        second,
    ));
}

/// Law: marking a symbol removed twice within one context records the same
/// removal set as marking it once.
pub proof fn lemma_remove_idempotent(s: Set<u32>, symbol_id: u32)
    ensures
        s.insert(symbol_id).insert(symbol_id) == s.insert(symbol_id),
{
    assert(s.insert(symbol_id).insert(symbol_id) =~= s.insert(symbol_id));
}

/// A unit of tree rewriting logic.  A pass is long-lived across the whole
/// traversal; each hook receives the node under visit and a fresh context.
pub trait Transformer: Sized {
    /// The abstract effect of one hook invocation on `node`: the pass's next
    /// state, and the intents it files into a fresh context.  The enter hook
    /// is described by `on_leave == false`, the leave hook by
    /// `on_leave == true`.
    spec fn hook_spec(self, node: NodeV, on_leave: bool) -> (Self, Intents);

    /// The enter hook, invoked before the node's children are traversed.
    fn transform(&mut self, node: &Node, ctx: &mut TransformCtx)
        requires
            old(ctx)@ == Intents::empty(),
        ensures
            *final(self) == old(self).hook_spec(node@, false).0,
            final(ctx)@ == old(self).hook_spec(node@, false).1,
    ;

    /// The leave hook, invoked after the node's children are traversed.
    fn transform_on_leave(&mut self, node: &Node, ctx: &mut TransformCtx)
        requires
            old(ctx)@ == Intents::empty(),
        ensures
            *final(self) == old(self).hook_spec(node@, true).0,
            final(ctx)@ == old(self).hook_spec(node@, true).1,
    ;
}

/// One pass instance out of the closed set of shipped passes.  The pass
/// list of a pipeline is a sequence of these, standing where a design with
/// open extension would box trait objects.
#[derive(Clone, Copy)]
pub enum Pass {
    NumericSeparator(NumericSeparator),
}

impl Transformer for Pass {
    open spec fn hook_spec(self, node: NodeV, on_leave: bool) -> (Self, Intents) {
        match self {
            Pass::NumericSeparator(p) => {
                let r = p.hook_spec(node, on_leave);
                (Pass::NumericSeparator(r.0), r.1)
            },
        }
    }

    fn transform(&mut self, node: &Node, ctx: &mut TransformCtx) {
        let mut inner = match *self {
            Pass::NumericSeparator(p) => p,
        };
        inner.transform(node, ctx);
        *self = Pass::NumericSeparator(inner);
    }

    fn transform_on_leave(&mut self, node: &Node, ctx: &mut TransformCtx) {
        let mut inner = match *self {
            Pass::NumericSeparator(p) => p,
        };
        inner.transform_on_leave(node, ctx);
        *self = Pass::NumericSeparator(inner);
    }
}

} // verus!
