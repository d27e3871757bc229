//! The pipeline orchestrator.
//!
//! For every node slot of a single depth-first traversal the orchestrator
//! takes the node's value, runs each active pass's enter hook in pipeline
//! order (a later pass observes the value as rewritten by an earlier one),
//! recurses into the children of the now-possibly-replaced value, runs each
//! pass's leave hook the same way, and writes the final value back.  A
//! replacement must keep the slot's kind.  Each context's symbol intents are
//! applied to the symbol table immediately after the pass invocation that
//! filed them, so later passes observe updated bindings.

use vstd::prelude::*;

use crate::ast::{
    forest_size, forest_view, lemma_forest_member_size, lemma_forest_size_split,
    lemma_forest_view, lemma_node_size_pos, node_size, node_view, Node, NodeKind, NodeV,
};
use crate::es2021;
use crate::es2021::{digits_value, has_sep, lemma_strip_id, lemma_strip_no_sep, lemma_strip_value, strip_seps, NumericSeparator};
use crate::options::{TransformOptions, TransformTarget};
use crate::semantic::{apply_removals_spec, apply_renames_spec, Semantic, SemanticV};
use crate::transformer::{Pass, TransformCtx, Transformer};

verus! {

/// A user-facing diagnostic produced during a run.  Diagnostics accumulate;
/// they never halt the traversal.
pub struct Diagnostic {
    /// What could not be lowered, in words.
    pub message: String,
}

/// The signal of the fatal protocol violation: a pass proposed a
/// replacement whose grammatical kind differs from its slot's.
pub struct KindMismatch {
    /// The kind the slot requires.
    pub expected: NodeKind,
    /// The kind the replacement carried.
    pub found: NodeKind,
}

/// The orchestrator's kind gate: a proposed replacement is accepted if and
/// only if it keeps the slot's kind; anything else is the unrecoverable
/// protocol violation, never a user-facing diagnostic.
pub fn check_replacement(expected: NodeKind, replacement: Node) -> (r: Result<Node, KindMismatch>)
    ensures
        match r {
            Ok(n) => n == replacement && n@.kind() == expected,
            Err(e) => replacement@.kind() != expected && e.expected == expected && e.found
                == replacement@.kind(),
        },
{
    let found = replacement.kind();
    if found == expected {
        Ok(replacement)
    } else {
        Err(KindMismatch { expected, found })
    }
}

/// The shared state a run works in: the semantic model and the run's
/// diagnostic list.
pub struct TranspilerCtx {
    /// The semantic model kept in lockstep with the traversal.
    pub semantic: Semantic,
    /// The diagnostics accumulated so far, in the order they were filed.
    pub errors: Vec<Diagnostic>,
}

impl TranspilerCtx {
    /// Wrap a semantic model with an empty diagnostic list.
    pub fn new(semantic: Semantic) -> (r: Self)
        ensures
            r.semantic == semantic,
            r.errors@ =~= Seq::<Diagnostic>::empty(),
    {
        TranspilerCtx { semantic, errors: Vec::new() }
    }

    /// File a diagnostic.
    pub fn error(&mut self, diagnostic: Diagnostic)
        ensures
            final(self).errors@ =~= old(self).errors@.push(diagnostic),
            final(self).semantic == old(self).semantic,
    {
        self.errors.push(diagnostic);
    }
}

/// The node value a slot holds after one pass's hook: the pass's proposed
/// replacement if it filed one, the incoming value otherwise.
pub open spec fn hook_node(p: Pass, n: NodeV, on_leave: bool) -> NodeV {
    match p.hook_spec(n, on_leave).1.replacement {
        Some(r) => r,
        None => n,
    }
}

/// The node value after one whole phase: each pass's hook applied in
/// pipeline order, a later pass observing the output of the one before it.
pub open spec fn phase_node(passes: Seq<Pass>, n: NodeV, on_leave: bool) -> NodeV
    decreases passes.len(),
{
    if passes.len() == 0 {
        n
    } else {
        phase_node(passes.drop_first(), hook_node(passes[0], n, on_leave), on_leave)
    }
}

/// Every shipped pass is well behaved: its hooks keep the pass's own state,
/// any replacement it proposes keeps the node's kind and grows no larger,
/// and it files no symbol intents.
pub proof fn lemma_pass_replacement(p: Pass, n: NodeV, on_leave: bool)
    ensures
        p.hook_spec(n, on_leave).0 == p,
        hook_node(p, n, on_leave).kind() == n.kind(),
        node_size(hook_node(p, n, on_leave)) <= node_size(n),
        p.hook_spec(n, on_leave).1.removals =~= Set::<u32>::empty(),
        p.hook_spec(n, on_leave).1.renames =~= Map::<u32, Seq<char>>::empty(),
{
    match p {
        Pass::NumericSeparator(_) => {
            match n {
                NodeV::NumericLiteral { .. } => {},
                _ => {},
            }
        },
    }
}

/// A whole phase keeps the slot's kind and never grows the tree.
pub proof fn lemma_phase(passes: Seq<Pass>, n: NodeV, on_leave: bool)
    ensures
        phase_node(passes, n, on_leave).kind() == n.kind(),
        node_size(phase_node(passes, n, on_leave)) <= node_size(n),
    decreases passes.len(),
{
    if passes.len() > 0 {
        lemma_pass_replacement(passes[0], n, on_leave);
        lemma_phase(passes.drop_first(), hook_node(passes[0], n, on_leave), on_leave);
    }
}

/// Law: pipeline order is observed.  For an earlier pass `a` and a later
/// pass `b`, one phase over `[a, b]` hands `b`'s hook exactly the value
/// rewritten by `a`'s hook, never the original value.
pub proof fn lemma_pipeline_order(a: Pass, b: Pass, n: NodeV, on_leave: bool)
    ensures
        phase_node(seq![a, b], n, on_leave) == hook_node(b, hook_node(a, n, on_leave), on_leave),
{
    let s = seq![a, b];
    assert(s.drop_first() =~= seq![b]);
    assert(seq![b].drop_first() =~= Seq::<Pass>::empty());
    assert(phase_node(seq![b], hook_node(a, n, on_leave), on_leave) == phase_node(
        Seq::<Pass>::empty(),
        hook_node(b, hook_node(a, n, on_leave), on_leave),
        on_leave,
    ));
}

/// The ordered pass list that a target level activates: a lowering preset
/// is included only while the requested target is strictly below the level
/// at which its feature became native.
pub open spec fn active_passes(target: TransformTarget) -> Seq<Pass> {
    if target.level() < TransformTarget::ES2021.level() {
        seq![Pass::NumericSeparator(NumericSeparator)]
    } else {
        Seq::empty()
    }
}

/// The pipeline orchestrator: the ordered, target-filtered pass list, the
/// shared run state, and the count of node slots visited so far.
pub struct Transpiler {
    /// The shared run state: semantic model and diagnostics.
    pub ctx: TranspilerCtx,
    /// The options the pipeline was built with.
    pub options: TransformOptions,
    /// The active passes, in pipeline order.
    pub transformers: Vec<Pass>,
    /// How many node slots the traversal has visited; every visited slot
    /// receives one enter-hook and one leave-hook invocation of every
    /// active pass.
    pub slots_visited: u64,
}

impl Transpiler {
    /// Whether the pipeline state is well formed.
    pub open spec fn wf(&self) -> bool {
        self.ctx.semantic.wf()
    }

    /// Build a pipeline for the given options around an existing semantic
    /// model.  Pass order is significant; the pass list holds exactly the
    /// presets the target level activates.
    pub fn new(semantic: Semantic, options: TransformOptions) -> (r: Self)
        requires
            semantic.wf(),
        ensures
            r.wf(),
            r.transformers@ =~= active_passes(options.target),
            r.options == options,
            r.slots_visited == 0,
            r.ctx.semantic == semantic,
            r.ctx.errors@ =~= Seq::<Diagnostic>::empty(),
    {
        let ctx = TranspilerCtx::new(semantic);
        let mut transformers: Vec<Pass> = Vec::new();
        if options.target.is_below(&TransformTarget::ES2021) {
            let mut preset = es2021::preset();
            transformers.append(&mut preset);
        }
        Transpiler { ctx, options, transformers, slots_visited: 0 }
    }
}

/// The children of a node hold strictly fewer nodes than the node's tree.
pub proof fn lemma_children_size(n: NodeV)
    ensures
        forest_size(n.children()) < node_size(n),
{
}

/// The value a slot ends with: the enter phase rewrites the incoming value,
/// the children of that result are visited recursively, and the leave phase
/// rewrites the node around the visited children.
pub open spec fn visit_spec(passes: Seq<Pass>, n: NodeV) -> NodeV
    decreases node_size(n), 1int
    via visit_spec_dec
{
    let entered = phase_node(passes, n, false);
    let walked = entered.with_children(visit_children_spec(passes, entered.children()));
    phase_node(passes, walked, true)
}

/// The visited forms of a sequence of child slots, in order.
pub open spec fn visit_children_spec(passes: Seq<Pass>, cs: Seq<NodeV>) -> Seq<NodeV>
    decreases forest_size(cs), 2int
    via visit_children_spec_dec
{
    if cs.len() == 0 {
        Seq::empty()
    } else {
        visit_children_spec(passes, cs.drop_last()).push(visit_spec(passes, cs.last()))
    }
}

#[via_fn]
proof fn visit_spec_dec(passes: Seq<Pass>, n: NodeV) {
    lemma_phase(passes, n, false);
    lemma_children_size(phase_node(passes, n, false));
}

#[via_fn]
proof fn visit_children_spec_dec(passes: Seq<Pass>, cs: Seq<NodeV>) {
    if cs.len() > 0 {
        lemma_node_size_pos(cs.last());
    }
}

/// How many slots one visit of `n` covers: the slot itself, plus the slots
/// of the children the traversal recurses into — the children of the value
/// the enter phase produced.
pub open spec fn visited_count(passes: Seq<Pass>, n: NodeV) -> nat
    decreases node_size(n), 1int
    via visited_count_dec
{
    1 + visited_children_count(passes, phase_node(passes, n, false).children())
}

/// The slots covered by visiting each child in a sequence.
pub open spec fn visited_children_count(passes: Seq<Pass>, cs: Seq<NodeV>) -> nat
    decreases forest_size(cs), 2int
    via visited_children_count_dec
{
    if cs.len() == 0 {
        0
    } else {
        visited_children_count(passes, cs.drop_last()) + visited_count(passes, cs.last())
    }
}

#[via_fn]
proof fn visited_count_dec(passes: Seq<Pass>, n: NodeV) {
    lemma_phase(passes, n, false);
    lemma_children_size(phase_node(passes, n, false));
}

#[via_fn]
proof fn visited_children_count_dec(passes: Seq<Pass>, cs: Seq<NodeV>) {
    if cs.len() > 0 {
        lemma_node_size_pos(cs.last());
    }
}

/// A visit covers no more slots than the tree holds nodes.
pub proof fn lemma_visited_le_size(passes: Seq<Pass>, n: NodeV)
    ensures
        visited_count(passes, n) <= node_size(n),
    decreases node_size(n), 1int,
{
    lemma_phase(passes, n, false);
    let entered = phase_node(passes, n, false);
    lemma_children_size(entered);
    lemma_visited_children_le(passes, entered.children());
}

/// Visiting a forest covers no more slots than the forest holds nodes.
pub proof fn lemma_visited_children_le(passes: Seq<Pass>, cs: Seq<NodeV>)
    ensures
        visited_children_count(passes, cs) <= forest_size(cs),
    decreases forest_size(cs), 2int,
{
    if cs.len() > 0 {
        lemma_node_size_pos(cs.last());
        lemma_visited_children_le(passes, cs.drop_last());
        lemma_visited_le_size(passes, cs.last());
    }
}

/// The parts of the semantic model the symbol intents of one phase leave
/// alone when every pass files none.
pub open spec fn sym_unchanged(a: SemanticV, b: SemanticV) -> bool {
    b.symbols.names == a.symbols.names && b.symbols.removed == a.symbols.removed
}

/// A balanced visit restores the traversal stacks and only appends to the
/// scope tree.
pub open spec fn stacks_restored(a: SemanticV, b: SemanticV) -> bool {
    b.scopes.stack == a.scopes.stack && b.node_stack == a.node_stack
        && a.scopes.parents.is_prefix_of(b.scopes.parents)
}

impl Transpiler {
    /// Run every active pass's hook once, in pipeline order, over one node
    /// slot's value.  Each pass receives the value left by the previous
    /// pass and a fresh context; its symbol intents are applied to the
    /// symbol table as soon as it returns, and its replacement, if any, is
    /// kind-checked and taken as the slot's current value.
    fn run_transformers(&mut self, node: Node, on_leave: bool) -> (r: Node)
        requires
            old(self).wf(),
        ensures
            final(self).wf(),
            r@ == phase_node(old(self).transformers@, node@, on_leave),
            final(self).transformers@ == old(self).transformers@,
            final(self).options == old(self).options,
            final(self).slots_visited == old(self).slots_visited,
            final(self).ctx.semantic@ == old(self).ctx.semantic@,
            final(self).ctx.errors@ == old(self).ctx.errors@,
    {
        let ghost passes = self.transformers@;
        let ghost n0 = node@;
        let mut node = node;
        let mut i: usize = 0;
        proof {
            assert(passes.skip(0) =~= passes);
        }
        while i < self.transformers.len()
            invariant
                self.wf(),
                i <= passes.len(),
                self.transformers@ == passes,
                self.options == old(self).options,
                self.slots_visited == old(self).slots_visited,
                self.ctx.semantic@ == old(self).ctx.semantic@,
                self.ctx.errors@ == old(self).ctx.errors@,
                phase_node(passes.skip(i as int), node@, on_leave) == phase_node(
                    passes,
                    n0,
                    on_leave,
                ),
            decreases passes.len() - i,
        {
            let ghost before = node@;
            let mut p = self.transformers[i];
            let mut tctx = TransformCtx::default();
            if on_leave {
                p.transform_on_leave(&node, &mut tctx);
            } else {
                p.transform(&node, &mut tctx);
            }
            proof {
                lemma_pass_replacement(passes[i as int], before, on_leave);
            }
            self.transformers.set(i, p);
            proof {
                assert(self.transformers@ =~= passes);
            }
            self.ctx.semantic.symbols.apply_intents(&tctx);
            proof {
                assert(self.ctx.semantic@.symbols.names =~= apply_renames_spec(
                    old(self).ctx.semantic@.symbols.names,
                    tctx@.renames,
                ));
                assert(apply_renames_spec(
                    old(self).ctx.semantic@.symbols.names,
                    tctx@.renames,
                ) =~= old(self).ctx.semantic@.symbols.names);
                assert(apply_removals_spec(
                    old(self).ctx.semantic@.symbols.removed,
                    tctx@.removals,
                ) =~= old(self).ctx.semantic@.symbols.removed);
                assert(self.ctx.semantic@ =~= old(self).ctx.semantic@);
            }
            match tctx.get_replaced_node() {
                Some(new_node) => {
                    let expected = node.kind();
                    match check_replacement(expected, new_node) {
                        Ok(accepted) => {
                            node = accepted;
                        },
                        Err(_) => {
                            // a shipped pass never proposes a foreign kind
                            proof {
                                assert(false);
                            }
                            vstd::pervasive::unreached()
                        },
                    }
                },
                None => {},
            }
            proof {
                assert(node@ == hook_node(passes[i as int], before, on_leave));
                assert(passes.skip(i as int).drop_first() =~= passes.skip(i + 1));
                assert(passes.skip(i as int)[0] == passes[i as int]);
            }
            i = i + 1;
        }
        proof {
            assert(passes.skip(passes.len() as int) =~= Seq::<Pass>::empty());
        }
        node
    }
}

/// Prefixes chain: a prefix of a prefix is a prefix.
pub proof fn lemma_prefix_trans(a: Seq<u32>, b: Seq<u32>, c: Seq<u32>)
    requires
        a.is_prefix_of(b),
        b.is_prefix_of(c),
    ensures
        a.is_prefix_of(c),
{
    assert(a =~= c.subrange(0, a.len() as int));
}

/// Whether entering a node of this kind opens a lexical scope.
pub open spec fn creates_scope(kind: NodeKind) -> bool {
    match kind {
        NodeKind::Program => true,
        NodeKind::ClassBody => true,
        NodeKind::NumericLiteral => false,
    }
}

/// Whether entering a node of this kind opens a lexical scope.
pub fn kind_creates_scope(kind: NodeKind) -> (r: bool)
    ensures
        r == creates_scope(kind),
{
    match kind {
        NodeKind::Program => true,
        NodeKind::ClassBody => true,
        NodeKind::NumericLiteral => false,
    }
}

impl Transpiler {
    /// Notify the semantic model that the traversal enters a node.
    pub fn enter_node(&mut self, kind: NodeKind)
        requires
            old(self).wf(),
        ensures
            final(self).wf(),
            final(self).ctx.semantic@.node_stack == old(self).ctx.semantic@.node_stack.push(kind),
            final(self).ctx.semantic@.scopes == old(self).ctx.semantic@.scopes,
            final(self).ctx.semantic@.symbols == old(self).ctx.semantic@.symbols,
            final(self).ctx.errors@ == old(self).ctx.errors@,
            final(self).transformers@ == old(self).transformers@,
            final(self).options == old(self).options,
            final(self).slots_visited == old(self).slots_visited,
    {
        self.ctx.semantic.node_stack.push(kind);
    }

    /// Notify the semantic model that the traversal leaves the node it
    /// entered last.
    pub fn leave_node(&mut self, kind: NodeKind)
        requires
            old(self).wf(),
            old(self).ctx.semantic@.node_stack.len() > 0,
            old(self).ctx.semantic@.node_stack.last() == kind,
        ensures
            final(self).wf(),
            final(self).ctx.semantic@.node_stack == old(
                self,
            ).ctx.semantic@.node_stack.drop_last(),
            final(self).ctx.semantic@.scopes == old(self).ctx.semantic@.scopes,
            final(self).ctx.semantic@.symbols == old(self).ctx.semantic@.symbols,
            final(self).ctx.errors@ == old(self).ctx.errors@,
            final(self).transformers@ == old(self).transformers@,
            final(self).options == old(self).options,
            final(self).slots_visited == old(self).slots_visited,
    {
        self.ctx.semantic.node_stack.pop();
    }

    /// Notify the semantic model that the traversal enters a scope: a
    /// fresh scope is created under the current one and made current.
    pub fn enter_scope(&mut self)
        requires
            old(self).wf(),
            old(self).ctx.semantic@.scopes.parents.len() < u32::MAX,
        ensures
            final(self).wf(),
            final(self).ctx.semantic@.scopes.stack == old(
                self,
            ).ctx.semantic@.scopes.stack.push(old(self).ctx.semantic@.scopes.parents.len() as u32),
            final(self).ctx.semantic@.scopes.parents.len() == old(
                self,
            ).ctx.semantic@.scopes.parents.len() + 1,
            old(self).ctx.semantic@.scopes.parents.is_prefix_of(
                final(self).ctx.semantic@.scopes.parents,
            ),
            final(self).ctx.semantic@.node_stack == old(self).ctx.semantic@.node_stack,
            final(self).ctx.semantic@.symbols == old(self).ctx.semantic@.symbols,
            final(self).ctx.errors@ == old(self).ctx.errors@,
            final(self).transformers@ == old(self).transformers@,
            final(self).options == old(self).options,
            final(self).slots_visited == old(self).slots_visited,
    {
        let _ = self.ctx.semantic.scopes.enter_scope();
    }

    /// Notify the semantic model that the traversal leaves the scope it
    /// entered last: strict LIFO order.
    pub fn leave_scope(&mut self)
        requires
            old(self).wf(),
            old(self).ctx.semantic@.scopes.stack.len() > 0,
        ensures
            final(self).wf(),
            final(self).ctx.semantic@.scopes.stack == old(
                self,
            ).ctx.semantic@.scopes.stack.drop_last(),
            final(self).ctx.semantic@.scopes.parents == old(self).ctx.semantic@.scopes.parents,
            final(self).ctx.semantic@.node_stack == old(self).ctx.semantic@.node_stack,
            final(self).ctx.semantic@.symbols == old(self).ctx.semantic@.symbols,
            final(self).ctx.errors@ == old(self).ctx.errors@,
            final(self).transformers@ == old(self).transformers@,
            final(self).options == old(self).options,
            final(self).slots_visited == old(self).slots_visited,
    {
        self.ctx.semantic.scopes.leave_scope();
    }

    /// Apply the three-step slot protocol to one node value: enter phase,
    /// recursion into the children of the possibly replaced value, leave
    /// phase.  The semantic model is notified of the node (and its scope,
    /// if it opens one) around the whole protocol.
    pub fn visit_node(&mut self, node: Node) -> (r: Node)
        requires
            old(self).wf(),
            old(self).slots_visited + node_size(node@) <= u64::MAX,
            old(self).ctx.semantic@.scopes.parents.len() + node_size(node@) <= u32::MAX,
        ensures
            final(self).wf(),
            r@ == visit_spec(old(self).transformers@, node@),
            final(self).transformers@ == old(self).transformers@,
            final(self).options == old(self).options,
            final(self).slots_visited == old(self).slots_visited + visited_count(
                old(self).transformers@,
                node@,
            ),
            final(self).ctx.semantic@.scopes.parents.len() <= old(
                self,
            ).ctx.semantic@.scopes.parents.len() + visited_count(old(self).transformers@, node@),
            sym_unchanged(old(self).ctx.semantic@, final(self).ctx.semantic@),
            stacks_restored(old(self).ctx.semantic@, final(self).ctx.semantic@),
            final(self).ctx.errors@ == old(self).ctx.errors@,
        decreases node_size(node@), 1int,
    {
        let ghost passes = self.transformers@;
        let ghost n0 = node@;
        proof {
            lemma_node_size_pos(n0);
            lemma_phase(passes, n0, false);
            lemma_children_size(phase_node(passes, n0, false));
            lemma_visited_children_le(passes, phase_node(passes, n0, false).children());
        }
        let kind = node.kind();
        self.enter_node(kind);
        let scoped = kind_creates_scope(kind);
        if scoped {
            self.enter_scope();
        }
        self.slots_visited = self.slots_visited + 1;
        let ghost sem_mid = self.ctx.semantic@;
        let entered = self.run_transformers(node, false);
        let walked = self.walk_children(entered);
        let r = self.run_transformers(walked, true);
        if scoped {
            self.leave_scope();
        }
        proof {
            assert(self.ctx.semantic@.node_stack.last() == kind);
        }
        self.leave_node(kind);
        proof {
            assert(self.ctx.semantic@.node_stack =~= old(self).ctx.semantic@.node_stack);
            assert(self.ctx.semantic@.scopes.stack =~= old(self).ctx.semantic@.scopes.stack);
            if !creates_scope(kind) {
                assert(sem_mid.scopes.parents =~= sem_mid.scopes.parents.subrange(
                    0,
                    sem_mid.scopes.parents.len() as int,
                ));
            }
            lemma_prefix_trans(
                old(self).ctx.semantic@.scopes.parents,
                sem_mid.scopes.parents,
                self.ctx.semantic@.scopes.parents,
            );
        }
        r
    }

    /// The generic structural walker: recurse into every child slot of the
    /// node value, applying the full slot protocol to each, and rebuild
    /// the node around the visited children.
    fn walk_children(&mut self, node: Node) -> (r: Node)
        requires
            old(self).wf(),
            old(self).slots_visited + forest_size(node@.children()) <= u64::MAX,
            old(self).ctx.semantic@.scopes.parents.len() + forest_size(node@.children())
                <= u32::MAX,
        ensures
            final(self).wf(),
            r@ == node@.with_children(
                visit_children_spec(old(self).transformers@, node@.children()),
            ),
            final(self).transformers@ == old(self).transformers@,
            final(self).options == old(self).options,
            final(self).slots_visited == old(self).slots_visited + visited_children_count(
                old(self).transformers@,
                node@.children(),
            ),
            final(self).ctx.semantic@.scopes.parents.len() <= old(
                self,
            ).ctx.semantic@.scopes.parents.len() + visited_children_count(
                old(self).transformers@,
                node@.children(),
            ),
            sym_unchanged(old(self).ctx.semantic@, final(self).ctx.semantic@),
            stacks_restored(old(self).ctx.semantic@, final(self).ctx.semantic@),
            final(self).ctx.errors@ == old(self).ctx.errors@,
        decreases node_size(node@), 0int,
    {
        match node {
            Node::NumericLiteral { raw } => {
                proof {
                    assert(visited_children_count(
                        self.transformers@,
                        NodeV::NumericLiteral { raw: raw@ }.children(),
                    ) == 0);
                    assert(self.ctx.semantic@.scopes.parents.is_prefix_of(
                        self.ctx.semantic@.scopes.parents,
                    ));
                }
                Node::NumericLiteral { raw }
            },
            Node::Program { children } => {
                let visited = self.walk_list(children);
                Node::Program { children: visited }
            },
            Node::ClassBody { children } => {
                let visited = self.walk_list(children);
                Node::ClassBody { children: visited }
            },
        }
    }

    /// Visit each slot of a child list in order.
    #[verifier::loop_isolation(false)]
    fn walk_list(&mut self, children: Vec<Node>) -> (r: Vec<Node>)
        requires
            old(self).wf(),
            old(self).slots_visited + forest_size(forest_view(children@)) <= u64::MAX,
            old(self).ctx.semantic@.scopes.parents.len() + forest_size(forest_view(children@))
                <= u32::MAX,
        ensures
            final(self).wf(),
            forest_view(r@) == visit_children_spec(
                old(self).transformers@,
                forest_view(children@),
            ),
            final(self).transformers@ == old(self).transformers@,
            final(self).options == old(self).options,
            final(self).slots_visited == old(self).slots_visited + visited_children_count(
                old(self).transformers@,
                forest_view(children@),
            ),
            final(self).ctx.semantic@.scopes.parents.len() <= old(
                self,
            ).ctx.semantic@.scopes.parents.len() + visited_children_count(
                old(self).transformers@,
                forest_view(children@),
            ),
            sym_unchanged(old(self).ctx.semantic@, final(self).ctx.semantic@),
            stacks_restored(old(self).ctx.semantic@, final(self).ctx.semantic@),
            final(self).ctx.errors@ == old(self).ctx.errors@,
        decreases forest_size(forest_view(children@)), 2int,
    {
        let ghost passes = self.transformers@;
        let ghost orig = children@;
        let ghost cs = forest_view(children@);
        proof {
            lemma_forest_view(orig);
            assert(cs.take(0) =~= Seq::<NodeV>::empty());
            assert(orig.skip(0) =~= orig);
            assert(self.ctx.semantic@.scopes.parents.is_prefix_of(
                self.ctx.semantic@.scopes.parents,
            ));
        }
        let mut rest = children;
        let mut out: Vec<Node> = Vec::new();
        while rest.len() > 0
            invariant
                self.wf(),
                out@.len() + rest@.len() == orig.len(),
                rest@ =~= orig.skip(out@.len() as int),
                cs.len() == orig.len(),
                forall|j: int| 0 <= j < orig.len() ==> cs[j] == node_view(orig[j]),
                forest_view(out@) == visit_children_spec(passes, cs.take(out@.len() as int)),
                self.transformers@ == passes,
                self.options == old(self).options,
                self.slots_visited == old(self).slots_visited + visited_children_count(
                    passes,
                    cs.take(out@.len() as int),
                ),
                old(self).slots_visited + forest_size(cs) <= u64::MAX,
                self.ctx.semantic@.scopes.parents.len() <= old(
                    self,
                ).ctx.semantic@.scopes.parents.len() + visited_children_count(
                    passes,
                    cs.take(out@.len() as int),
                ),
                old(self).ctx.semantic@.scopes.parents.len() + forest_size(cs) <= u32::MAX,
                sym_unchanged(old(self).ctx.semantic@, self.ctx.semantic@),
                stacks_restored(old(self).ctx.semantic@, self.ctx.semantic@),
                self.ctx.errors@ == old(self).ctx.errors@,
            decreases rest.len(),
        {
            let ghost k = out@.len() as int;
            proof {
                lemma_forest_size_split(cs, k);
                lemma_visited_children_le(passes, cs.take(k));
                assert(cs.skip(k)[0] == cs[k]);
                lemma_forest_member_size(cs.skip(k), 0);
                assert(node_size(cs[k]) <= forest_size(cs));
            }
            let c = rest.remove(0);
            proof {
                assert(c == orig[k]);
                assert(node_view(c) == cs[k]);
                assert(node_size(c@) <= forest_size(cs));
                lemma_visited_le_size(passes, cs[k]);
            }
            let ghost sem_before = self.ctx.semantic@;
            let ghost out_before = out@;
            let v = self.visit_node(c);
            out.push(v);
            proof {
                assert(rest@ =~= orig.skip(k + 1));
                assert(cs.take(k + 1).drop_last() =~= cs.take(k));
                assert(cs.take(k + 1).last() == cs[k]);
                assert(visit_children_spec(passes, cs.take(k + 1)) == visit_children_spec(
                    passes,
                    cs.take(k),
                ).push(visit_spec(passes, cs[k])));
                assert(out@.drop_last() =~= out_before);
                assert(forest_view(out@) == forest_view(out_before).push(node_view(v)));
                assert(forest_view(out@) == visit_children_spec(passes, cs.take(k + 1)));
                lemma_prefix_trans(
                    old(self).ctx.semantic@.scopes.parents,
                    sem_before.scopes.parents,
                    self.ctx.semantic@.scopes.parents,
                );
            }
        }
        proof {
            assert(cs.take(cs.len() as int) =~= cs);
            assert(out@.len() == orig.len());
        }
        out
    }

    /// Apply the slot protocol to a program slot in place.
    pub fn visit_program(&mut self, program: &mut Node)
        requires
            old(self).wf(),
            old(program)@.kind() == NodeKind::Program,
            old(self).slots_visited + node_size(old(program)@) <= u64::MAX,
            old(self).ctx.semantic@.scopes.parents.len() + node_size(old(program)@) <= u32::MAX,
        ensures
            final(self).wf(),
            final(program)@ == visit_spec(old(self).transformers@, old(program)@),
            final(self).transformers@ == old(self).transformers@,
            final(self).options == old(self).options,
            final(self).slots_visited == old(self).slots_visited + visited_count(
                old(self).transformers@,
                old(program)@,
            ),
            sym_unchanged(old(self).ctx.semantic@, final(self).ctx.semantic@),
            stacks_restored(old(self).ctx.semantic@, final(self).ctx.semantic@),
            final(self).ctx.errors@ == old(self).ctx.errors@,
    {
        self.visit_slot(program);
    }

    /// Apply the slot protocol to a class-body slot in place.
    pub fn visit_class_body(&mut self, body: &mut Node)
        requires
            old(self).wf(),
            old(body)@.kind() == NodeKind::ClassBody,
            old(self).slots_visited + node_size(old(body)@) <= u64::MAX,
            old(self).ctx.semantic@.scopes.parents.len() + node_size(old(body)@) <= u32::MAX,
        ensures
            final(self).wf(),
            final(body)@ == visit_spec(old(self).transformers@, old(body)@),
            final(self).transformers@ == old(self).transformers@,
            final(self).options == old(self).options,
            final(self).slots_visited == old(self).slots_visited + visited_count(
                old(self).transformers@,
                old(body)@,
            ),
            sym_unchanged(old(self).ctx.semantic@, final(self).ctx.semantic@),
            stacks_restored(old(self).ctx.semantic@, final(self).ctx.semantic@),
            final(self).ctx.errors@ == old(self).ctx.errors@,
    {
        self.visit_slot(body);
    }

    /// Apply the slot protocol to a node slot in place.
    fn visit_slot(&mut self, slot: &mut Node)
        requires
            old(self).wf(),
            old(self).slots_visited + node_size(old(slot)@) <= u64::MAX,
            old(self).ctx.semantic@.scopes.parents.len() + node_size(old(slot)@) <= u32::MAX,
        ensures
            final(self).wf(),
            final(slot)@ == visit_spec(old(self).transformers@, old(slot)@),
            final(self).transformers@ == old(self).transformers@,
            final(self).options == old(self).options,
            final(self).slots_visited == old(self).slots_visited + visited_count(
                old(self).transformers@,
                old(slot)@,
            ),
            sym_unchanged(old(self).ctx.semantic@, final(self).ctx.semantic@),
            stacks_restored(old(self).ctx.semantic@, final(self).ctx.semantic@),
            final(self).ctx.errors@ == old(self).ctx.errors@,
    {
        let mut taken = Node::NumericLiteral { raw: Vec::new() };
        core::mem::swap(slot, &mut taken);
        let visited = self.visit_node(taken);
        *slot = visited;
    }

    /// Execute the full pipeline over the tree in place.  The traversal
    /// never halts early; the diagnostics accumulated by the run are
    /// returned collectively once it finishes, and an empty list means
    /// success.
    pub fn run(&mut self, program: &mut Node) -> (r: Result<(), Vec<Diagnostic>>)
        requires
            old(self).wf(),
            old(program)@.kind() == NodeKind::Program,
            old(self).slots_visited + node_size(old(program)@) <= u64::MAX,
            old(self).ctx.semantic@.scopes.parents.len() + node_size(old(program)@) <= u32::MAX,
        ensures
            final(self).wf(),
            final(program)@ == visit_spec(old(self).transformers@, old(program)@),
            final(self).transformers@ == old(self).transformers@,
            final(self).options == old(self).options,
            final(self).slots_visited == old(self).slots_visited + visited_count(
                old(self).transformers@,
                old(program)@,
            ),
            sym_unchanged(old(self).ctx.semantic@, final(self).ctx.semantic@),
            stacks_restored(old(self).ctx.semantic@, final(self).ctx.semantic@),
            final(self).ctx.errors@.len() == 0,
            match r {
                Ok(u) => old(self).ctx.errors@.len() == 0,
                Err(errors) => errors@ == old(self).ctx.errors@ && errors@.len() > 0,
            },
    {
        self.visit_program(program);
        if self.ctx.errors.len() > 0 {
            let mut drained: Vec<Diagnostic> = Vec::new();
            core::mem::swap(&mut drained, &mut self.ctx.errors);
            Err(drained)
        } else {
            proof {
                assert(self.ctx.errors@ =~= old(self).ctx.errors@);
            }
            Ok(())
        }
    }
}

/// An empty pass list rewrites nothing: the visit returns the tree as it
/// came.
pub proof fn lemma_visit_empty(n: NodeV)
    ensures
        visit_spec(Seq::empty(), n) == n,
    decreases node_size(n), 1int,
{
    let e = Seq::<Pass>::empty();
    lemma_children_size(n);
    lemma_visit_children_empty(n.children());
    assert(phase_node(e, n, false) == n);
    assert(visit_children_spec(e, n.children()) == n.children());
    match n {
        NodeV::Program { .. } => {},
        NodeV::ClassBody { .. } => {},
        NodeV::NumericLiteral { .. } => {},
    }
    assert(n.with_children(n.children()) == n);
}

proof fn lemma_visit_children_empty(cs: Seq<NodeV>)
    ensures
        visit_children_spec(Seq::empty(), cs) =~= cs,
    decreases forest_size(cs), 2int,
{
    if cs.len() > 0 {
        lemma_node_size_pos(cs.last());
        lemma_visit_children_empty(cs.drop_last());
        lemma_visit_empty(cs.last());
    }
}

/// Law: target gating.  At or above the level where a preset's feature is
/// native the preset contributes nothing — the pass list is empty and a run
/// is the identity transform; below that level the list holds exactly the
/// preset's passes in order.
pub proof fn lemma_target_gating(target: TransformTarget, n: NodeV)
    ensures
        target.level() >= TransformTarget::ES2021.level() ==> active_passes(target)
            == Seq::<Pass>::empty() && visit_spec(active_passes(target), n) == n,
        target.level() < TransformTarget::ES2021.level() ==> active_passes(target) == seq![
            Pass::NumericSeparator(NumericSeparator),
        ],
{
    if target.level() >= TransformTarget::ES2021.level() {
        lemma_visit_empty(n);
    }
}

/// Whether no pass of the list ever proposes a replacement from its leave
/// hook.
pub open spec fn leave_inert(passes: Seq<Pass>) -> bool {
    forall|i: int, n: NodeV|
        0 <= i < passes.len() ==> (#[trigger] passes[i].hook_spec(n, true)).1.replacement is None
}

/// Every shipped pass confines its replacements to the enter phase.
pub proof fn lemma_all_passes_leave_inert(passes: Seq<Pass>)
    ensures
        leave_inert(passes),
{
    assert forall|i: int, n: NodeV| 0 <= i < passes.len() implies (#[trigger] passes[i].hook_spec(
        n,
        true,
    )).1.replacement is None by {
        match passes[i] {
            Pass::NumericSeparator(_) => {},
        }
    }
}

/// A leave phase whose passes propose nothing hands the node back as it
/// came.
proof fn lemma_leave_phase_identity(passes: Seq<Pass>, n: NodeV)
    requires
        leave_inert(passes),
    ensures
        phase_node(passes, n, true) == n,
    decreases passes.len(),
{
    if passes.len() > 0 {
        assert(passes[0].hook_spec(n, true).1.replacement is None);
        assert(hook_node(passes[0], n, true) == n);
        assert forall|i: int, m: NodeV|
            0 <= i < passes.drop_first().len() implies (#[trigger] passes.drop_first()[i].hook_spec(
            m,
            true,
        )).1.replacement is None by {
            assert(passes.drop_first()[i] == passes[i + 1]);
        }
        lemma_leave_phase_identity(passes.drop_first(), n);
    }
}

/// Law: full coverage.  When no pass substitutes during its leave phase,
/// the slots the traversal visits are exactly the nodes of the final tree:
/// every node of the output — original or substituted — received every
/// active pass's enter and leave hooks exactly once.
pub proof fn lemma_full_coverage(passes: Seq<Pass>, n: NodeV)
    requires
        leave_inert(passes),
    ensures
        visited_count(passes, n) == node_size(visit_spec(passes, n)),
    decreases node_size(n), 1int,
{
    lemma_phase(passes, n, false);
    let entered = phase_node(passes, n, false);
    lemma_children_size(entered);
    let vcs = visit_children_spec(passes, entered.children());
    let walked = entered.with_children(vcs);
    lemma_leave_phase_identity(passes, walked);
    lemma_full_coverage_children(passes, entered.children());
    match entered {
        NodeV::Program { .. } => {},
        NodeV::ClassBody { .. } => {},
        NodeV::NumericLiteral { .. } => {},
    }
    assert(node_size(walked) == 1 + forest_size(vcs));
}

proof fn lemma_full_coverage_children(passes: Seq<Pass>, cs: Seq<NodeV>)
    requires
        leave_inert(passes),
    ensures
        visited_children_count(passes, cs) == forest_size(visit_children_spec(passes, cs)),
    decreases forest_size(cs), 2int,
{
    if cs.len() > 0 {
        lemma_node_size_pos(cs.last());
        lemma_full_coverage_children(passes, cs.drop_last());
        lemma_full_coverage(passes, cs.last());
        assert(visit_children_spec(passes, cs).drop_last() =~= visit_children_spec(
            passes,
            cs.drop_last(),
        ));
        assert(visit_children_spec(passes, cs).last() == visit_spec(passes, cs.last()));
    }
}

/// The fully lowered form of a tree: every numeric literal's text with its
/// separators stripped, everything else kept.
pub open spec fn lowered(n: NodeV) -> NodeV
    decreases n,
{
    match n {
        NodeV::Program { children } => NodeV::Program { children: lowered_children(children) },
        NodeV::ClassBody { children } => NodeV::ClassBody { children: lowered_children(children) },
        NodeV::NumericLiteral { raw } => NodeV::NumericLiteral { raw: strip_seps(raw) },
    }
}

/// The fully lowered forms of a sequence of trees, in order.
pub open spec fn lowered_children(cs: Seq<NodeV>) -> Seq<NodeV>
    decreases cs,
{
    if cs.len() == 0 {
        Seq::empty()
    } else {
        lowered_children(cs.drop_last()).push(lowered(cs.last()))
    }
}

/// Whether no numeric literal anywhere in the tree holds a separator.
pub open spec fn no_separators(n: NodeV) -> bool
    decreases n,
{
    match n {
        NodeV::Program { children } => forest_no_separators(children),
        NodeV::ClassBody { children } => forest_no_separators(children),
        NodeV::NumericLiteral { raw } => !has_sep(raw),
    }
}

/// Whether no numeric literal in any of the trees holds a separator.
pub open spec fn forest_no_separators(cs: Seq<NodeV>) -> bool
    decreases cs,
{
    if cs.len() == 0 {
        true
    } else {
        forest_no_separators(cs.drop_last()) && no_separators(cs.last())
    }
}

/// Law: below the separator preset's threshold a run lowers the whole
/// tree — every numeric literal, at any depth, comes out with its
/// separators stripped, and nothing else changes.
pub proof fn lemma_lowering(target: TransformTarget, n: NodeV)
    requires
        target.level() < TransformTarget::ES2021.level(),
    ensures
        visit_spec(active_passes(target), n) == lowered(n),
    decreases node_size(n), 1int,
{
    let passes = active_passes(target);
    lemma_all_passes_leave_inert(passes);
    lemma_phase(passes, n, false);
    let entered = phase_node(passes, n, false);
    lemma_children_size(entered);
    assert(passes.drop_first() =~= Seq::<Pass>::empty());
    assert(entered == phase_node(
        Seq::<Pass>::empty(),
        hook_node(passes[0], n, false),
        false,
    ));
    assert(entered == hook_node(passes[0], n, false));
    let vcs = visit_children_spec(passes, entered.children());
    let walked = entered.with_children(vcs);
    lemma_leave_phase_identity(passes, walked);
    match n {
        NodeV::NumericLiteral { raw } => {
            if !has_sep(raw) {
                lemma_strip_id(raw);
            }
            assert(entered == NodeV::NumericLiteral { raw: strip_seps(raw) });
            assert(vcs =~= Seq::<NodeV>::empty());
        },
        NodeV::Program { children } => {
            assert(entered == n);
            lemma_lowering_children(target, children);
        },
        NodeV::ClassBody { children } => {
            assert(entered == n);
            lemma_lowering_children(target, children);
        },
    }
}

proof fn lemma_lowering_children(target: TransformTarget, cs: Seq<NodeV>)
    requires
        target.level() < TransformTarget::ES2021.level(),
    ensures
        visit_children_spec(active_passes(target), cs) == lowered_children(cs),
    decreases forest_size(cs), 2int,
{
    if cs.len() > 0 {
        lemma_node_size_pos(cs.last());
        lemma_lowering_children(target, cs.drop_last());
        lemma_lowering(target, cs.last());
    }
}

/// Law: the lowered form of any tree holds no separator anywhere.
pub proof fn lemma_lowered_no_separators(n: NodeV)
    ensures
        no_separators(lowered(n)),
    decreases n,
{
    match n {
        NodeV::NumericLiteral { raw } => {
            lemma_strip_no_sep(raw);
        },
        NodeV::Program { children } => {
            lemma_lowered_children_no_separators(children);
        },
        NodeV::ClassBody { children } => {
            lemma_lowered_children_no_separators(children);
        },
    }
}

proof fn lemma_lowered_children_no_separators(cs: Seq<NodeV>)
    ensures
        forest_no_separators(lowered_children(cs)),
    decreases cs,
{
    if cs.len() > 0 {
        lemma_lowered_children_no_separators(cs.drop_last());
        lemma_lowered_no_separators(cs.last());
        assert(lowered_children(cs).drop_last() =~= lowered_children(cs.drop_last()));
    }
}

/// The numeric values of the tree's literals, in traversal order.
pub open spec fn literal_values(n: NodeV) -> Seq<nat>
    decreases n,
{
    match n {
        NodeV::Program { children } => forest_literal_values(children),
        NodeV::ClassBody { children } => forest_literal_values(children),
        NodeV::NumericLiteral { raw } => seq![digits_value(raw)],
    }
}

/// The numeric values of a forest's literals, in traversal order.
pub open spec fn forest_literal_values(cs: Seq<NodeV>) -> Seq<nat>
    decreases cs,
{
    if cs.len() == 0 {
        Seq::empty()
    } else {
        forest_literal_values(cs.drop_last()) + literal_values(cs.last())
    }
}

/// Law: lowering keeps every literal's numeric value — the lowered tree
/// carries the same values, in the same order, as the tree it came from.
pub proof fn lemma_lowered_values(n: NodeV)
    ensures
        literal_values(lowered(n)) == literal_values(n),
    decreases n,
{
    match n {
        NodeV::NumericLiteral { raw } => {
            lemma_strip_value(raw);
        },
        NodeV::Program { children } => {
            lemma_lowered_children_values(children);
        },
        NodeV::ClassBody { children } => {
            lemma_lowered_children_values(children);
        },
    }
}

proof fn lemma_lowered_children_values(cs: Seq<NodeV>)
    ensures
        forest_literal_values(lowered_children(cs)) == forest_literal_values(cs),
    decreases cs,
{
    if cs.len() > 0 {
        lemma_lowered_children_values(cs.drop_last());
        lemma_lowered_values(cs.last());
        let lc = lowered_children(cs);
        assert(lc.drop_last() =~= lowered_children(cs.drop_last()));
        assert(lc.last() == lowered(cs.last()));
    }
}

} // verus!
