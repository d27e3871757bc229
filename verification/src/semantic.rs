//! The semantic model: a symbol table and a scope tree, advanced in
//! lockstep with the traversal.
//!
//! Scopes are pushed and popped in strict LIFO order matching tree nesting;
//! the orchestrator applies each context's rename and removal intents to the
//! symbol table immediately after the pass invocation that filed them, so a
//! later pass observes updated bindings.

use vstd::prelude::*;

use crate::ast::NodeKind;
use crate::transformer::{TransformCtx, ids_set, rename_map, lemma_ctx_view};

verus! {

/// The model of a symbol table: the name recorded for each symbol identity
/// (the index), and whether the symbol has been removed.
#[verifier::ext_equal]
pub ghost struct SymbolTableV {
    pub names: Seq<Seq<char>>,
    pub removed: Seq<bool>,
}

/// A table mapping each symbol identity to its declared name and its
/// removal mark.
pub struct SymbolTable {
    names: Vec<String>,
    removed: Vec<bool>,
}

impl View for SymbolTable {
    type V = SymbolTableV;

    closed spec fn view(&self) -> SymbolTableV {
        SymbolTableV {
            names: Seq::new(self.names@.len(), |i: int| self.names@[i]@),
            removed: self.removed@,
        }
    }
}

/// The names after a set of renames: symbol `i` bears the renamed-to name
/// where one was recorded for it, and its old name otherwise.
pub open spec fn apply_renames_spec(names: Seq<Seq<char>>, renames: Map<u32, Seq<char>>) -> Seq<
    Seq<char>,
> {
    Seq::new(names.len(), |i: int| if renames.dom().contains(i as u32) {
        renames[i as u32]
    } else {
        names[i]
    })
}

/// The removal marks after a set of removals: symbol `i` is removed if it
/// already was, or if the set holds it.
pub open spec fn apply_removals_spec(removed: Seq<bool>, removals: Set<u32>) -> Seq<bool> {
    Seq::new(removed.len(), |i: int| removed[i] || removals.contains(i as u32))
}

impl SymbolTable {
    /// Whether the table is well formed: one removal mark per name, and no
    /// more symbols than there are identities.
    pub open spec fn wf(&self) -> bool {
        self@.names.len() == self@.removed.len() && self@.names.len() <= u32::MAX
    }

    /// An empty table.
    pub fn new() -> (r: Self)
        ensures
            r.wf(),
            r@.names =~= Seq::<Seq<char>>::empty(),
            r@.removed =~= Seq::<bool>::empty(),
    {
        SymbolTable { names: Vec::new(), removed: Vec::new() }
    }

    /// The number of symbols the table knows.
    pub fn len(&self) -> (r: usize)
        ensures
            r == self@.names.len(),
    {
        self.names.len()
    }

    /// Declare a new symbol under `name`; its identity is the next free one.
    pub fn add_symbol(&mut self, name: String) -> (id: u32)
        requires
            old(self).wf(),
            old(self)@.names.len() < u32::MAX,
        ensures
            final(self).wf(),
            id == old(self)@.names.len(),
            final(self)@.names =~= old(self)@.names.push(name@),
            final(self)@.removed =~= old(self)@.removed.push(false),
    {
        let id = self.names.len() as u32;
        self.names.push(name);
        self.removed.push(false);
        id
    }

    /// The name currently recorded for a symbol.
    pub fn name_of(&self, id: u32) -> (r: Option<&String>)
        requires
            self.wf(),
        ensures
            match r {
                Some(name) => id < self@.names.len() && name@ == self@.names[id as int],
                None => id >= self@.names.len(),
            },
    {
        if (id as usize) < self.names.len() {
            Some(&self.names[id as usize])
        } else {
            None
        }
    }

    /// Whether a symbol bears a removal mark.
    pub fn is_removed(&self, id: u32) -> (r: bool)
        requires
            self.wf(),
            id < self@.removed.len(),
        ensures
            r == self@.removed[id as int],
    {
        self.removed[id as usize]
    }

    /// Apply one drained context's symbol intents to the table: every
    /// recorded rename sets the symbol's name (the context's last write for
    /// that symbol), and every recorded removal marks the symbol removed.
    /// An identity the table does not know is ignored.
    pub fn apply_intents(&mut self, ctx: &TransformCtx)
        requires
            old(self).wf(),
        ensures
            final(self).wf(),
            final(self)@.names =~= apply_renames_spec(old(self)@.names, ctx@.renames),
            final(self)@.removed =~= apply_removals_spec(old(self)@.removed, ctx@.removals),
    {
        proof {
            lemma_ctx_view(*ctx);
        }
        let ghost renames = ctx.renamed_symbols@;
        let mut i: usize = 0;
        while i < ctx.renamed_symbols.len()
            invariant
                self.wf(),
                i <= renames.len(),
                ctx.renamed_symbols@ == renames,
                self@.removed == old(self)@.removed,
                self@.names =~= apply_renames_spec(
                    old(self)@.names,
                    rename_map(renames.take(i as int)),
                ),
            decreases renames.len() - i,
        {
            proof {
                assert(renames.take(i + 1 as int).drop_last() =~= renames.take(i as int));
                assert(renames.take(i + 1 as int).last() == renames[i as int]);
                assert(rename_map(renames.take(i + 1 as int)) == rename_map(
                    renames.take(i as int),
                ).insert(renames[i as int].0, renames[i as int].1@));
            }
            let ghost names_before = self@.names;
            let id = ctx.renamed_symbols[i].0;
            if (id as usize) < self.names.len() {
                let name = ctx.renamed_symbols[i].1.clone();
                proof {
                    assert(name@ == renames[i as int].1@);
                }
                self.names.set(id as usize, name);
                proof {
                    assert(self@.names =~= names_before.update(id as int, renames[i as int].1@));
                }
            }
            proof {
                let m2 = rename_map(renames.take(i + 1 as int));
                let target = apply_renames_spec(old(self)@.names, m2);
                assert(m2.dom().contains(id));
                assert(m2[id] == renames[i as int].1@);
                assert forall|j: int| 0 <= j < self@.names.len() implies self@.names[j]
                    == target[j] by {
                    if j == id as int {
                        assert(j as u32 == id);
                        assert(target[j] == renames[i as int].1@);
                    } else {
                        assert(j as u32 != id);
                        assert(target[j] == apply_renames_spec(
                            old(self)@.names,
                            rename_map(renames.take(i as int)),
                        )[j]);
                        assert(self@.names[j] == names_before[j]);
                    }
                }
                assert(self@.names =~= target);
            }
            i = i + 1;
        }
        proof {
            assert(renames.take(renames.len() as int) =~= renames);
        }
        let ghost removals = ctx.removed_symbols@;
        let ghost names_after = self@.names;
        let mut k: usize = 0;
        while k < ctx.removed_symbols.len()
            invariant
                self.wf(),
                k <= removals.len(),
                ctx.removed_symbols@ == removals,
                self@.names == names_after,
                self@.removed =~= apply_removals_spec(
                    old(self)@.removed,
                    ids_set(removals.take(k as int)),
                ),
            decreases removals.len() - k,
        {
            proof {
                assert(removals.take(k + 1 as int).drop_last() =~= removals.take(k as int));
            }
            let id = ctx.removed_symbols[k];
            if (id as usize) < self.removed.len() {
                self.removed.set(id as usize, true);
            }
            proof {
                assert(self@.removed =~= apply_removals_spec(
                    old(self)@.removed,
                    ids_set(removals.take(k + 1 as int)),
                ));
            }
            k = k + 1;
        }
        proof {
            assert(removals.take(removals.len() as int) =~= removals);
        }
    }
}

/// A scope tree being built in lockstep with the traversal: each scope's
/// parent, and the stack of scopes the traversal currently stands in.
pub struct ScopeTree {
    parents: Vec<u32>,
    stack: Vec<u32>,
}

/// The model of a scope tree: parent links (a root scope is its own
/// parent) and the current scope chain.
#[verifier::ext_equal]
pub ghost struct ScopeTreeV {
    pub parents: Seq<u32>,
    pub stack: Seq<u32>,
}

impl View for ScopeTree {
    type V = ScopeTreeV;

    closed spec fn view(&self) -> ScopeTreeV {
        ScopeTreeV { parents: self.parents@, stack: self.stack@ }
    }
}

impl ScopeTree {
    /// Whether the tree is well formed: the stack names known scopes only.
    pub open spec fn wf(&self) -> bool {
        forall|i: int| 0 <= i < self@.stack.len() ==> self@.stack[i] < self@.parents.len()
    }

    /// An empty scope tree: no scopes, and a traversal standing nowhere.
    pub fn new() -> (r: Self)
        ensures
            r.wf(),
            r@.parents =~= Seq::<u32>::empty(),
            r@.stack =~= Seq::<u32>::empty(),
    {
        ScopeTree { parents: Vec::new(), stack: Vec::new() }
    }

    /// The scope the traversal currently stands in, if any.
    pub fn current_scope(&self) -> (r: Option<u32>)
        ensures
            match r {
                Some(id) => self@.stack.len() > 0 && id == self@.stack.last(),
                None => self@.stack.len() == 0,
            },
    {
        if self.stack.len() > 0 {
            Some(self.stack[self.stack.len() - 1])
        } else {
            None
        }
    }

    /// Enter a fresh scope: it is created as a child of the scope the
    /// traversal stands in (or as a root) and pushed onto the stack.
    pub fn enter_scope(&mut self) -> (id: u32)
        requires
            old(self).wf(),
            old(self)@.parents.len() < u32::MAX,
        ensures
            final(self).wf(),
            id == old(self)@.parents.len(),
            final(self)@.stack =~= old(self)@.stack.push(id),
            final(self)@.parents.len() == old(self)@.parents.len() + 1,
            old(self)@.parents.is_prefix_of(final(self)@.parents),
    {
        let id = self.parents.len() as u32;
        let parent = match self.current_scope() {
            Some(p) => p,
            None => id,
        };
        self.parents.push(parent);
        self.stack.push(id);
        id
    }

    /// Leave the scope entered last: strict LIFO order.
    pub fn leave_scope(&mut self)
        requires
            old(self).wf(),
            old(self)@.stack.len() > 0,
        ensures
            final(self).wf(),
            final(self)@.stack =~= old(self)@.stack.drop_last(),
            final(self)@.parents == old(self)@.parents,
    {
        self.stack.pop();
    }
}

/// The model of the whole semantic state.
#[verifier::ext_equal]
pub ghost struct SemanticV {
    pub symbols: SymbolTableV,
    pub scopes: ScopeTreeV,
    pub node_stack: Seq<NodeKind>,
}

/// The semantic model handed to the pipeline: the symbol table and scope
/// tree, plus the stack of node kinds the traversal currently stands in.
pub struct Semantic {
    /// The symbol table.
    pub symbols: SymbolTable,
    /// The scope tree and current scope chain.
    pub scopes: ScopeTree,
    /// The kinds of the nodes on the path from the root to the node under
    /// visit, in nesting order.
    pub node_stack: Vec<NodeKind>,
}

impl View for Semantic {
    type V = SemanticV;

    open spec fn view(&self) -> SemanticV {
        SemanticV { symbols: self.symbols@, scopes: self.scopes@, node_stack: self.node_stack@ }
    }
}

impl Semantic {
    /// Whether the model is well formed.
    pub open spec fn wf(&self) -> bool {
        self.symbols.wf() && self.scopes.wf()
    }

    /// An empty semantic model.
    pub fn new() -> (r: Self)
        ensures
            r.wf(),
            r@.symbols.names =~= Seq::<Seq<char>>::empty(),
            r@.symbols.removed =~= Seq::<bool>::empty(),
            r@.scopes.parents =~= Seq::<u32>::empty(),
            r@.scopes.stack =~= Seq::<u32>::empty(),
            r@.node_stack =~= Seq::<NodeKind>::empty(),
    {
        Semantic { symbols: SymbolTable::new(), scopes: ScopeTree::new(), node_stack: Vec::new() }
    }
}

} // verus!
