//! A target-gated syntax-lowering pipeline.
//!
//! An ordered list of rewrite passes shares one syntax tree.  The
//! orchestrator drives a single depth-first traversal; at every node slot it
//! runs each active pass's enter hook, recurses into the children of the
//! (possibly replaced) node, and then runs each pass's leave hook.  Passes
//! never touch the tree directly: they record intents (a whole-node
//! replacement, symbol renames, symbol removals) in a per-invocation context,
//! and the orchestrator applies them.  A replacement must keep the
//! grammatical kind of its slot; which passes are active is decided by the
//! requested output target level.

pub mod ast;
pub mod options;
pub mod semantic;
pub mod transformer;
pub mod es2021;
pub mod transpiler;
