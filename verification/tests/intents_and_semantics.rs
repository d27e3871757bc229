use transpiler::ast::Node;
use transpiler::options::TransformTarget;
use transpiler::semantic::{ScopeTree, Semantic, SymbolTable};
use transpiler::transformer::TransformCtx;

fn literal(text: &str) -> Node {
    Node::NumericLiteral { raw: text.as_bytes().to_vec() }
}

#[test]
fn rename_last_write_wins() {
    let mut table = SymbolTable::new();
    let id = table.add_symbol(String::from("x"));
    let mut ctx = TransformCtx::default();
    ctx.rename_symbol(id, String::from("first"));
    ctx.rename_symbol(id, String::from("second"));
    table.apply_intents(&ctx);
    assert_eq!(table.name_of(id).unwrap(), "second");
}

#[test]
fn remove_twice_marks_once() {
    let mut table = SymbolTable::new();
    let id = table.add_symbol(String::from("gone"));
    let keep = table.add_symbol(String::from("kept"));
    let mut ctx = TransformCtx::default();
    ctx.remove_symbol(id);
    ctx.remove_symbol(id);
    table.apply_intents(&ctx);
    assert!(table.is_removed(id));
    assert!(!table.is_removed(keep));
    assert_eq!(table.name_of(keep).unwrap(), "kept");
}

#[test]
fn replace_last_call_wins_and_drains_once() {
    let mut ctx = TransformCtx::default();
    ctx.replace_node(literal("1"));
    ctx.replace_node(literal("2"));
    match ctx.get_replaced_node() {
        Some(Node::NumericLiteral { raw }) => assert_eq!(raw, b"2".to_vec()),
        _ => panic!("expected the second proposal"),
    }
    assert!(ctx.get_replaced_node().is_none());
}

#[test]
fn rename_of_unknown_symbol_is_ignored() {
    let mut table = SymbolTable::new();
    let id = table.add_symbol(String::from("only"));
    let mut ctx = TransformCtx::default();
    ctx.rename_symbol(7, String::from("nobody"));
    table.apply_intents(&ctx);
    assert_eq!(table.name_of(id).unwrap(), "only");
    assert!(table.name_of(7).is_none());
    assert_eq!(table.len(), 1);
}

#[test]
fn scopes_are_lifo() {
    let mut scopes = ScopeTree::new();
    assert!(scopes.current_scope().is_none());
    let outer = scopes.enter_scope();
    let inner = scopes.enter_scope();
    assert_eq!(outer, 0);
    assert_eq!(inner, 1);
    assert_eq!(scopes.current_scope(), Some(inner));
    scopes.leave_scope();
    assert_eq!(scopes.current_scope(), Some(outer));
    scopes.leave_scope();
    assert!(scopes.current_scope().is_none());
}

#[test]
fn semantic_model_starts_empty() {
    let sem = Semantic::new();
    assert_eq!(sem.node_stack.len(), 0);
    assert!(sem.scopes.current_scope().is_none());
}

#[test]
fn strip_separators_examples() {
    let million: Vec<u8> = b"1_000_000".to_vec();
    assert!(transpiler::es2021::contains_separator(&million));
    assert_eq!(transpiler::es2021::strip_separators(&million), b"1000000".to_vec());
    let plain: Vec<u8> = b"42".to_vec();
    assert!(!transpiler::es2021::contains_separator(&plain));
    assert_eq!(transpiler::es2021::strip_separators(&plain), b"42".to_vec());
}

#[test]
fn target_order_is_total() {
    assert!(TransformTarget::ES3.is_below(&TransformTarget::ES5));
    assert!(TransformTarget::ES2020.is_below(&TransformTarget::ES2021));
    assert!(!TransformTarget::ES2021.is_below(&TransformTarget::ES2021));
    assert!(!TransformTarget::ESNext.is_below(&TransformTarget::ES2024));
    assert_eq!(TransformTarget::default(), TransformTarget::ESNext);
}
