use transpiler::ast::{node_count, Node, NodeKind};
use transpiler::options::{TransformOptions, TransformTarget};
use transpiler::semantic::Semantic;
use transpiler::transformer::{Pass, TransformCtx};
use transpiler::transpiler::{check_replacement, Diagnostic, Transpiler, TranspilerCtx};

fn literal(text: &str) -> Node {
    Node::NumericLiteral { raw: text.as_bytes().to_vec() }
}

fn literal_text(node: &Node) -> Vec<u8> {
    match node {
        Node::NumericLiteral { raw } => raw.clone(),
        _ => panic!("expected a numeric literal"),
    }
}

fn pipeline(target: TransformTarget) -> Transpiler {
    Transpiler::new(Semantic::new(), TransformOptions { target })
}

#[test]
fn separator_stripped_below_threshold() {
    let mut t = pipeline(TransformTarget::ES2015);
    let mut program = Node::Program { children: vec![literal("1_000_000")] };
    let r = t.run(&mut program);
    assert!(r.is_ok());
    match &program {
        Node::Program { children } => {
            assert_eq!(children.len(), 1);
            assert_eq!(literal_text(&children[0]), b"1000000".to_vec());
        }
        _ => panic!("expected a program"),
    }
}

#[test]
fn literal_without_separator_unchanged() {
    let mut t = pipeline(TransformTarget::ES2015);
    let mut program = Node::Program { children: vec![literal("42")] };
    let r = t.run(&mut program);
    assert!(r.is_ok());
    match &program {
        Node::Program { children } => {
            assert_eq!(literal_text(&children[0]), b"42".to_vec());
        }
        _ => panic!("expected a program"),
    }
}

#[test]
fn nested_literals_all_lowered() {
    let mut t = pipeline(TransformTarget::ES2020);
    let mut program = Node::Program {
        children: vec![
            Node::ClassBody { children: vec![literal("1_0"), literal("9_9_9")] },
            literal("7"),
        ],
    };
    let r = t.run(&mut program);
    assert!(r.is_ok());
    match &program {
        Node::Program { children } => match &children[0] {
            Node::ClassBody { children: inner } => {
                assert_eq!(literal_text(&inner[0]), b"10".to_vec());
                assert_eq!(literal_text(&inner[1]), b"999".to_vec());
                assert_eq!(literal_text(&children[1]), b"7".to_vec());
            }
            _ => panic!("expected a class body"),
        },
        _ => panic!("expected a program"),
    }
}

#[test]
fn target_at_threshold_runs_no_passes() {
    let t = pipeline(TransformTarget::ES2021);
    assert_eq!(t.transformers.len(), 0);
}

#[test]
fn target_gating_identity_at_esnext() {
    let mut t = pipeline(TransformTarget::ESNext);
    assert_eq!(t.transformers.len(), 0);
    let mut program = Node::Program { children: vec![literal("1_0")] };
    let r = t.run(&mut program);
    assert!(r.is_ok());
    match &program {
        Node::Program { children } => {
            assert_eq!(literal_text(&children[0]), b"1_0".to_vec());
        }
        _ => panic!("expected a program"),
    }
}

#[test]
fn target_below_threshold_activates_preset() {
    let t = pipeline(TransformTarget::ES2020);
    assert_eq!(t.transformers.len(), 1);
}

#[test]
fn ordering_later_pass_sees_earlier_rewrite() {
    // two copies of the separator pass: the second observes the first's
    // output (already stripped), so the result is the same as one pass and
    // nothing is stripped twice or missed
    let mut t = pipeline(TransformTarget::ES2015);
    let extra = t.transformers[0];
    t.transformers.push(extra);
    let mut program = Node::Program { children: vec![literal("1_2_3")] };
    let r = t.run(&mut program);
    assert!(r.is_ok());
    match &program {
        Node::Program { children } => {
            assert_eq!(literal_text(&children[0]), b"123".to_vec());
        }
        _ => panic!("expected a program"),
    }
}

#[test]
fn full_coverage_slot_count_matches_tree() {
    let mut t = pipeline(TransformTarget::ES2015);
    let mut program = Node::Program {
        children: vec![
            Node::ClassBody { children: vec![literal("1_0"), literal("2")] },
            literal("3_3"),
        ],
    };
    let expected = node_count(&program);
    let r = t.run(&mut program);
    assert!(r.is_ok());
    assert_eq!(t.slots_visited, expected);
    // no leave-phase substitutions, so the final tree has the same count
    assert_eq!(node_count(&program), expected);
    assert_eq!(expected, 5);
}

#[test]
fn same_kind_replacement_accepted() {
    let r = check_replacement(NodeKind::NumericLiteral, literal("10"));
    match r {
        Ok(node) => assert_eq!(literal_text(&node), b"10".to_vec()),
        Err(_) => panic!("a same-kind replacement must be accepted"),
    }
}

#[test]
fn foreign_kind_replacement_rejected() {
    let r = check_replacement(NodeKind::NumericLiteral, Node::ClassBody { children: vec![] });
    match r {
        Ok(_) => panic!("a kind mismatch must be rejected"),
        Err(e) => {
            assert_eq!(e.expected, NodeKind::NumericLiteral);
            assert_eq!(e.found, NodeKind::ClassBody);
        }
    }
}

#[test]
fn diagnostics_returned_after_traversal() {
    let mut t = pipeline(TransformTarget::ES2015);
    t.ctx.error(Diagnostic { message: String::from("unsupported construct") });
    let mut program = Node::Program { children: vec![literal("4_2")] };
    let r = t.run(&mut program);
    match r {
        Ok(()) => panic!("a filed diagnostic must be returned"),
        Err(errors) => {
            assert_eq!(errors.len(), 1);
            assert_eq!(errors[0].message, "unsupported construct");
        }
    }
    // the traversal still ran to completion
    match &program {
        Node::Program { children } => {
            assert_eq!(literal_text(&children[0]), b"42".to_vec());
        }
        _ => panic!("expected a program"),
    }
}

#[test]
fn run_without_diagnostics_is_ok() {
    let mut t = pipeline(TransformTarget::ES2015);
    let mut program = Node::Program { children: vec![] };
    assert!(t.run(&mut program).is_ok());
}

#[test]
fn preset_holds_the_separator_pass() {
    let passes = transpiler::es2021::preset();
    assert_eq!(passes.len(), 1);
    match passes[0] {
        Pass::NumericSeparator(_) => {}
    }
}

#[test]
fn transpiler_ctx_collects_errors_in_order() {
    let mut ctx = TranspilerCtx::new(Semantic::new());
    ctx.error(Diagnostic { message: String::from("first") });
    ctx.error(Diagnostic { message: String::from("second") });
    assert_eq!(ctx.errors.len(), 2);
    assert_eq!(ctx.errors[0].message, "first");
    assert_eq!(ctx.errors[1].message, "second");
}

#[test]
fn node_count_counts_every_node() {
    let tree = Node::Program {
        children: vec![
            Node::ClassBody { children: vec![literal("1")] },
            Node::ClassBody { children: vec![] },
        ],
    };
    assert_eq!(node_count(&tree), 4);
}

#[test]
fn fresh_context_is_empty() {
    let mut ctx = TransformCtx::default();
    assert!(ctx.get_replaced_node().is_none());
}
