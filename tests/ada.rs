use mixed_parser::ada::{parse_ada_to_ast, NodeKind};

#[test]
fn parse_empty_returns_unknown_child() {
    let ast = parse_ada_to_ast("");
    assert_eq!(ast.kind, NodeKind::Program);
    assert_eq!(ast.children.len(), 1);
    assert_eq!(ast.children[0].kind, NodeKind::Unknown);
}

#[test]
fn parse_literal_returns_literal_node() {
    let src = "with Ada.Text_IO; use Ada.Text_IO;\n-- some comment\nx : Integer := 0;";
    let ast = parse_ada_to_ast(src);
    assert_eq!(ast.kind, NodeKind::Program);
    assert_eq!(ast.children.len(), 1);
    match &ast.children[0].kind {
        NodeKind::Literal { value } => assert!(value == "<text>"),
        _ => panic!("expected Literal node"),
    }
}

#[test]
fn parse_procedure_detects_procedure_name() {
    let src = "procedure Hello is\nbegin\n null; \nend Hello;";
    let ast = parse_ada_to_ast(src);
    assert_eq!(ast.kind, NodeKind::Program);
    assert_eq!(ast.children.len(), 1);
    match &ast.children[0].kind {
        NodeKind::ProcedureDecl { name } => {
            assert!(name.to_lowercase().contains("hello"));
            assert_eq!(ast.children[0].children.len(), 1);
            match &ast.children[0].children[0].kind {
                NodeKind::Identifier { name: idname } => {
                    assert!(idname.to_lowercase().contains("hello"));
                }
                _ => panic!("expected Identifier child"),
            }
        }
        _ => panic!("expected ProcedureDecl node"),
    }
}

#[test]
fn procedure_name_loses_punctuation_at_its_ends() {
    let ast = parse_ada_to_ast("  procedure (Main); is");
    assert_eq!(
        ast.children[0].kind,
        NodeKind::ProcedureDecl { name: "Main".to_string() }
    );
    assert_eq!(
        ast.children[0].children[0].kind,
        NodeKind::Identifier { name: "Main".to_string() }
    );
    assert!(ast.children[0].children[0].children.is_empty());
}

#[test]
fn procedure_as_last_word_is_unnamed() {
    let ast = parse_ada_to_ast("begin procedure");
    assert_eq!(
        ast.children[0].kind,
        NodeKind::ProcedureDecl { name: "unnamed".to_string() }
    );
}

#[test]
fn procedure_inside_a_word_is_unnamed() {
    let ast = parse_ada_to_ast("procedures here");
    assert_eq!(
        ast.children[0].kind,
        NodeKind::ProcedureDecl { name: "unnamed".to_string() }
    );
}

#[test]
fn whitespace_only_text_is_unknown() {
    let ast = parse_ada_to_ast(" \t\n ");
    assert_eq!(ast.children.len(), 1);
    assert_eq!(ast.children[0].kind, NodeKind::Unknown);
}
