use mixed_parser::pipeline::{probe_payload, run_pipeline, token_bridge_ptr, PipelineError};
use mixed_parser::tokenizer::{tokenize, tokenize_even_checked, Token};
use mixed_parser::tracker::{ensure_even, StagnationMap};
use mixed_parser::tree::{build, build_ast_from_tokens, rust_inline_parse};

const EMPTY: &str = "{\"kind\":\"Program\",\"children\":[]}";
const DEF_STMT: &str =
    "{\"kind\":\"Program\",\"children\":[{\"kind\":\"DEF\",\"name\":\"n0\"},{\"kind\":\"STMT\",\"name\":\"n1\"}]}";

#[test]
fn blank_text_has_no_tokens() {
    assert!(tokenize("").is_empty());
    assert!(tokenize("   \n  ").is_empty());
}

#[test]
fn tokenize_twice_gives_the_same_tokens() {
    let s = "import os\ndef f():\n  # note\n  return 1\n";
    assert_eq!(tokenize(s), tokenize(s));
}

#[test]
fn tokenize_classifies_lines() {
    assert_eq!(tokenize("def f():\n    pass\n"), vec![Token::Def, Token::Stmt]);
    assert_eq!(tokenize("# comment\n\n"), Vec::<Token>::new());
    assert_eq!(
        tokenize("import os\nclass C:\n    x = 1\n"),
        vec![Token::Import, Token::Class, Token::Stmt]
    );
}

#[test]
fn from_line_and_crlf_lines() {
    assert_eq!(
        tokenize("from a import b\r\n\r\ndefine = 2"),
        vec![Token::Import, Token::Stmt]
    );
}

#[test]
fn build_of_no_tokens_is_an_empty_program() {
    let t = build(&vec![]);
    assert_eq!(t.kind, "Program");
    assert!(t.children.is_empty());
    assert_eq!(t.to_json(), EMPTY);
}

#[test]
fn build_names_children_by_position() {
    let t = build(&vec![Token::Def, Token::Stmt]);
    assert_eq!(t.kind, "Program");
    assert_eq!(t.children.len(), 2);
    assert_eq!(t.children[0].kind, "DEF");
    assert_eq!(t.children[0].name, "n0");
    assert_eq!(t.children[1].kind, "STMT");
    assert_eq!(t.children[1].name, "n1");
    assert!(t.children[0].children.is_empty());
    assert_eq!(t.to_json(), DEF_STMT);
}

#[test]
fn build_names_past_ten() {
    let t = build(&vec![Token::Class; 11]);
    assert_eq!(t.children[10].name, "n10");
    assert_eq!(t.children[10].kind, "CLASS");
}

#[test]
fn stagnant_number_is_incremented() {
    let mut m = StagnationMap::new();
    assert_eq!(m.update("k", "4"), "4 ");
    assert_eq!(m.update("k", "4 "), "5 ");
}

#[test]
fn stagnant_text_grows_by_spaces() {
    let mut m = StagnationMap::new();
    assert_eq!(m.update("k2", "ab"), "ab");
    assert_eq!(m.update("k2", "ab"), "ab  ");
    assert_eq!(m.update("k2", "ab "), "ab    ");
}

#[test]
fn stagnant_negative_number() {
    let mut m = StagnationMap::new();
    assert_eq!(m.update("n", "-1"), "-1");
    assert_eq!(m.update("n", "-1"), "0 ");
}

#[test]
fn number_beyond_i128_is_treated_as_text() {
    let big = "1701411834604692317316873037158841057280";
    let mut m = StagnationMap::new();
    assert_eq!(m.update("b", big), big);
    assert_eq!(m.update("b", big), format!("{}  ", big));
}

#[test]
fn slots_are_independent() {
    let mut m = StagnationMap::new();
    assert_eq!(m.update("a", "7 "), "7 ");
    assert_eq!(m.update("b", "7 "), "7 ");
    assert_eq!(m.update("a", "8"), "8 ");
    assert_eq!(m.update("a", "8"), "9 ");
}

#[test]
fn ensure_even_pads_odd_lengths() {
    assert_eq!(ensure_even("abc"), "abc ");
    assert_eq!(ensure_even("abcd"), "abcd");
    assert_eq!(ensure_even(""), "");
    assert_eq!(ensure_even("\u{e9}"), "\u{e9}");
    assert_eq!(ensure_even("\u{e9}a"), "\u{e9}a ");
}

#[test]
fn tokenize_even_checked_joins_tags() {
    assert_eq!(tokenize_even_checked("def f():\n    pass\n"), "DEF,STMT");
    assert_eq!(tokenize_even_checked("def f():"), "DEF ");
    assert_eq!(tokenize_even_checked("  \n"), "");
    assert_eq!(tokenize_even_checked(""), "");
    assert_eq!(tokenize_even_checked("# only a comment"), "");
}

#[test]
fn build_ast_from_token_list() {
    assert_eq!(build_ast_from_tokens("DEF,,STMT,"), DEF_STMT);
    assert_eq!(build_ast_from_tokens(" "), EMPTY);
    assert_eq!(
        build_ast_from_tokens("IMPORT"),
        "{\"kind\":\"Program\",\"children\":[{\"kind\":\"IMPORT\",\"name\":\"n0\"}]} "
    );
}

#[test]
fn inline_fallback_is_the_empty_program() {
    assert_eq!(rust_inline_parse("anything"), EMPTY);
}

#[test]
fn probe_is_padded() {
    assert_eq!(probe_payload(), "\n<<END>>\n ");
}

#[test]
fn end_to_end_without_fallback() {
    let input = b"def f():\n    return 1\n".to_vec();
    assert_eq!(run_pipeline(None, Some(input)), Ok(DEF_STMT.to_string()));
}

#[test]
fn fallback_response_does_not_change_the_result() {
    let input = b"def f():\n    return 1\n".to_vec();
    let remote = b"{\"kind\":\"Program\",\"children\":[{\"kind\":\"X\"}]}".to_vec();
    assert_eq!(run_pipeline(Some(remote), Some(input)), Ok(DEF_STMT.to_string()));
    let bad_remote = vec![0xff, 0xfe];
    let input = b"x = 1".to_vec();
    assert_eq!(
        run_pipeline(Some(bad_remote), Some(input)),
        Ok("{\"kind\":\"Program\",\"children\":[{\"kind\":\"STMT\",\"name\":\"n0\"}]} ".to_string())
    );
}

#[test]
fn missing_or_undecodable_input_is_unavailable() {
    assert_eq!(run_pipeline(None, None), Err(PipelineError::InputUnavailable));
    assert_eq!(
        run_pipeline(None, Some(vec![0x66, 0xc3, 0x28])),
        Err(PipelineError::InputUnavailable)
    );
}

#[test]
fn empty_input_gives_empty_program() {
    assert_eq!(run_pipeline(None, Some(Vec::new())), Ok(EMPTY.to_string()));
}

#[test]
fn token_bridge_on_bytes() {
    assert_eq!(token_bridge_ptr(b"class A:\n  pass".to_vec()), Ok("CLASS,STMT".to_string()));
    assert_eq!(token_bridge_ptr(vec![0xff]), Err(PipelineError::InputUnavailable));
    assert_eq!(token_bridge_ptr(b"import x".to_vec()), Ok("IMPORT".to_string()));
    assert_eq!(token_bridge_ptr(Vec::new()), Ok(String::new()));
}

#[test]
fn repeated_write_never_repeats_the_value() {
    let mut m = StagnationMap::new();
    let first = m.update("slot", "x1");
    let second = m.update("slot", "x1");
    assert_eq!(first, "x1");
    assert_eq!(second, "x1  ");
    assert_ne!(first, second);
}

#[test]
fn builder_reads_tokenizer_output() {
    let blank = tokenize_even_checked("   \n  ");
    assert_eq!(build_ast_from_tokens(&blank), EMPTY);
    let toks = tokenize_even_checked("import os\nclass C:\n    x = 1\n");
    assert_eq!(toks, "IMPORT,CLASS,STMT ");
    assert_eq!(
        build_ast_from_tokens(&toks),
        "{\"kind\":\"Program\",\"children\":[{\"kind\":\"IMPORT\",\"name\":\"n0\"},{\"kind\":\"CLASS\",\"name\":\"n1\"},{\"kind\":\"STMT\",\"name\":\"n2\"}]}"
    );
    let two = tokenize_even_checked("def f():\n    pass\n");
    assert_eq!(build_ast_from_tokens(&two), DEF_STMT);
}
