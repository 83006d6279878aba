use lessc::model::{ASTNode, Document, ParseError, Source};
use lessc::parse::{extract_variables_from_line, import_paths, parse_less};
use lessc::render::generate_css;

fn compile_with(code: &str, sources: &Vec<Source>) -> String {
    let doc = parse_less(code, sources).expect("document should parse");
    generate_css(&doc.nodes)
}

fn compile(code: &str) -> String {
    compile_with(code, &Vec::new())
}

fn source(path: &str, text: &str) -> Source {
    Source { path: path.to_string(), text: text.to_string() }
}

#[test]
fn nested_blocks_are_flattened() {
    let css = compile("a {\n  color: red;\n  b {\n    color: blue;\n  }\n}\n");
    assert_eq!(css, "a b {\n  color: blue;\n}\na {\n  color: red;\n}\n");
}

#[test]
fn nested_rule_nodes_carry_full_path() {
    let doc = parse_less("a {\n  b {\n    c {\n      x: 1;\n    }\n  }\n}\n", &Vec::new()).unwrap();
    assert_eq!(doc.nodes.len(), 3);
    assert_eq!(
        doc.nodes[0],
        ASTNode::Rule(
            vec!["a".to_string(), "b".to_string(), "c".to_string()],
            vec![("x".to_string(), "1".to_string())]
        )
    );
    assert_eq!(doc.nodes[1], ASTNode::Rule(vec!["a".to_string(), "b".to_string()], vec![]));
    assert_eq!(doc.nodes[2], ASTNode::Rule(vec!["a".to_string()], vec![]));
    assert_eq!(generate_css(&doc.nodes), "a b c {\n  x: 1;\n}\na b {\n}\na {\n}\n");
}

#[test]
fn variable_declared_before_use_is_substituted() {
    let css = compile("@c: red;\na {\n  color: @c;\n}\n");
    assert_eq!(css, "a {\n  color: red;\n}\n");
}

#[test]
fn variable_declared_after_use_is_left_unresolved() {
    let css = compile("a {\n  color: @c;\n}\n@c: red;\n");
    assert_eq!(css, "a {\n  color: @c;\n}\n");
}

#[test]
fn last_variable_declaration_wins() {
    let css = compile("@c: red;\n@c: blue;\na {\n  color: @c;\n}\n");
    assert_eq!(css, "a {\n  color: blue;\n}\n");
}

#[test]
fn last_property_wins_without_duplicate() {
    let css = compile("a {\n  color: red;\n  color: blue;\n}\n");
    assert_eq!(css, "a {\n  color: blue;\n}\n");
}

#[test]
fn repeated_property_keeps_its_first_position() {
    let css = compile("a {\n  color: red;\n  width: 1px;\n  color: blue;\n}\n");
    assert_eq!(css, "a {\n  color: blue;\n  width: 1px;\n}\n");
}

#[test]
fn import_is_spliced_before_following_lines() {
    let sources = vec![source("vars.less", "@x: 1;\n")];
    let css = compile_with("@import 'vars.less';\na {\n  w: @x;\n}\n", &sources);
    assert_eq!(css, "a {\n  w: 1;\n}\n");
}

#[test]
fn nested_imports_are_followed_depth_first() {
    let sources = vec![
        source("outer.less", "@import 'inner.less';\n@b: 2;\n"),
        source("inner.less", "@a: 1;\n"),
    ];
    let doc = parse_less("@import \"outer.less\";\n@c: 3;\n", &sources).unwrap();
    assert_eq!(
        doc.nodes,
        vec![
            ASTNode::Variable("@a".to_string(), "1".to_string()),
            ASTNode::Variable("@b".to_string(), "2".to_string()),
            ASTNode::Variable("@c".to_string(), "3".to_string()),
        ]
    );
    assert!(doc.skipped_imports.is_empty());
}

#[test]
fn missing_import_is_skipped_and_reported() {
    let doc = parse_less("@import 'nope.less';\n@a: 1;\n", &Vec::new()).unwrap();
    assert_eq!(
        doc,
        Document {
            nodes: vec![ASTNode::Variable("@a".to_string(), "1".to_string())],
            skipped_imports: vec!["nope.less".to_string()],
        }
    );
}

#[test]
fn import_cycle_is_skipped_and_reported() {
    let sources = vec![source("self.less", "@import 'self.less';\n@y: 2;\n")];
    let doc = parse_less("@import 'self.less';\n", &sources).unwrap();
    assert_eq!(doc.nodes, vec![ASTNode::Variable("@y".to_string(), "2".to_string())]);
    assert_eq!(doc.skipped_imports, vec!["self.less".to_string()]);
}

#[test]
fn rendering_twice_gives_identical_text() {
    let doc = parse_less("@c: red;\na {\n  color: @c;\n  b {\n    x: @c 1px;\n  }\n}\n", &Vec::new())
        .unwrap();
    let first = generate_css(&doc.nodes);
    let second = generate_css(&doc.nodes);
    assert_eq!(first, second);
    assert_eq!(first, "a b {\n  x: red 1px;\n}\na {\n  color: red;\n}\n");
}

#[test]
fn unclosed_block_is_reported() {
    assert_eq!(parse_less("a {\n  color: red;", &Vec::new()), Err(ParseError::UnclosedBlock));
}

#[test]
fn unclosed_block_in_import_is_reported() {
    let sources = vec![source("bad.less", "b {\n  x: 1;\n")];
    assert_eq!(parse_less("@import 'bad.less';\n", &sources), Err(ParseError::UnclosedBlock));
}

#[test]
fn empty_input_gives_empty_output() {
    let doc = parse_less("", &Vec::new()).unwrap();
    assert!(doc.nodes.is_empty());
    assert_eq!(generate_css(&doc.nodes), "");
}

#[test]
fn blank_lines_and_stray_text_are_skipped() {
    let css = compile("\n\nstray text\n  a {\n\n  color: red;\n  junk\n}\n\n");
    assert_eq!(css, "a {\n  color: red;\n}\n");
}

#[test]
fn several_tokens_are_substituted() {
    let css = compile("@m: 4px;\na {\n  margin: @m 0 @m @n;\n}\n");
    assert_eq!(css, "a {\n  margin: 4px 0 4px @n;\n}\n");
}

#[test]
fn property_value_keeps_later_colons() {
    let css = compile("a {\n  background: url(http://x.org/i.png);\n}\n");
    assert_eq!(css, "a {\n  background: url(http://x.org/i.png);\n}\n");
}

#[test]
fn malformed_variable_line_is_not_a_declaration() {
    let doc = parse_less("@a: b: c;\n@d\n", &Vec::new()).unwrap();
    assert!(doc.nodes.is_empty());
}

#[test]
fn selector_is_trimmed_text_before_brace() {
    let css = compile("  .box  > p   {\n  x: y ;;\n}\n");
    assert_eq!(css, ".box  > p {\n  x: y;\n}\n");
}

#[test]
fn extract_variables_splits_at_single_colon() {
    assert_eq!(
        extract_variables_from_line("@c : red ;"),
        Ok(("@c".to_string(), "red ".to_string()))
    );
    assert_eq!(extract_variables_from_line("@c: a: b;"), Err(()));
    assert_eq!(extract_variables_from_line("@c red"), Err(()));
}

#[test]
fn import_paths_lists_each_import() {
    let paths = import_paths("@import 'a.less';\na {\n}\n  @import \"b.less\";\n");
    assert_eq!(paths, vec!["a.less".to_string(), "b.less".to_string()]);
}

#[test]
fn unicode_whitespace_is_trimmed_from_names() {
    assert_eq!(
        extract_variables_from_line("@c\u{a0}: red;"),
        Ok(("@c".to_string(), "red".to_string()))
    );
    let css = compile("@c\u{a0}: red;\na {\n  color: @c;\n}\n");
    assert_eq!(css, "a {\n  color: red;\n}\n");
}

#[test]
fn unicode_whitespace_is_trimmed_from_selectors_and_close_lines() {
    let css = compile("a\u{a0} {\n  x: 1;\n}\u{a0}\n");
    assert_eq!(css, "a {\n  x: 1;\n}\n");
}

#[test]
fn every_trailing_open_marker_is_stripped_from_selector() {
    let css = compile("a {{\n  x: 1;\n}\n");
    assert_eq!(css, "a {\n  x: 1;\n}\n");
}

#[test]
fn values_are_tokenized_on_runs_of_whitespace() {
    let css = compile("@c: red;\na {\n  border: 1px  @c;\n  x: a\tb;\n}\n");
    assert_eq!(css, "a {\n  border: 1px red;\n  x: a b;\n}\n");
}

#[test]
fn declaration_value_keeps_space_before_terminator() {
    assert_eq!(
        extract_variables_from_line("@c: x ;"),
        Ok(("@c".to_string(), "x ".to_string()))
    );
    let doc = parse_less("@c: x ;\n", &Vec::new()).unwrap();
    assert_eq!(doc.nodes, vec![ASTNode::Variable("@c".to_string(), "x ".to_string())]);
}

#[test]
fn property_value_is_trimmed_after_terminator() {
    let css = compile("a {\n  x: y ;\n}\n");
    assert_eq!(css, "a {\n  x: y;\n}\n");
}
