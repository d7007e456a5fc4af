use regex_vm::parser::{parse, AST};

fn render(ast: &AST) -> String {
    ast.render_tree().into_iter().collect()
}

#[test]
fn renders_alternation_and_star() {
    let ast = parse("a|b*").unwrap();
    let expected = "  Or\n  └─Seq\n    └─Char(a)\n  Seq\n  └─Star\n    └─Char(b)\n";
    assert_eq!(render(&ast), expected);
}

#[test]
fn renders_with_given_indent() {
    let mut out: Vec<char> = Vec::new();
    AST::Dot.fmt_with_indent(&mut out, 3);
    let text: String = out.into_iter().collect();
    assert_eq!(text, "   └─Dot\n");
}

#[test]
fn renders_plus_question_and_dot() {
    let ast = parse("x+.?").unwrap();
    let expected = "  Seq\n  └─Plus\n    └─Char(x)\n  └─Question\n    └─Dot\n";
    assert_eq!(render(&ast), expected);
}
