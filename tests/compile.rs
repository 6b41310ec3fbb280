use badforth::ast::{Function, Literal, Program, Stmt};
use badforth::codegen::{escape_str, generate_asm, CodegenError};
use badforth::parser::{parse, ParseError};

fn compile(src: &str) -> String {
    let program = match parse(src.to_string()) {
        Ok(p) => p,
        Err(e) => panic!("parse failed: {:?}", e),
    };
    match generate_asm(&program) {
        Ok(text) => text,
        Err(e) => panic!("codegen failed: {:?}", e),
    }
}

fn lines(text: &str) -> Vec<&str> {
    text.lines().collect()
}

fn count(text: &str, line: &str) -> usize {
    text.lines().filter(|l| *l == line).count()
}

fn contains_run(text: &str, run: &[&str]) -> bool {
    let ls = lines(text);
    ls.windows(run.len()).any(|w| w == run)
}

#[test]
fn add_and_print_in_main() {
    let code = compile("main () () { 34 35 + print }");
    assert!(contains_run(
        &code,
        &[
            "main:",
            "mov qword [ret_sp], ret_stack_end",
            "push 34",
            "push 35",
            "pop rbx",
            "pop rax",
            "add rax, rbx",
            "push rax",
            "mov rdi, fint",
            "pop rsi",
            "mov al, 0",
            "call printf",
            "ret",
        ]
    ));
}

#[test]
fn whole_file_for_small_program() {
    let code = compile("main () () { 34 35 + print }");
    let expected = "global main\n\
extern fputs, printf, fflush, stdout, malloc, free\n\
\n\
section .text\n\
main:\n\
mov qword [ret_sp], ret_stack_end\n\
push 34\n\
push 35\n\
pop rbx\n\
pop rax\n\
add rax, rbx\n\
push rax\n\
mov rdi, fint\n\
pop rsi\n\
mov al, 0\n\
call printf\n\
ret\n\
\n\
section .data\n\
fint: db \"%d\", 0\n\
\n\
section .bss\n\
ret_sp: resq 1\n\
ret_stack: resq 256\n\
ret_stack_end: equ $\n";
    assert_eq!(code, expected);
}

#[test]
fn hello_string_literal() {
    let code = compile("main () () { \"Hello\\n\" puts }");
    assert_eq!(count(&code, "str_0: db \"Hello\", 10, 0"), 1);
    assert_eq!(code.lines().filter(|l| l.starts_with("str_")).count(), 1);
    assert!(contains_run(
        &code,
        &[
            "push str_0",
            "pop rdi",
            "mov rsi, [stdout]",
            "call fputs",
            "mov rdi, [stdout]",
            "call fflush",
        ]
    ));
}

#[test]
fn scalar_integer_constant() {
    let code = compile("const N +42 main () () { N print }");
    assert_eq!(count(&code, "N: 42"), 1);
    assert!(contains_run(&code, &["push qword [N]", "mov rdi, fint", "pop rsi"]));
}

#[test]
fn negative_scalar_constant_and_literal() {
    let code = compile("const M -7 main () () { M -3 + print }");
    assert_eq!(count(&code, "M: -7"), 1);
    assert_eq!(count(&code, "push -3"), 1);
}

#[test]
fn array_reservation() {
    let code = compile("const BUF 16 main () () { BUF 16 read drop }");
    assert_eq!(count(&code, "BUF: resb 16"), 1);
    assert_eq!(count(&code, "push BUF"), 1);
    let bss = code.find("section .bss").unwrap();
    assert!(code.find("BUF: resb 16").unwrap() > bss);
}

#[test]
fn string_constant() {
    let code = compile("const MSG \"hi\\n\" main () () { MSG puts }");
    assert_eq!(count(&code, "MSG: db \"hi\", 10, 0"), 1);
    assert_eq!(count(&code, "push MSG"), 1);
}

#[test]
fn if_else_labels() {
    for cond in ["1 0 =?", "1 1 =?"] {
        let src = format!("main () () {{ {} if {{ 10 print }} else {{ 20 print }} }}", cond);
        let code = compile(&src);
        assert!(contains_run(
            &code,
            &[
                "sete al",
                "push rax",
                "pop rax",
                "cmp rax, 0",
                "je IF_0",
                "push 10",
            ]
        ));
        assert_eq!(count(&code, "IF_0:"), 1);
        assert_eq!(count(&code, "ELSE_0:"), 1);
        assert_eq!(count(&code, "jmp ELSE_0"), 1);
        assert_eq!(count(&code, "IF_1:"), 0);
        assert!(contains_run(&code, &["jmp ELSE_0", "IF_0:", "push 20"]));
    }
}

#[test]
fn sequential_and_nested_if_labels() {
    let code = compile(
        "main () () { 1 if { 1 if { 2 print } else { 3 print } } else { 4 print } \
         1 if { 5 print } else { 6 print } }",
    );
    for n in 0..3 {
        assert_eq!(count(&code, &format!("IF_{}:", n)), 1);
        assert_eq!(count(&code, &format!("ELSE_{}:", n)), 1);
        assert_eq!(count(&code, &format!("je IF_{}", n)), 1);
    }
    assert_eq!(count(&code, "IF_3:"), 0);
    assert!(contains_run(&code, &["je IF_0", "push 1", "pop rax", "cmp rax, 0", "je IF_1"]));
}

#[test]
fn if_without_else_has_no_else_label() {
    let code = compile("main () () { 1 if { 2 print } }");
    assert_eq!(count(&code, "IF_0:"), 1);
    assert!(!code.contains("ELSE_"));
}

#[test]
fn strings_in_branches_are_numbered_densely() {
    let code = compile(
        "main () () { \"a\" puts 1 if { \"b\" puts \"c\" puts } else { \"d\" puts } \"e\" puts }",
    );
    for (i, s) in ["a", "b", "c", "d", "e"].iter().enumerate() {
        assert_eq!(count(&code, &format!("str_{}: db \"{}\", 0", i, s)), 1);
        assert_eq!(count(&code, &format!("push str_{}", i)), 1);
    }
}

#[test]
fn user_function_call_and_prologue() {
    let code = compile("double (int) (int) { dup + } main () () { 21 double print }");
    assert_eq!(count(&code, "main:"), 1);
    assert_eq!(count(&code, "mov qword [ret_sp], ret_stack_end"), 1);
    assert!(contains_run(
        &code,
        &[
            "double:",
            "mov [ret_sp], rsp",
            "mov rsp, rax",
            "pop rax",
            "push rax",
            "push rax",
            "pop rbx",
            "pop rax",
            "add rax, rbx",
            "push rax",
            "mov rax, rsp",
            "mov rsp, [ret_sp]",
            "ret",
        ]
    ));
    assert!(contains_run(
        &code,
        &[
            "push 21",
            "mov rax, rsp",
            "mov rsp, [ret_sp]",
            "call double",
            "mov [ret_sp], rsp",
            "mov rsp, rax",
        ]
    ));
}

#[test]
fn functions_keep_declaration_order() {
    let code = compile("b () () { } a () () { } main () () { }");
    let pb = code.find("\nb:\n").unwrap();
    let pa = code.find("\na:\n").unwrap();
    let pm = code.find("\nmain:\n").unwrap();
    assert!(pb < pa && pa < pm);
}

#[test]
fn all_operators_lower() {
    let code = compile("main () () { 7 2 - 3 * 2 / 5 % 1 != 2 > 3 < swap drop }");
    assert!(contains_run(&code, &["pop rbx", "pop rax", "sub rax, rbx", "push rax"]));
    assert!(contains_run(&code, &["pop rbx", "pop rax", "imul rbx", "push rax"]));
    assert!(contains_run(&code, &["pop rbx", "pop rax", "idiv rbx", "push rax"]));
    assert!(contains_run(&code, &["xor rdx, rdx", "pop rbx", "pop rax", "idiv rbx", "push rdx"]));
    assert_eq!(count(&code, "setne al"), 1);
    assert_eq!(count(&code, "setg al"), 1);
    assert_eq!(count(&code, "setl al"), 1);
    assert!(contains_run(&code, &["pop rax", "pop rbx", "push rax", "push rbx", "pop rax"]));
}

#[test]
fn parse_builds_tables() {
    let p: Program = parse("const A 8 const B +8 const S \"x\" f (int ptr) (int) { A }".to_string())
        .unwrap();
    assert_eq!(p.arrays.len(), 1);
    assert_eq!(p.arrays[0].0, "A");
    assert_eq!(p.arrays[0].1, 8);
    assert_eq!(p.constants.len(), 2);
    assert_eq!(p.constants[0].0, "B");
    assert!(matches!(p.constants[0].1, Literal::Integer(8)));
    assert!(matches!(&p.constants[1].1, Literal::String(s) if s == "\"x\""));
    assert_eq!(p.functions.len(), 1);
    let f: &Function = &p.functions[0].1;
    assert_eq!(f.inputs.len(), 2);
    assert_eq!(f.outputs.len(), 1);
    assert!(matches!(&f.expr.0[0], Stmt::Ident(n) if n == "A"));
}

#[test]
fn duplicate_names_are_rejected() {
    for src in [
        "const A 1 const A 2",
        "const A +1 A () () { }",
        "f () () { } const f \"s\"",
        "main () () { } main () () { }",
    ] {
        assert!(
            matches!(parse(src.to_string()), Err(ParseError::DuplicateName(_))),
            "{}",
            src
        );
    }
    assert!(matches!(parse("const A 1 const A 2".to_string()),
        Err(ParseError::DuplicateName(n)) if n == "A"));
}

#[test]
fn unknown_type_is_a_syntax_error() {
    assert!(matches!(
        parse("main (foo) () { }".to_string()),
        Err(ParseError::SyntaxError(6))
    ));
}

#[test]
fn syntax_errors_report_positions() {
    assert!(matches!(parse("main () () { 1 ".to_string()), Err(ParseError::SyntaxError(15))));
    assert!(matches!(parse("main () () { \"abc }".to_string()), Err(ParseError::SyntaxError(13))));
    assert!(matches!(parse("const 5 5".to_string()), Err(ParseError::SyntaxError(6))));
    assert!(matches!(parse("main () () { else }".to_string()), Err(ParseError::SyntaxError(13))));
    assert!(matches!(
        parse("main () () { 9223372036854775808 }".to_string()),
        Err(ParseError::SyntaxError(13))
    ));
    assert!(matches!(parse("if".to_string()), Err(ParseError::SyntaxError(0))));
}

#[test]
fn extreme_integers() {
    let code = compile("main () () { -9223372036854775808 9223372036854775807 drop drop }");
    assert_eq!(count(&code, "push -9223372036854775808"), 1);
    assert_eq!(count(&code, "push 9223372036854775807"), 1);
}

#[test]
fn empty_program() {
    let p = parse("  \n\t ".to_string()).unwrap();
    assert_eq!(p.functions.len() + p.constants.len() + p.arrays.len(), 0);
    let code = generate_asm(&p).unwrap();
    assert!(!code.contains("main:"));
}

#[test]
fn unknown_identifier_is_reported() {
    let p = parse("main () () { frob }".to_string()).unwrap();
    assert!(matches!(generate_asm(&p), Err(CodegenError::UnknownIdentifier(n)) if n == "frob"));
}

#[test]
fn escape_str_examples() {
    assert_eq!(escape_str("\"Hello\\n\"".to_string()), "\"Hello\", 10");
    assert_eq!(escape_str("\"a\\nb\\n\"".to_string()), "\"a\", 10, \"b\", 10");
    assert_eq!(escape_str("\"a\\nb\"".to_string()), "\"a\", 10, \"b\"");
    assert_eq!(escape_str("\"plain\"".to_string()), "\"plain\"");
}

#[test]
fn canonical_text_parses_back() {
    let p = parse(
        "const A +1 const B \"s\" const C 8 f ( int ) ( ptr ) { 1 if { A } else { B } } "
            .to_string(),
    )
    .unwrap();
    assert_eq!(p.constants.len(), 2);
    assert_eq!(p.constants[0].0, "A");
    assert!(matches!(p.constants[0].1, Literal::Integer(1)));
    assert_eq!(p.constants[1].0, "B");
    assert_eq!(p.arrays, vec![("C".to_string(), 8usize)]);
    assert_eq!(p.functions.len(), 1);
    let body = &p.functions[0].1.expr.0;
    assert_eq!(body.len(), 2);
    assert!(matches!(body[0], Stmt::Literal(Literal::Integer(1))));
    match &body[1] {
        Stmt::IfStmt(i) => {
            assert!(matches!(&i.if_expr.0[0], Stmt::Ident(n) if n == "A"));
            assert!(matches!(&i.else_expr.as_ref().unwrap().0[0], Stmt::Ident(n) if n == "B"));
        }
        _ => panic!("expected an if-statement"),
    }
}

#[test]
fn pushes_and_pops_balance_with_stack_effect() {
    // literals push, `+` takes two and leaves one, `dup` adds one, `print` and `drop` take one
    let code = compile("main () () { 1 2 + dup print drop }");
    let pushes = code.lines().filter(|l| l.starts_with("push ")).count() as i64;
    let pops = code.lines().filter(|l| l.starts_with("pop ")).count() as i64;
    assert_eq!(pushes - pops, 1 + 1 - 1 + 1 - 1 - 1);
}

#[test]
fn only_main_sets_up_return_stack() {
    let code = compile("a () () { } b () () { } main () () { a b }");
    assert_eq!(count(&code, "main:"), 1);
    assert_eq!(count(&code, "mov qword [ret_sp], ret_stack_end"), 1);
    assert!(contains_run(&code, &["main:", "mov qword [ret_sp], ret_stack_end"]));
    for f in ["a", "b"] {
        let label = format!("{}:", f);
        assert!(contains_run(
            &code,
            &[&label, "mov [ret_sp], rsp", "mov rsp, rax", "mov rax, rsp", "mov rsp, [ret_sp]", "ret"]
        ));
    }
}

#[test]
fn data_and_bss_order() {
    let code = compile("const Z +0 const BUF 4 const Y -1 const BUF2 2 main () () { }");
    assert!(contains_run(
        &code,
        &["section .data", "Z: 0", "Y: -1", "fint: db \"%d\", 0", "", "section .bss"]
    ));
    assert!(contains_run(
        &code,
        &["ret_stack_end: equ $", "BUF: resb 4", "BUF2: resb 2"]
    ));
}

#[test]
fn grammar_errors_come_before_repeated_names() {
    assert!(matches!(
        parse("const A 1 const A 2 }".to_string()),
        Err(ParseError::SyntaxError(20))
    ));
    assert!(matches!(
        parse("const A 1 const A 2 f (foo) () { }".to_string()),
        Err(ParseError::SyntaxError(23))
    ));
    assert!(matches!(
        parse("f () () { } f () () { 99999999999999999999 }".to_string()),
        Err(ParseError::SyntaxError(22))
    ));
}

#[test]
fn repeated_name_reported_after_whole_text() {
    assert!(matches!(parse("const A 1 main () () { } const A 2".to_string()),
        Err(ParseError::DuplicateName(n)) if n == "A"));
    assert!(matches!(parse("g () () { } const B +1 const g \"x\"".to_string()),
        Err(ParseError::DuplicateName(n)) if n == "g"));
}
