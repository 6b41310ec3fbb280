use vstd::prelude::*;

use crate::ast::{
    ComparisonOp, Expr, Function, FunctionV, IfStmt, LitV, Literal, MathOp, Program, ProgramV,
    Stmt, StmtV, view_block, view_stmt,
};
use crate::decimal::{int_text, nat_text, push_int, push_nat};
use crate::lexer::chars_of;
use crate::lowering::{
    RET_STACK_SIZE, array_line, asm_lines, asm_text, block_ifs, block_lines, block_strings,
    bss_head_lines, builtin_lines, call_lines, cmp_lines, constant_line, data_lines, escape,
    find_name, function_lines, functions_ifs, functions_lines, functions_strings, header_lines,
    ident_lines, if_label, join_lines, math_lines, newline_escapes, stmt_ifs, stmt_lines,
    stmt_strings, str_label, string_line,
};

verus! {

broadcast use vstd::std_specs::vec::axiom_vec_index_decreases;

/// Why a program cannot be lowered.
#[derive(Debug)]
pub enum CodegenError {
    /// A statement names something that is neither a constant, an array, a
    /// function nor a built-in word.
    UnknownIdentifier(String),
}

impl View for CodegenError {
    type V = Seq<char>;

    open spec fn view(&self) -> Seq<char> {
        match self {
            CodegenError::UnknownIdentifier(n) => n@,
        }
    }
}

pub open spec fn lines_view(v: Seq<String>) -> Seq<Seq<char>> {
    v.map_values(|s: String| s@)
}

fn emit(out: &mut Vec<String>, line: String)
    ensures
        lines_view(final(out)@) == lines_view(old(out)@).push(line@),
        final(out)@.len() == old(out)@.len() + 1,
{
    out.push(line);
    assert(lines_view(final(out)@) =~= lines_view(old(out)@).push(line@));
}

fn emit_str(out: &mut Vec<String>, line: &str)
    ensures
        lines_view(final(out)@) == lines_view(old(out)@).push(line@),
        final(out)@.len() == old(out)@.len() + 1,
{
    emit(out, line.to_owned());
}

fn cat(a: &str, b: &str) -> (r: String)
    ensures
        r@ == a@ + b@,
{
    let mut r = a.to_owned();
    r.append(b);
    r
}

proof fn lemma_find_name_first<V>(s: Seq<(Seq<char>, V)>, n: Seq<char>)
    ensures
        (forall|j: int| 0 <= j < s.len() ==> (#[trigger] s[j]).0 != n) ==> find_name(s, n) is None,
        forall|i: int|
            0 <= i < s.len() && (#[trigger] s[i]).0 == n && (forall|j: int|
                0 <= j < i ==> (#[trigger] s[j]).0 != n) ==> find_name(s, n) == Some(s[i].1),
    decreases s.len(),
{
    if s.len() > 0 {
        let d = s.drop_last();
        lemma_find_name_first(d, n);
        assert forall|j: int| 0 <= j < d.len() implies d[j] == s[j] by {}
        assert forall|i: int|
            0 <= i < s.len() && (#[trigger] s[i]).0 == n && (forall|j: int|
                0 <= j < i ==> (#[trigger] s[j]).0 != n) implies find_name(s, n) == Some(s[i].1) by {
            if i < d.len() {
                assert(d[i] == s[i]);
                assert forall|j: int| 0 <= j < i implies (#[trigger] d[j]).0 != n by {
                    assert(d[j] == s[j]);
                }
            } else {
                assert forall|j: int| 0 <= j < d.len() implies (#[trigger] d[j]).0 != n by {
                    assert(d[j] == s[j]);
                }
            }
        }
        if forall|j: int| 0 <= j < s.len() ==> (#[trigger] s[j]).0 != n {
            assert forall|j: int| 0 <= j < d.len() implies (#[trigger] d[j]).0 != n by {
                assert(d[j] == s[j]);
            }
        }
    }
}

/// The index of the first entry named `n`.
fn find_index<V>(v: &Vec<(String, V)>, n: &String) -> (r: Option<usize>)
    ensures
        match r {
            Some(i) => i < v@.len() && v@[i as int].0@ == n@ && forall|j: int|
                0 <= j < i ==> (#[trigger] v@[j]).0@ != n@,
            None => forall|j: int| 0 <= j < v@.len() ==> (#[trigger] v@[j]).0@ != n@,
        },
{
    let mut i: usize = 0;
    while i < v.len()
        invariant
            i <= v@.len(),
            forall|j: int| 0 <= j < i ==> (#[trigger] v@[j]).0@ != n@,
        decreases v@.len() - i,
    {
        if v[i].0 == *n {
            return Some(i);
        }
        i = i + 1;
    }
    None
}

fn str_eq(a: &str, b: &str) -> (r: bool)
    ensures
        r == (a@ == b@),
{
    let n = a.unicode_len();
    if n != b.unicode_len() {
        return false;
    }
    let mut i: usize = 0;
    while i < n
        invariant
            n == a@.len(),
            n == b@.len(),
            i <= n,
            forall|j: int| 0 <= j < i ==> a@[j] == b@[j],
        decreases n - i,
    {
        if a.get_char(i) != b.get_char(i) {
            return false;
        }
        i = i + 1;
    }
    assert(a@ =~= b@);
    true
}

fn write_predefined(out: &mut Vec<String>, ident: &String) -> (r: bool)
    ensures
        r == builtin_lines(ident@) is Some,
        r ==> lines_view(final(out)@) == lines_view(old(out)@) + builtin_lines(ident@)->0,
        !r ==> final(out)@ == old(out)@,
{
    let ghost start = lines_view(out@);
    let name = ident.as_str();
    if str_eq(name, "dup") {
        emit_str(out, "pop rax");
        emit_str(out, "push rax");
        emit_str(out, "push rax");
    } else if str_eq(name, "drop") {
        emit_str(out, "pop rax");
    } else if str_eq(name, "swap") {
        emit_str(out, "pop rax");
        emit_str(out, "pop rbx");
        emit_str(out, "push rax");
        emit_str(out, "push rbx");
    } else if str_eq(name, "puts") {
        emit_str(out, "pop rdi");
        emit_str(out, "mov rsi, [stdout]");
        emit_str(out, "call fputs");
        emit_str(out, "mov rdi, [stdout]");
        emit_str(out, "call fflush");
    } else if str_eq(name, "print") {
        emit_str(out, "mov rdi, fint");
        emit_str(out, "pop rsi");
        emit_str(out, "mov al, 0");
        emit_str(out, "call printf");
    } else if str_eq(name, "read") {
        emit_str(out, "mov rax, 0");
        emit_str(out, "mov rdi, 0");
        emit_str(out, "pop rdx");
        emit_str(out, "pop rsi");
        emit_str(out, "syscall");
        emit_str(out, "push rax");
    } else {
        return false;
    }
    assert(lines_view(out@) =~= start + builtin_lines(ident@)->0);
    true
}

fn write_ident(out: &mut Vec<String>, ast: &Program, name: &String) -> (r: Result<(), CodegenError>)
    ensures
        match r {
            Ok(()) => ident_lines(ast@, name@) is Ok && lines_view(final(out)@) == lines_view(
                old(out)@,
            ) + ident_lines(ast@, name@)->Ok_0,
            Err(e) => ident_lines(ast@, name@) == Err::<Seq<Seq<char>>, Seq<char>>(e@),
        },
{
    let ghost start = lines_view(out@);
    let ghost p = ast@;
    match find_index(&ast.constants, name) {
        Some(i) => {
            proof {
                lemma_find_name_first(p.constants, name@);
                let ii = i as int;
                assert(p.constants[ii] == (ast.constants@[ii].0@, ast.constants@[ii].1@));
                assert forall|j: int| 0 <= j < i implies (#[trigger] p.constants[j]).0 != name@ by {
                    assert(p.constants[j].0 == ast.constants@[j].0@);
                }
            }
            match &ast.constants[i].1 {
                Literal::Integer(_) => {
                    let mut l = cat("push qword [", name.as_str());
                    l.append("]");
                    emit(out, l);
                },
                Literal::String(_) => {
                    emit(out, cat("push ", name.as_str()));
                },
            }
            assert(lines_view(out@) =~= start + ident_lines(p, name@)->Ok_0);
            return Ok(());
        },
        None => {
            proof {
                lemma_find_name_first(p.constants, name@);
                assert forall|j: int| 0 <= j < p.constants.len() implies (
                #[trigger] p.constants[j]).0 != name@ by {
                    assert(p.constants[j].0 == ast.constants@[j].0@);
                }
            }
        },
    }
    match find_index(&ast.arrays, name) {
        Some(i) => {
            proof {
                lemma_find_name_first(p.arrays, name@);
                assert(p.arrays[i as int].0 == name@);
                assert forall|j: int| 0 <= j < i implies (#[trigger] p.arrays[j]).0 != name@ by {
                    assert(p.arrays[j].0 == ast.arrays@[j].0@);
                }
            }
            emit(out, cat("push ", name.as_str()));
            assert(lines_view(out@) =~= start + ident_lines(p, name@)->Ok_0);
            return Ok(());
        },
        None => {
            proof {
                lemma_find_name_first(p.arrays, name@);
                assert forall|j: int| 0 <= j < p.arrays.len() implies (
                #[trigger] p.arrays[j]).0 != name@ by {
                    assert(p.arrays[j].0 == ast.arrays@[j].0@);
                }
            }
        },
    }
    match find_index(&ast.functions, name) {
        Some(i) => {
            proof {
                lemma_find_name_first(p.functions, name@);
                assert(p.functions[i as int].0 == name@);
                assert forall|j: int| 0 <= j < i implies (#[trigger] p.functions[j]).0 != name@ by {
                    assert(p.functions[j].0 == ast.functions@[j].0@);
                }
            }
            emit_str(out, "mov rax, rsp");
            emit_str(out, "mov rsp, [ret_sp]");
            emit(out, cat("call ", name.as_str()));
            emit_str(out, "mov [ret_sp], rsp");
            emit_str(out, "mov rsp, rax");
            assert(lines_view(out@) =~= start + call_lines(name@));
            return Ok(());
        },
        None => {
            proof {
                lemma_find_name_first(p.functions, name@);
                assert forall|j: int| 0 <= j < p.functions.len() implies (
                #[trigger] p.functions[j]).0 != name@ by {
                    assert(p.functions[j].0 == ast.functions@[j].0@);
                }
            }
        },
    }
    if write_predefined(out, name) {
        Ok(())
    } else {
        Err(CodegenError::UnknownIdentifier(name.clone()))
    }
}

fn write_label_line(out: &mut Vec<String>, prefix: &str, n: usize, suffix: &str)
    ensures
        lines_view(final(out)@) == lines_view(old(out)@).push(prefix@ + nat_text(n as nat) + suffix@),
        final(out)@.len() == old(out)@.len() + 1,
{
    let mut l = prefix.to_owned();
    push_nat(&mut l, n as u64);
    l.append(suffix);
    emit(out, l);
}

proof fn lemma_view_block_take(ss: Seq<Stmt>, i: int)
    requires
        0 <= i < ss.len(),
    ensures
        view_block(ss.take(i + 1)) == view_block(ss.take(i)).push(view_stmt(ss[i])),
        view_block(ss.take(i + 1)).drop_last() == view_block(ss.take(i)),
        view_block(ss.take(i + 1)).last() == view_stmt(ss[i]),
        view_block(ss.take(i + 1)).len() > 0,
{
    assert(ss.take(i + 1).drop_last() =~= ss.take(i));
    assert(view_block(ss.take(i)).push(view_stmt(ss[i])).drop_last() =~= view_block(ss.take(i)));
}

proof fn lemma_view_block_prefix(ss: Seq<Stmt>, k: int)
    requires
        0 <= k <= ss.len(),
    ensures
        view_block(ss).len() == ss.len(),
        view_block(ss.take(k)) == view_block(ss).take(k),
    decreases ss.len(),
{
    if ss.len() > 0 {
        lemma_view_block_prefix(ss.drop_last(), if k < ss.len() { k } else { 0 });
        if k < ss.len() {
            assert(ss.drop_last().take(k) =~= ss.take(k));
            assert(view_block(ss.drop_last()).take(k) =~= view_block(ss).take(k));
        } else {
            assert(ss.take(k) =~= ss);
            assert(view_block(ss).take(k) =~= view_block(ss));
        }
    } else {
        assert(ss.take(k) =~= ss);
        assert(view_block(ss).take(k) =~= view_block(ss));
    }
}

proof fn lemma_block_lines_err_prefix(p: ProgramV, xs: Seq<StmtV>, k: int, ns: nat, ni: nat)
    requires
        0 <= k <= xs.len(),
        block_lines(p, xs.take(k), ns, ni) is Err,
    ensures
        block_lines(p, xs, ns, ni) == block_lines(p, xs.take(k), ns, ni),
    decreases xs.len(),
{
    if k == xs.len() {
        assert(xs.take(k) =~= xs);
    } else {
        assert(xs.drop_last().take(k) =~= xs.take(k));
        lemma_block_lines_err_prefix(p, xs.drop_last(), k, ns, ni);
    }
}

pub open spec fn strs_view(v: Seq<String>) -> Seq<Seq<char>> {
    v.map_values(|s: String| s@)
}

/// Emits a literal: an integer is pushed as is, a string by the label of
/// its entry in `.data`, numbered by the strings met before it.
fn write_literal(out: &mut Vec<String>, strings: &mut Vec<String>, lit: &Literal)
    ensures
        lines_view(final(out)@) == lines_view(old(out)@) + seq![
            match lit@ {
                LitV::Int(v) => "push "@ + int_text(v),
                LitV::Str(_) => "push "@ + str_label(old(strings)@.len()),
            },
        ],
        strs_view(final(strings)@) == strs_view(old(strings)@) + stmt_strings(StmtV::Lit(lit@)),
        final(out)@.len() == old(out)@.len() + 1,
{
    let ghost start = lines_view(out@);
    let ghost old_strings = strings@;
    match lit {
        Literal::Integer(num) => {
            let mut l = "push ".to_owned();
            push_int(&mut l, *num);
            emit(out, l);
            assert(strs_view(strings@) =~= strs_view(old_strings) + stmt_strings(StmtV::Lit(lit@)));
        },
        Literal::String(string) => {
            let ns = strings.len();
            write_label_line(out, "push str_", ns, "");
            strings.push(string.clone());
            assert(lines_view(out@) =~= start + seq!["push "@ + str_label(ns as nat)]) by {
                reveal_strlit("push str_");
                reveal_strlit("push ");
                reveal_strlit("str_");
                reveal_strlit("");
                assert("push str_"@ + nat_text(ns as nat) + ""@ =~= "push "@ + ("str_"@ + nat_text(
                    ns as nat,
                )));
            }
            assert(strs_view(strings@) =~= strs_view(old_strings) + stmt_strings(StmtV::Lit(lit@)));
        },
    }
}

/// Emits the code of one statement. String literals met are added to
/// `strings`; `num_ifs` if-statements came before this one.
#[verifier::spinoff_prover]
fn write_stmt(
    out: &mut Vec<String>,
    strings: &mut Vec<String>,
    stmt: &Stmt,
    ast: &Program,
    num_ifs: usize,
) -> (r: Result<usize, CodegenError>)
    requires
        num_ifs <= old(out)@.len(),
    ensures
        match r {
            Ok(n) => {
                let ls = stmt_lines(ast@, stmt@, old(strings)@.len(), num_ifs as nat);
                &&& ls is Ok
                &&& lines_view(final(out)@) == lines_view(old(out)@) + ls->Ok_0
                &&& strs_view(final(strings)@) == strs_view(old(strings)@) + stmt_strings(stmt@)
                &&& n == num_ifs + stmt_ifs(stmt@)
                &&& n <= final(out)@.len()
            },
            Err(e) => stmt_lines(ast@, stmt@, old(strings)@.len(), num_ifs as nat) == Err::<
                Seq<Seq<char>>,
                Seq<char>,
            >(e@),
        },
    decreases stmt,
{
    let ghost start = lines_view(out@);
    let ghost ns = strings@.len();
    match stmt {
        Stmt::Literal(lit) => {
            write_literal(out, strings, lit);
            assert(stmt@ == StmtV::Lit(lit@));
            assert(lines_view(out@) == start + stmt_lines(ast@, stmt@, ns, num_ifs as nat)->Ok_0);
            Ok(num_ifs)
        },
        Stmt::MathOp(op) => {
            write_math(out, *op);
            assert(stmt@ == StmtV::Math(*op));
            assert(strs_view(strings@) =~= strs_view(strings@) + stmt_strings(stmt@));
            Ok(num_ifs)
        },
        Stmt::ComparisonOp(op) => {
            write_comparison(out, *op);
            assert(stmt@ == StmtV::Cmp(*op));
            assert(strs_view(strings@) =~= strs_view(strings@) + stmt_strings(stmt@));
            Ok(num_ifs)
        },
        Stmt::Ident(name) => {
            assert(stmt@ == StmtV::Ident(name@));
            match write_ident(out, ast, name) {
                Ok(()) => {
                    assert(strs_view(strings@) =~= strs_view(strings@) + stmt_strings(stmt@));
                    Ok(num_ifs)
                },
                Err(e) => Err(e),
            }
        },
        Stmt::IfStmt(if_stmt) => {
            assert(stmt@ == if_view(if_stmt));
            write_if(out, strings, if_stmt, ast, num_ifs)
        },
    }
}

/// Emits an if-statement: the test, the then-block, and the else-block if
/// there is one, labelled by the number of if-statements met before it.
#[verifier::spinoff_prover]
fn write_if(
    out: &mut Vec<String>,
    strings: &mut Vec<String>,
    if_stmt: &IfStmt,
    ast: &Program,
    num_ifs: usize,
) -> (r: Result<usize, CodegenError>)
    requires
        num_ifs <= old(out)@.len(),
    ensures
        ({
            let st = if_view(if_stmt);
            match r {
                Ok(n) => {
                    let ls = stmt_lines(ast@, st, old(strings)@.len(), num_ifs as nat);
                    &&& ls is Ok
                    &&& lines_view(final(out)@) == lines_view(old(out)@) + ls->Ok_0
                    &&& strs_view(final(strings)@) == strs_view(old(strings)@) + stmt_strings(st)
                    &&& n == num_ifs + stmt_ifs(st)
                    &&& n <= final(out)@.len()
                },
                Err(e) => stmt_lines(ast@, st, old(strings)@.len(), num_ifs as nat) == Err::<
                    Seq<Seq<char>>,
                    Seq<char>,
                >(e@),
            }
        }),
    decreases if_stmt,
{
    let ghost start = lines_view(out@);
    let ghost ns = strings@.len();
    let ghost old_strings = strs_view(strings@);
    emit_str(out, "pop rax");
    emit_str(out, "cmp rax, 0");
    write_label_line(out, "je IF_", num_ifs, "");
    let label = num_ifs;
    // Each if-statement emits lines before its number is taken, so the
    // counter stays below the number of lines and cannot overflow.
    let emitted = out.len();
    assert(label < emitted);
    let ghost head = lines_view(out@);
    assert(head =~= start + seq!["pop rax"@, "cmp rax, 0"@, "je "@ + if_label(label as nat)]) by {
        reveal_strlit("je IF_");
        reveal_strlit("je ");
        reveal_strlit("IF_");
        reveal_strlit("");
        assert("je IF_"@ + nat_text(label as nat) + ""@ =~= "je IF_"@ + nat_text(label as nat));
        assert("je IF_"@ + nat_text(label as nat) =~= "je "@ + ("IF_"@ + nat_text(label as nat)));
    }
    let n1 = match write_block(out, strings, &if_stmt.if_expr, ast, num_ifs + 1) {
        Ok(n) => n,
        Err(e) => {
            return Err(e);
        },
    };
    let ghost then_strings = strs_view(strings@);
    match &if_stmt.else_expr {
        None => {
            write_label_line(out, "IF_", label, ":");
            assert(lines_view(out@) =~= start + stmt_lines(ast@, if_view(if_stmt), ns, num_ifs as nat)->Ok_0);
            assert(strs_view(strings@) =~= old_strings + stmt_strings(if_view(if_stmt)));
            Ok(n1)
        },
        Some(else_expr) => {
            write_label_line(out, "jmp ELSE_", label, "");
            write_label_line(out, "IF_", label, ":");
            let n2 = match write_block(out, strings, else_expr, ast, n1) {
                Ok(n) => n,
                Err(e) => {
                    assert(if_view(if_stmt) == StmtV::If(if_stmt.if_expr@, Some(else_expr@)));
                    assert(then_strings.len() == ns + block_strings(if_stmt.if_expr@).len());
                    return Err(e);
                },
            };
            write_label_line(out, "ELSE_", label, ":");
            assert(lines_view(out@) =~= start + stmt_lines(ast@, if_view(if_stmt), ns, num_ifs as nat)->Ok_0) by {
                reveal_strlit("jmp ELSE_");
                reveal_strlit("jmp ");
                reveal_strlit("ELSE_");
                reveal_strlit("");
                assert("jmp ELSE_"@ + nat_text(label as nat) + ""@ =~= "jmp ELSE_"@ + nat_text(label as nat));
                assert("jmp ELSE_"@ + nat_text(label as nat) =~= "jmp "@ + ("ELSE_"@ + nat_text(label as nat)));
            }
            assert(strs_view(strings@) =~= old_strings + stmt_strings(if_view(if_stmt)));
            Ok(n2)
        },
    }
}

pub open spec fn if_view(i: &IfStmt) -> StmtV {
    StmtV::If(
        i.if_expr@,
        match i.else_expr {
            Some(e) => Some(e@),
            None => None,
        },
    )
}

fn write_math(out: &mut Vec<String>, op: MathOp)
    ensures
        lines_view(final(out)@) == lines_view(old(out)@) + math_lines(op),
        final(out)@.len() == old(out)@.len() + math_lines(op).len(),
{
    let ghost start = lines_view(out@);
    match op {
        MathOp::Plus => {
            emit_str(out, "pop rbx");
            emit_str(out, "pop rax");
            emit_str(out, "add rax, rbx");
            emit_str(out, "push rax");
        },
        MathOp::Minus => {
            emit_str(out, "pop rbx");
            emit_str(out, "pop rax");
            emit_str(out, "sub rax, rbx");
            emit_str(out, "push rax");
        },
        MathOp::Multiply => {
            emit_str(out, "pop rbx");
            emit_str(out, "pop rax");
            emit_str(out, "imul rbx");
            emit_str(out, "push rax");
        },
        MathOp::Divide => {
            emit_str(out, "pop rbx");
            emit_str(out, "pop rax");
            emit_str(out, "idiv rbx");
            emit_str(out, "push rax");
        },
        MathOp::Mod => {
            emit_str(out, "xor rdx, rdx");
            emit_str(out, "pop rbx");
            emit_str(out, "pop rax");
            emit_str(out, "idiv rbx");
            emit_str(out, "push rdx");
        },
    }
    assert(lines_view(out@) =~= start + math_lines(op));
}

fn write_comparison(out: &mut Vec<String>, op: ComparisonOp)
    ensures
        lines_view(final(out)@) == lines_view(old(out)@) + cmp_lines(op),
        final(out)@.len() == old(out)@.len() + cmp_lines(op).len(),
{
    let ghost start = lines_view(out@);
    emit_str(out, "xor rax, rax");
    emit_str(out, "pop rcx");
    emit_str(out, "pop rbx");
    emit_str(out, "cmp rbx, rcx");
    match op {
        ComparisonOp::Eq => emit_str(out, "sete al"),
        ComparisonOp::NotEq => emit_str(out, "setne al"),
        ComparisonOp::Gt => emit_str(out, "setg al"),
        ComparisonOp::Lt => emit_str(out, "setl al"),
    }
    emit_str(out, "push rax");
    assert(lines_view(out@) =~= start + cmp_lines(op));
}

/// Emits the code of a block, statement by statement.
#[verifier::spinoff_prover]
fn write_block(
    out: &mut Vec<String>,
    strings: &mut Vec<String>,
    block: &Expr,
    ast: &Program,
    num_ifs: usize,
) -> (r: Result<usize, CodegenError>)
    requires
        num_ifs <= old(out)@.len(),
    ensures
        match r {
            Ok(n) => {
                let ls = block_lines(ast@, block@, old(strings)@.len(), num_ifs as nat);
                &&& ls is Ok
                &&& lines_view(final(out)@) == lines_view(old(out)@) + ls->Ok_0
                &&& strs_view(final(strings)@) == strs_view(old(strings)@) + block_strings(block@)
                &&& n == num_ifs + block_ifs(block@)
                &&& n <= final(out)@.len()
            },
            Err(e) => block_lines(ast@, block@, old(strings)@.len(), num_ifs as nat) == Err::<
                Seq<Seq<char>>,
                Seq<char>,
            >(e@),
        },
    decreases block,
{
    let ghost start = lines_view(out@);
    let ghost start_strings = strs_view(strings@);
    let ghost ns = strings@.len();
    let ghost ss = block.0@;
    let mut n = num_ifs;
    let mut i: usize = 0;
    assert(ss.take(0) =~= Seq::<Stmt>::empty());
    assert(start + Seq::<Seq<char>>::empty() =~= start);
    assert(start_strings + Seq::<Seq<char>>::empty() =~= start_strings);
    while i < block.0.len()
        invariant
            ss == block.0@,
            i <= ss.len(),
            n <= out@.len(),
            start_strings.len() == ns,
            ns == old(strings)@.len(),
            block_lines(ast@, view_block(ss.take(i as int)), ns, num_ifs as nat) is Ok,
            lines_view(out@) == start + block_lines(ast@, view_block(ss.take(i as int)), ns, num_ifs as nat)->Ok_0,
            strs_view(strings@) == start_strings + block_strings(view_block(ss.take(i as int))),
            n == num_ifs + block_ifs(view_block(ss.take(i as int))),
        decreases ss.len() - i,
    {
        proof {
            lemma_view_block_take(ss, i as int);
        }
        let ghost prev = view_block(ss.take(i as int));
        assert(strs_view(strings@).len() == strings@.len());
        assert(strings@.len() == ns + block_strings(prev).len());
        let stmt = &block.0[i];
        assert(stmt@ == view_stmt(ss[i as int]));
        match write_stmt(out, strings, stmt, ast, n) {
            Ok(n2) => {
                n = n2;
            },
            Err(e) => {
                proof {
                    assert(block_lines(ast@, view_block(ss.take(i + 1)), ns, num_ifs as nat) == Err::<
                        Seq<Seq<char>>,
                        Seq<char>,
                    >(e@));
                    lemma_view_block_prefix(ss, i + 1);
                    lemma_block_lines_err_prefix(ast@, view_block(ss), i + 1, ns, num_ifs as nat);
                    assert(ss.take(ss.len() as int) =~= ss);
                    lemma_view_block_prefix(ss, ss.len() as int);
                    assert(view_block(ss).take(view_block(ss).len() as int) =~= view_block(ss));
                    assert(block_lines(ast@, view_block(ss), ns, num_ifs as nat) == Err::<
                        Seq<Seq<char>>,
                        Seq<char>,
                    >(e@));
                    assert(block@ == view_block(ss));
                }
                return Err(e);
            },
        }
        proof {
            let prev = view_block(ss.take(i as int));
            let cur = view_block(ss.take(i + 1));
            assert(lines_view(out@) =~= start + block_lines(ast@, cur, ns, num_ifs as nat)->Ok_0);
            assert(strs_view(strings@) =~= start_strings + block_strings(cur));
        }
        i = i + 1;
    }
    assert(ss.take(i as int) =~= ss);
    Ok(n)
}

fn newline_escapes_exec(s: &str) -> (r: String)
    ensures
        r@ == newline_escapes(s@),
{
    let chars = chars_of(s);
    let n = chars.len();
    let mut out = String::new();
    let mut run: usize = 0;
    let mut i: usize = 0;
    proof {
        reveal_strlit("\", 10, \"");
    }
    assert(chars@.skip(0) =~= chars@);
    assert(out@ + chars@.subrange(0, 0) =~= Seq::<char>::empty());
    while i < n
        invariant
            chars@ == s@,
            n == chars@.len(),
            run <= i <= n,
            out@ + chars@.subrange(run as int, i as int) + newline_escapes(chars@.skip(i as int))
                == newline_escapes(s@),
        decreases n - i,
    {
        let ghost rest = chars@.skip(i as int);
        if i + 1 < n && chars[i] == '\\' && chars[i + 1] == 'n' {
            let ghost before = out@ + chars@.subrange(run as int, i as int);
            out.append(s.substring_char(run, i));
            out.append("\", 10, \"");
            assert(rest.skip(2) =~= chars@.skip(i + 2));
            assert(newline_escapes(rest) == "\", 10, \""@ + newline_escapes(rest.skip(2)));
            i = i + 2;
            run = i;
            assert(out@ + chars@.subrange(run as int, i as int) + newline_escapes(chars@.skip(i as int))
                =~= before + newline_escapes(rest));
        } else {
            assert(rest.skip(1) =~= chars@.skip(i + 1));
            assert(newline_escapes(rest) == seq![chars@[i as int]] + newline_escapes(rest.skip(1)));
            assert(chars@.subrange(run as int, i + 1) =~= chars@.subrange(run as int, i as int)
                + seq![chars@[i as int]]);
            i = i + 1;
        }
    }
    out.append(s.substring_char(run, n));
    assert(chars@.skip(n as int) =~= Seq::<char>::empty());
    assert(newline_escapes(Seq::<char>::empty()) == Seq::<char>::empty());
    assert(out@ =~= newline_escapes(s@));
    out
}

/// Turns a quoted string token into a NASM `db` operand: a trailing `\n"`
/// becomes `", 10`, and every other `\n` becomes `", 10, "`.
pub fn escape_str(string: String) -> (r: String)
    ensures
        r@ == escape(string@),
{
    let n = string.unicode_len();
    let text = string.as_str();
    proof {
        reveal_strlit("\\n\"");
    }
    if n >= 3 && text.get_char(n - 3) == '\\' && text.get_char(n - 2) == 'n' && text.get_char(n - 1)
        == '"' {
        let mut body = text.substring_char(0, n - 3).to_owned();
        body.append("\", 10");
        assert(string@.subrange(n - 3, n as int) =~= "\\n\""@);
        newline_escapes_exec(body.as_str())
    } else {
        if n >= 3 {
            assert(string@.subrange(n - 3, n as int) != "\\n\""@) by {
                if string@.subrange(n - 3, n as int) == "\\n\""@ {
                    assert(string@.subrange(n - 3, n as int)[0] == string@[n - 3]);
                    assert(string@.subrange(n - 3, n as int)[1] == string@[n - 2]);
                    assert(string@.subrange(n - 3, n as int)[2] == string@[n - 1]);
                }
            }
        }
        newline_escapes_exec(text)
    }
}

fn write_function(
    out: &mut Vec<String>,
    strings: &mut Vec<String>,
    name: &String,
    function: &Function,
    ast: &Program,
    num_ifs: usize,
) -> (r: Result<usize, CodegenError>)
    requires
        num_ifs <= old(out)@.len(),
    ensures
        match r {
            Ok(n) => {
                let ls = function_lines(ast@, name@, function@, old(strings)@.len(), num_ifs as nat);
                &&& ls is Ok
                &&& lines_view(final(out)@) == lines_view(old(out)@) + ls->Ok_0
                &&& strs_view(final(strings)@) == strs_view(old(strings)@) + block_strings(
                    function@.body,
                )
                &&& n == num_ifs + block_ifs(function@.body)
                &&& n <= final(out)@.len()
            },
            Err(e) => function_lines(ast@, name@, function@, old(strings)@.len(), num_ifs as nat)
                == Err::<Seq<Seq<char>>, Seq<char>>(e@),
        },
{
    let ghost start = lines_view(out@);
    let mut l = name.clone();
    l.append(":");
    emit(out, l);
    let main = str_eq(name.as_str(), "main");
    if main {
        emit_str(out, "mov qword [ret_sp], ret_stack_end");
    } else {
        emit_str(out, "mov [ret_sp], rsp");
        emit_str(out, "mov rsp, rax");
    }
    let n = match write_block(out, strings, &function.expr, ast, num_ifs) {
        Ok(n) => n,
        Err(e) => {
            return Err(e);
        },
    };
    if !main {
        emit_str(out, "mov rax, rsp");
        emit_str(out, "mov rsp, [ret_sp]");
    }
    emit_str(out, "ret");
    assert(lines_view(out@) =~= start + function_lines(ast@, name@, function@, old(strings)@.len(), num_ifs as nat)->Ok_0);
    Ok(n)
}

fn constant_line_exec(c: &(String, Literal)) -> (r: String)
    ensures
        r@ == constant_line((c.0@, c.1@)),
{
    let mut l = c.0.clone();
    match &c.1 {
        Literal::Integer(v) => {
            l.append(": ");
            push_int(&mut l, *v);
        },
        Literal::String(s) => {
            l.append(": db ");
            l.append(escape_str(s.clone()).as_str());
            l.append(", 0");
        },
    }
    l
}

fn join(lines: &Vec<String>) -> (r: String)
    ensures
        r@ == join_lines(lines_view(lines@)),
{
    let mut text = String::new();
    let mut i: usize = 0;
    assert(lines_view(lines@).take(0) =~= Seq::<Seq<char>>::empty());
    while i < lines.len()
        invariant
            i <= lines@.len(),
            text@ == join_lines(lines_view(lines@).take(i as int)),
        decreases lines@.len() - i,
    {
        text.append(lines[i].as_str());
        text.append("\n");
        assert(lines_view(lines@).take(i + 1).drop_last() =~= lines_view(lines@).take(i as int));
        i = i + 1;
    }
    assert(lines_view(lines@).take(i as int) =~= lines_view(lines@));
    text
}

/// Emits the `.data` section: its header, the scalar constants, the string
/// literals met in the code, and the format string of `print`.
fn write_data_section(out: &mut Vec<String>, ast: &Program, strings: &Vec<String>)
    ensures
        lines_view(final(out)@) == lines_view(old(out)@) + seq![""@, "section .data"@] + data_lines(
            ast@,
            strs_view(strings@),
        ),
{
    let ghost p = ast@;
    let ghost start = lines_view(out@);
    emit_str(out, "");
    emit_str(out, "section .data");
    let ghost before_data = lines_view(out@);
    let mut i: usize = 0;
    assert(before_data + Seq::<Seq<char>>::empty() =~= before_data);
    while i < ast.constants.len()
        invariant
            p == ast@,
            before_data == start + seq![""@, "section .data"@],
            i <= ast.constants@.len(),
            lines_view(out@) == before_data + p.constants.take(i as int).map_values(
                |c: (Seq<char>, LitV)| constant_line(c),
            ),
        decreases ast.constants@.len() - i,
    {
        emit(out, constant_line_exec(&ast.constants[i]));
        assert(p.constants.take(i + 1).map_values(|c: (Seq<char>, LitV)| constant_line(c))
            =~= p.constants.take(i as int).map_values(|c: (Seq<char>, LitV)| constant_line(c)).push(
            constant_line(p.constants[i as int]),
        ));
        i = i + 1;
    }
    assert(p.constants.take(i as int) =~= p.constants);
    let ghost before_strings = lines_view(out@);
    assert(before_strings == start + seq![""@, "section .data"@] + p.constants.map_values(
        |c: (Seq<char>, LitV)| constant_line(c),
    ));
    let ghost all_strings = strs_view(strings@);
    let mut i: usize = 0;
    assert(before_strings + Seq::<Seq<char>>::empty() =~= before_strings);
    while i < strings.len()
        invariant
            p == ast@,
            before_strings == start + seq![""@, "section .data"@] + p.constants.map_values(
                |c: (Seq<char>, LitV)| constant_line(c),
            ),
            i <= strings@.len(),
            all_strings == strs_view(strings@),
            lines_view(out@) == before_strings + all_strings.take(i as int).map(
                |j: int, s: Seq<char>| string_line(j as nat, s),
            ),
        decreases strings@.len() - i,
    {
        let mut l = "str_".to_owned();
        push_nat(&mut l, i as u64);
        l.append(": db ");
        l.append(escape_str(strings[i].clone()).as_str());
        l.append(", 0");
        emit(out, l);
        assert(all_strings.take(i + 1).map(|j: int, s: Seq<char>| string_line(j as nat, s))
            =~= all_strings.take(i as int).map(|j: int, s: Seq<char>| string_line(j as nat, s)).push(
            string_line(i as nat, all_strings[i as int]),
        ));
        i = i + 1;
    }
    assert(all_strings.take(i as int) =~= all_strings);
    emit_str(out, "fint: db \"%d\", 0");
    emit_str(out, "");
    assert(lines_view(out@) =~= start + seq![""@, "section .data"@] + data_lines(p, all_strings));
}

/// Emits the `.bss` section: the return stack, then the arrays.
fn write_bss_section(out: &mut Vec<String>, ast: &Program)
    ensures
        lines_view(final(out)@) == lines_view(old(out)@) + bss_head_lines() + ast@.arrays.map_values(
            |a: (Seq<char>, nat)| array_line(a),
        ),
{
    let ghost p = ast@;
    let ghost start = lines_view(out@);
    emit_str(out, "section .bss");
    emit_str(out, "ret_sp: resq 1");
    let mut l = "ret_stack: resq ".to_owned();
    push_nat(&mut l, RET_STACK_SIZE);
    emit(out, l);
    emit_str(out, "ret_stack_end: equ $");
    let ghost before_arrays = lines_view(out@);
    assert(before_arrays =~= start + bss_head_lines());
    let mut i: usize = 0;
    assert(before_arrays + Seq::<Seq<char>>::empty() =~= before_arrays);
    while i < ast.arrays.len()
        invariant
            p == ast@,
            before_arrays == start + bss_head_lines(),
            i <= ast.arrays@.len(),
            lines_view(out@) == before_arrays + p.arrays.take(i as int).map_values(
                |a: (Seq<char>, nat)| array_line(a),
            ),
        decreases ast.arrays@.len() - i,
    {
        let mut l = ast.arrays[i].0.clone();
        l.append(": resb ");
        push_nat(&mut l, ast.arrays[i].1 as u64);
        emit(out, l);
        assert(p.arrays.take(i + 1).map_values(|a: (Seq<char>, nat)| array_line(a))
            =~= p.arrays.take(i as int).map_values(|a: (Seq<char>, nat)| array_line(a)).push(
            array_line(p.arrays[i as int]),
        ));
        i = i + 1;
    }
    assert(p.arrays.take(i as int) =~= p.arrays);
    assert(lines_view(out@) =~= start + bss_head_lines() + p.arrays.map_values(
        |a: (Seq<char>, nat)| array_line(a),
    ));
}

/// Lowers a program to NASM assembly for x86-64 Linux: the `.text` section
/// with every function in declaration order, then `.data` with the scalar
/// constants, the string literals and the format string of `print`, then
/// `.bss` with the return stack and the arrays.
#[verifier::spinoff_prover]
pub fn generate_asm(ast: &Program) -> (r: Result<String, CodegenError>)
    ensures
        match r {
            Ok(text) => asm_text(ast@) == Ok::<Seq<char>, Seq<char>>(text@),
            Err(e) => asm_text(ast@) == Err::<Seq<char>, Seq<char>>(e@),
        },
{
    let ghost p = ast@;
    let mut out: Vec<String> = Vec::new();
    let mut strings: Vec<String> = Vec::new();
    emit_str(&mut out, "global main");
    emit_str(&mut out, "extern fputs, printf, fflush, stdout, malloc, free");
    emit_str(&mut out, "");
    emit_str(&mut out, "section .text");
    let ghost header = lines_view(out@);
    assert(header =~= header_lines());
    let mut num_ifs: usize = 0;
    let mut i: usize = 0;
    assert(p.functions.take(0) =~= Seq::<(Seq<char>, FunctionV)>::empty());
    assert(header + Seq::<Seq<char>>::empty() =~= header);
    assert(strs_view(strings@) =~= Seq::<Seq<char>>::empty());
    while i < ast.functions.len()
        invariant
            p == ast@,
            i <= ast.functions@.len(),
            num_ifs <= out@.len(),
            functions_lines(p, p.functions.take(i as int)) is Ok,
            lines_view(out@) == header + functions_lines(p, p.functions.take(i as int))->Ok_0,
            strs_view(strings@) == functions_strings(p.functions.take(i as int)),
            num_ifs == functions_ifs(p.functions.take(i as int)),
        decreases ast.functions@.len() - i,
    {
        let ghost prev = p.functions.take(i as int);
        let ghost cur = p.functions.take(i + 1);
        assert(cur.drop_last() =~= prev);
        assert(cur.last() == (ast.functions@[i as int].0@, ast.functions@[i as int].1@));
        assert(strs_view(strings@).len() == strings@.len());
        match write_function(&mut out, &mut strings, &ast.functions[i].0, &ast.functions[i].1, ast, num_ifs) {
            Ok(n) => {
                num_ifs = n;
            },
            Err(e) => {
                proof {
                    assert(functions_lines(p, cur) == Err::<Seq<Seq<char>>, Seq<char>>(e@));
                    lemma_functions_lines_err_prefix(p, p.functions, i + 1);
                }
                return Err(e);
            },
        }
        assert(lines_view(out@) =~= header + functions_lines(p, cur)->Ok_0);
        i = i + 1;
    }
    assert(p.functions.take(i as int) =~= p.functions);
    write_data_section(&mut out, ast, &strings);
    write_bss_section(&mut out, ast);
    assert(lines_view(out@) =~= asm_lines(p)->Ok_0);
    Ok(join(&out))
}

proof fn lemma_functions_lines_err_prefix(p: ProgramV, fs: Seq<(Seq<char>, FunctionV)>, k: int)
    requires
        0 <= k <= fs.len(),
        functions_lines(p, fs.take(k)) is Err,
    ensures
        functions_lines(p, fs) == functions_lines(p, fs.take(k)),
    decreases fs.len(),
{
    if k == fs.len() {
        assert(fs.take(k) =~= fs);
    } else {
        assert(fs.drop_last().take(k) =~= fs.take(k));
        lemma_functions_lines_err_prefix(p, fs.drop_last(), k);
    }
}

} // verus!
