use vstd::prelude::*;

use crate::ast::{ComparisonOp, FunctionV, LitV, MathOp, ProgramV, StmtV};
use crate::decimal::{int_text, nat_text};

verus! {

broadcast use vstd::seq::axiom_seq_index_decreases, vstd::seq::axiom_seq_subrange_decreases;

/// Number of 64-bit slots in the return stack.
pub const RET_STACK_SIZE: u64 = 256;

/// The value bound to `n` by the first entry of `s` that carries that name.
pub open spec fn find_name<V>(s: Seq<(Seq<char>, V)>, n: Seq<char>) -> Option<V>
    decreases s.len(),
{
    if s.len() == 0 {
        None
    } else {
        match find_name(s.drop_last(), n) {
            Some(v) => Some(v),
            None => if s.last().0 == n {
                Some(s.last().1)
            } else {
                None
            },
        }
    }
}

pub open spec fn math_lines(op: MathOp) -> Seq<Seq<char>> {
    match op {
        MathOp::Plus => seq!["pop rbx"@, "pop rax"@, "add rax, rbx"@, "push rax"@],
        MathOp::Minus => seq!["pop rbx"@, "pop rax"@, "sub rax, rbx"@, "push rax"@],
        MathOp::Multiply => seq!["pop rbx"@, "pop rax"@, "imul rbx"@, "push rax"@],
        MathOp::Divide => seq!["pop rbx"@, "pop rax"@, "idiv rbx"@, "push rax"@],
        MathOp::Mod => seq!["xor rdx, rdx"@, "pop rbx"@, "pop rax"@, "idiv rbx"@, "push rdx"@],
    }
}

pub open spec fn set_instr(op: ComparisonOp) -> Seq<char> {
    match op {
        ComparisonOp::Eq => "sete al"@,
        ComparisonOp::NotEq => "setne al"@,
        ComparisonOp::Gt => "setg al"@,
        ComparisonOp::Lt => "setl al"@,
    }
}

pub open spec fn cmp_lines(op: ComparisonOp) -> Seq<Seq<char>> {
    seq!["xor rax, rax"@, "pop rcx"@, "pop rbx"@, "cmp rbx, rcx"@, set_instr(op), "push rax"@]
}

/// The code of a built-in word, or `None` for any other name.
pub open spec fn builtin_lines(n: Seq<char>) -> Option<Seq<Seq<char>>> {
    if n == "dup"@ {
        Some(seq!["pop rax"@, "push rax"@, "push rax"@])
    } else if n == "drop"@ {
        Some(seq!["pop rax"@])
    } else if n == "swap"@ {
        Some(seq!["pop rax"@, "pop rbx"@, "push rax"@, "push rbx"@])
    } else if n == "puts"@ {
        Some(
            seq![
                "pop rdi"@,
                "mov rsi, [stdout]"@,
                "call fputs"@,
                "mov rdi, [stdout]"@,
                "call fflush"@,
            ],
        )
    } else if n == "print"@ {
        Some(seq!["mov rdi, fint"@, "pop rsi"@, "mov al, 0"@, "call printf"@])
    } else if n == "read"@ {
        Some(
            seq![
                "mov rax, 0"@,
                "mov rdi, 0"@,
                "pop rdx"@,
                "pop rsi"@,
                "syscall"@,
                "push rax"@,
            ],
        )
    } else {
        None
    }
}

/// A call of a user function: switch to the return stack, call, switch back.
pub open spec fn call_lines(n: Seq<char>) -> Seq<Seq<char>> {
    seq![
        "mov rax, rsp"@,
        "mov rsp, [ret_sp]"@,
        "call "@ + n,
        "mov [ret_sp], rsp"@,
        "mov rsp, rax"@,
    ]
}

/// The code of a name, looked up as a scalar constant, an array, a user
/// function and a built-in word, in that order; `Err` holds an unknown name.
pub open spec fn ident_lines(p: ProgramV, n: Seq<char>) -> Result<Seq<Seq<char>>, Seq<char>> {
    match find_name(p.constants, n) {
        Some(LitV::Int(_)) => Ok(seq!["push qword ["@ + n + "]"@]),
        Some(LitV::Str(_)) => Ok(seq!["push "@ + n]),
        None => if find_name(p.arrays, n) is Some {
            Ok(seq!["push "@ + n])
        } else if find_name(p.functions, n) is Some {
            Ok(call_lines(n))
        } else {
            match builtin_lines(n) {
                Some(ls) => Ok(ls),
                None => Err(n),
            }
        },
    }
}

/// The string literals of a statement, in source order.
pub open spec fn stmt_strings(st: StmtV) -> Seq<Seq<char>>
    decreases st,
{
    match st {
        StmtV::Lit(LitV::Str(s)) => seq![s],
        StmtV::If(th, el) => block_strings(th) + match el {
            Some(e) => block_strings(e),
            None => Seq::empty(),
        },
        _ => Seq::empty(),
    }
}

pub open spec fn block_strings(ss: Seq<StmtV>) -> Seq<Seq<char>>
    decreases ss,
{
    if ss.len() == 0 {
        Seq::empty()
    } else {
        block_strings(ss.drop_last()) + stmt_strings(ss.last())
    }
}

/// The number of if-statements in a statement, nested ones included.
pub open spec fn stmt_ifs(st: StmtV) -> nat
    decreases st,
{
    match st {
        StmtV::If(th, el) => 1 + block_ifs(th) + match el {
            Some(e) => block_ifs(e),
            None => 0,
        },
        _ => 0,
    }
}

pub open spec fn block_ifs(ss: Seq<StmtV>) -> nat
    decreases ss,
{
    if ss.len() == 0 {
        0
    } else {
        block_ifs(ss.drop_last()) + stmt_ifs(ss.last())
    }
}

pub open spec fn if_label(ni: nat) -> Seq<char> {
    "IF_"@ + nat_text(ni)
}

pub open spec fn else_label(ni: nat) -> Seq<char> {
    "ELSE_"@ + nat_text(ni)
}

pub open spec fn str_label(ns: nat) -> Seq<char> {
    "str_"@ + nat_text(ns)
}

/// The code of a statement. `ns` is the number of string literals met before
/// it, `ni` the number of if-statements; they give the labels it uses.
pub open spec fn stmt_lines(p: ProgramV, st: StmtV, ns: nat, ni: nat) -> Result<
    Seq<Seq<char>>,
    Seq<char>,
>
    decreases st,
{
    match st {
        StmtV::Lit(LitV::Int(v)) => Ok(seq!["push "@ + int_text(v)]),
        StmtV::Lit(LitV::Str(_)) => Ok(seq!["push "@ + str_label(ns)]),
        StmtV::Math(op) => Ok(math_lines(op)),
        StmtV::Cmp(op) => Ok(cmp_lines(op)),
        StmtV::Ident(n) => ident_lines(p, n),
        StmtV::If(th, el) => {
            let head = seq!["pop rax"@, "cmp rax, 0"@, "je "@ + if_label(ni)];
            match block_lines(p, th, ns, ni + 1) {
                Err(n) => Err(n),
                Ok(then_lines) => match el {
                    None => Ok(head + then_lines + seq![if_label(ni) + ":"@]),
                    Some(e) => match block_lines(
                        p,
                        e,
                        ns + block_strings(th).len(),
                        ni + 1 + block_ifs(th),
                    ) {
                        Err(n) => Err(n),
                        Ok(else_lines) => Ok(
                            head + then_lines + seq!["jmp "@ + else_label(ni), if_label(ni) + ":"@]
                                + else_lines + seq![else_label(ni) + ":"@],
                        ),
                    },
                },
            }
        },
    }
}

pub open spec fn block_lines(p: ProgramV, ss: Seq<StmtV>, ns: nat, ni: nat) -> Result<
    Seq<Seq<char>>,
    Seq<char>,
>
    decreases ss,
{
    if ss.len() == 0 {
        Ok(Seq::empty())
    } else {
        match block_lines(p, ss.drop_last(), ns, ni) {
            Err(n) => Err(n),
            Ok(front) => match stmt_lines(
                p,
                ss.last(),
                ns + block_strings(ss.drop_last()).len(),
                ni + block_ifs(ss.drop_last()),
            ) {
                Err(n) => Err(n),
                Ok(back) => Ok(front + back),
            },
        }
    }
}

pub open spec fn is_main(n: Seq<char>) -> bool {
    n == "main"@
}

/// On entry `main` sets up the return stack; any other function saves the
/// caller's return address stack pointer and takes the parameter stack from
/// `rax`.
pub open spec fn prologue(n: Seq<char>) -> Seq<Seq<char>> {
    if is_main(n) {
        seq!["mov qword [ret_sp], ret_stack_end"@]
    } else {
        seq!["mov [ret_sp], rsp"@, "mov rsp, rax"@]
    }
}

pub open spec fn epilogue(n: Seq<char>) -> Seq<Seq<char>> {
    if is_main(n) {
        Seq::empty()
    } else {
        seq!["mov rax, rsp"@, "mov rsp, [ret_sp]"@]
    }
}

pub open spec fn function_lines(p: ProgramV, n: Seq<char>, f: FunctionV, ns: nat, ni: nat) -> Result<
    Seq<Seq<char>>,
    Seq<char>,
> {
    match block_lines(p, f.body, ns, ni) {
        Err(e) => Err(e),
        Ok(body) => Ok(seq![n + ":"@] + prologue(n) + body + epilogue(n) + seq!["ret"@]),
    }
}

pub open spec fn functions_strings(fs: Seq<(Seq<char>, FunctionV)>) -> Seq<Seq<char>>
    decreases fs.len(),
{
    if fs.len() == 0 {
        Seq::empty()
    } else {
        functions_strings(fs.drop_last()) + block_strings(fs.last().1.body)
    }
}

pub open spec fn functions_ifs(fs: Seq<(Seq<char>, FunctionV)>) -> nat
    decreases fs.len(),
{
    if fs.len() == 0 {
        0
    } else {
        functions_ifs(fs.drop_last()) + block_ifs(fs.last().1.body)
    }
}

/// The `.text` section's functions, in declaration order.
pub open spec fn functions_lines(p: ProgramV, fs: Seq<(Seq<char>, FunctionV)>) -> Result<
    Seq<Seq<char>>,
    Seq<char>,
>
    decreases fs.len(),
{
    if fs.len() == 0 {
        Ok(Seq::empty())
    } else {
        match functions_lines(p, fs.drop_last()) {
            Err(e) => Err(e),
            Ok(front) => match function_lines(
                p,
                fs.last().0,
                fs.last().1,
                functions_strings(fs.drop_last()).len(),
                functions_ifs(fs.drop_last()),
            ) {
                Err(e) => Err(e),
                Ok(back) => Ok(front + back),
            },
        }
    }
}

/// The characters of `s` with each two-character sequence `\n` replaced by
/// `", 10, "`, scanning from the left.
pub open spec fn newline_escapes(s: Seq<char>) -> Seq<char>
    decreases s.len(),
{
    if s.len() >= 2 && s[0] == '\\' && s[1] == 'n' {
        "\", 10, \""@ + newline_escapes(s.skip(2))
    } else if s.len() >= 1 {
        seq![s[0]] + newline_escapes(s.skip(1))
    } else {
        Seq::empty()
    }
}

/// A quoted string token as a NASM `db` operand: a trailing `\n"` becomes
/// `", 10`, and every other `\n` becomes `", 10, "`.
pub open spec fn escape(s: Seq<char>) -> Seq<char> {
    if s.len() >= 3 && s.subrange(s.len() - 3, s.len() as int) == "\\n\""@ {
        newline_escapes(s.take(s.len() - 3) + "\", 10"@)
    } else {
        newline_escapes(s)
    }
}

pub open spec fn constant_line(c: (Seq<char>, LitV)) -> Seq<char> {
    match c.1 {
        LitV::Int(v) => c.0 + ": "@ + int_text(v),
        LitV::Str(s) => c.0 + ": db "@ + escape(s) + ", 0"@,
    }
}

pub open spec fn string_line(i: nat, s: Seq<char>) -> Seq<char> {
    str_label(i) + ": db "@ + escape(s) + ", 0"@
}

pub open spec fn array_line(a: (Seq<char>, nat)) -> Seq<char> {
    a.0 + ": resb "@ + nat_text(a.1)
}

pub open spec fn header_lines() -> Seq<Seq<char>> {
    seq![
        "global main"@,
        "extern fputs, printf, fflush, stdout, malloc, free"@,
        ""@,
        "section .text"@,
    ]
}

pub open spec fn bss_head_lines() -> Seq<Seq<char>> {
    seq![
        "section .bss"@,
        "ret_sp: resq 1"@,
        "ret_stack: resq "@ + nat_text(RET_STACK_SIZE as nat),
        "ret_stack_end: equ $"@,
    ]
}

/// The `.data` section after its header: scalar constants, then the string
/// literals in the order met, then the format string for `print`.
pub open spec fn data_lines(p: ProgramV, strings: Seq<Seq<char>>) -> Seq<Seq<char>> {
    p.constants.map_values(|c: (Seq<char>, LitV)| constant_line(c)) + strings.map(
        |i: int, s: Seq<char>| string_line(i as nat, s),
    ) + seq!["fint: db \"%d\", 0"@, ""@]
}

/// The whole assembly file, line by line, or the first unknown name.
pub open spec fn asm_lines(p: ProgramV) -> Result<Seq<Seq<char>>, Seq<char>> {
    match functions_lines(p, p.functions) {
        Err(e) => Err(e),
        Ok(text) => Ok(
            header_lines() + text + seq![""@, "section .data"@] + data_lines(
                p,
                functions_strings(p.functions),
            ) + bss_head_lines() + p.arrays.map_values(|a: (Seq<char>, nat)| array_line(a)),
        ),
    }
}

/// Lines joined into a text, each ended by a newline.
pub open spec fn join_lines(ls: Seq<Seq<char>>) -> Seq<char>
    decreases ls.len(),
{
    if ls.len() == 0 {
        Seq::empty()
    } else {
        join_lines(ls.drop_last()) + ls.last() + "\n"@
    }
}

pub open spec fn asm_text(p: ProgramV) -> Result<Seq<char>, Seq<char>> {
    match asm_lines(p) {
        Err(e) => Err(e),
        Ok(ls) => Ok(join_lines(ls)),
    }
}

} // verus!
