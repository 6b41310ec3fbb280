use vstd::prelude::*;

use crate::ast::{
    ComparisonOp, FunctionV, LitV, MathOp, ProgramV, StmtV, tables_keyed,
};
use crate::decimal::{digits_value, int_text, is_digits, lemma_nat_text_digits, nat_text};
use crate::lowering::{
    array_line, asm_lines, block_ifs, block_lines, block_strings, bss_head_lines, builtin_lines,
    cmp_lines, constant_line, data_lines, else_label, epilogue, escape, find_name, function_lines,
    functions_ifs, functions_lines, functions_strings, header_lines, ident_lines, if_label,
    is_main, math_lines, prologue, stmt_ifs, stmt_lines, stmt_strings, str_label, string_line,
};

verus! {

broadcast use vstd::seq::axiom_seq_index_decreases, vstd::seq::axiom_seq_subrange_decreases;

/// The consecutive numbers `from`, `from + 1`, ..., `from + n - 1`.
pub open spec fn number_range(from: nat, n: nat) -> Seq<nat> {
    Seq::new(n, |i: int| (from + i) as nat)
}

/// The numbers of the `IF_n:` labels that the code of a statement defines,
/// in the order in which they are emitted, when `ni` if-statements came
/// before it: an if-statement's label follows its then-block.
pub open spec fn stmt_if_numbers(st: StmtV, ni: nat) -> Seq<nat>
    decreases st,
{
    match st {
        StmtV::If(th, el) => block_if_numbers(th, ni + 1) + seq![ni] + match el {
            Some(e) => block_if_numbers(e, ni + 1 + block_ifs(th)),
            None => Seq::empty(),
        },
        _ => Seq::empty(),
    }
}

pub open spec fn block_if_numbers(ss: Seq<StmtV>, ni: nat) -> Seq<nat>
    decreases ss,
{
    if ss.len() == 0 {
        Seq::empty()
    } else {
        block_if_numbers(ss.drop_last(), ni) + stmt_if_numbers(
            ss.last(),
            ni + block_ifs(ss.drop_last()),
        )
    }
}

/// The numbers of the `ELSE_n:` labels that the code of a statement defines:
/// those of its if-statements that have an else-block.
pub open spec fn stmt_else_numbers(st: StmtV, ni: nat) -> Seq<nat>
    decreases st,
{
    match st {
        StmtV::If(th, el) => block_else_numbers(th, ni + 1) + match el {
            Some(e) => block_else_numbers(e, ni + 1 + block_ifs(th)) + seq![ni],
            None => Seq::empty(),
        },
        _ => Seq::empty(),
    }
}

pub open spec fn block_else_numbers(ss: Seq<StmtV>, ni: nat) -> Seq<nat>
    decreases ss,
{
    if ss.len() == 0 {
        Seq::empty()
    } else {
        block_else_numbers(ss.drop_last(), ni) + stmt_else_numbers(
            ss.last(),
            ni + block_ifs(ss.drop_last()),
        )
    }
}

/// `x` holds each of `lo`, ..., `hi - 1` exactly once, and nothing else.
pub open spec fn covers(x: Seq<nat>, lo: nat, hi: nat) -> bool {
    &&& x.no_duplicates()
    &&& forall|m: nat| x.contains(m) <==> lo <= m < hi
}

proof fn lemma_covers_concat(x: Seq<nat>, y: Seq<nat>, a: nat, b: nat, c: nat, d: nat)
    requires
        covers(x, a, b),
        covers(y, c, d),
        b <= c || d <= a,
    ensures
        (x + y).no_duplicates(),
        forall|m: nat| (x + y).contains(m) <==> (a <= m < b || c <= m < d),
{
    let z = x + y;
    assert forall|i: int, j: int| 0 <= i < z.len() && 0 <= j < z.len() && i != j implies z[i]
        != z[j] by {
        if i < x.len() && j >= x.len() {
            assert(x.contains(z[i]));
            assert(y.contains(z[j]));
        } else if i >= x.len() && j < x.len() {
            assert(y.contains(z[i]));
            assert(x.contains(z[j]));
        }
    }
    assert forall|m: nat| z.contains(m) <==> (a <= m < b || c <= m < d) by {
        if z.contains(m) {
            let i = choose|i: int| 0 <= i < z.len() && z[i] == m;
            if i < x.len() {
                assert(x.contains(m));
            } else {
                assert(y[i - x.len()] == m);
                assert(y.contains(m));
            }
        }
        if a <= m < b {
            assert(x.contains(m));
            let i = choose|i: int| 0 <= i < x.len() && x[i] == m;
            assert(z[i] == m);
        }
        if c <= m < d {
            assert(y.contains(m));
            let i = choose|i: int| 0 <= i < y.len() && y[i] == m;
            assert(z[x.len() + i] == m);
        }
    }
}

/// If-statements are numbered densely and without repetition: those of a
/// statement met after `ni` others get exactly `ni`, `ni + 1`, ..., each once.
pub proof fn lemma_stmt_if_numbers(st: StmtV, ni: nat)
    ensures
        covers(stmt_if_numbers(st, ni), ni, ni + stmt_ifs(st)),
    decreases st,
{
    match st {
        StmtV::If(th, el) => {
            let a = block_ifs(th);
            lemma_block_if_numbers(th, ni + 1);
            let x = block_if_numbers(th, ni + 1);
            let one = seq![ni];
            assert(covers(one, ni, ni + 1)) by {
                assert forall|m: nat| one.contains(m) <==> ni <= m < ni + 1 by {
                    if m == ni {
                        assert(one[0] == m);
                    }
                }
            }
            lemma_covers_concat(x, one, ni + 1, ni + 1 + a, ni, ni + 1);
            let xo = x + one;
            assert(covers(xo, ni, ni + 1 + a));
            match el {
                Some(e) => {
                    lemma_block_if_numbers(e, ni + 1 + a);
                    let y = block_if_numbers(e, ni + 1 + a);
                    lemma_covers_concat(xo, y, ni, ni + 1 + a, ni + 1 + a, ni + 1 + a + block_ifs(e));
                },
                None => {
                    assert(xo + Seq::<nat>::empty() =~= xo);
                },
            }
        },
        _ => {
            assert(stmt_if_numbers(st, ni) =~= Seq::<nat>::empty());
        },
    }
}

/// The block form of [`lemma_stmt_if_numbers`].
pub proof fn lemma_block_if_numbers(ss: Seq<StmtV>, ni: nat)
    ensures
        covers(block_if_numbers(ss, ni), ni, ni + block_ifs(ss)),
    decreases ss,
{
    if ss.len() == 0 {
        assert(block_if_numbers(ss, ni) =~= Seq::<nat>::empty());
    } else {
        let d = ss.drop_last();
        lemma_block_if_numbers(d, ni);
        lemma_stmt_if_numbers(ss.last(), ni + block_ifs(d));
        lemma_covers_concat(
            block_if_numbers(d, ni),
            stmt_if_numbers(ss.last(), ni + block_ifs(d)),
            ni,
            ni + block_ifs(d),
            ni + block_ifs(d),
            ni + block_ifs(ss),
        );
    }
}

/// A line `<prefix><digits>:` read back as its number, when it has that form.
pub open spec fn label_def(l: Seq<char>, prefix: Seq<char>) -> Option<nat> {
    if l.len() > prefix.len() + 1 && l.subrange(0, prefix.len() as int) == prefix && l[l.len() - 1]
        == ':' && is_digits(l.subrange(prefix.len() as int, l.len() - 1)) {
        Some(digits_value(l.subrange(prefix.len() as int, l.len() - 1)))
    } else {
        None
    }
}

/// The numbers of the labels `<prefix>n:` that the lines define, in order.
pub open spec fn label_defs(ls: Seq<Seq<char>>, prefix: Seq<char>) -> Seq<nat>
    decreases ls.len(),
{
    if ls.len() == 0 {
        Seq::empty()
    } else {
        label_defs(ls.drop_last(), prefix) + match label_def(ls.last(), prefix) {
            Some(m) => seq![m],
            None => Seq::empty(),
        }
    }
}

/// Every function but `main` saves the return stack pointer from `rsp` into
/// `[ret_sp]` and takes its parameter stack from `rax` on entry, and does the
/// inverse before `ret`.
pub proof fn lemma_function_frame(p: ProgramV, n: Seq<char>, f: FunctionV, ns: nat, ni: nat)
    requires
        !is_main(n),
        block_lines(p, f.body, ns, ni) is Ok,
    ensures
        function_lines(p, n, f, ns, ni) == Ok::<Seq<Seq<char>>, Seq<char>>(
            seq![n + ":"@, "mov [ret_sp], rsp"@, "mov rsp, rax"@] + block_lines(p, f.body, ns, ni)->Ok_0
                + seq!["mov rax, rsp"@, "mov rsp, [ret_sp]"@, "ret"@],
        ),
{
    let body = block_lines(p, f.body, ns, ni)->Ok_0;
    assert(seq![n + ":"@] + prologue(n) + body + epilogue(n) + seq!["ret"@] =~= seq![
        n + ":"@,
        "mov [ret_sp], rsp"@,
        "mov rsp, rax"@,
    ] + body + seq!["mov rax, rsp"@, "mov rsp, [ret_sp]"@, "ret"@]);
}

/// `main` sets `[ret_sp]` to `ret_stack_end` right after its label, and
/// returns without switching stacks; no other function sets up the return
/// stack, as [`lemma_function_frame`] shows.
pub proof fn lemma_main_frame(p: ProgramV, f: FunctionV, ns: nat, ni: nat)
    requires
        block_lines(p, f.body, ns, ni) is Ok,
    ensures
        function_lines(p, "main"@, f, ns, ni) == Ok::<Seq<Seq<char>>, Seq<char>>(
            seq!["main:"@, "mov qword [ret_sp], ret_stack_end"@] + block_lines(
                p,
                f.body,
                ns,
                ni,
            )->Ok_0 + seq!["ret"@],
        ),
{
    let body = block_lines(p, f.body, ns, ni)->Ok_0;
    reveal_strlit("main");
    reveal_strlit(":");
    reveal_strlit("main:");
    assert("main"@ + ":"@ =~= "main:"@);
    assert(seq!["main"@ + ":"@] + prologue("main"@) + body + epilogue("main"@) + seq!["ret"@]
        =~= seq!["main:"@, "mov qword [ret_sp], ret_stack_end"@] + body + seq!["ret"@]);
}

/// The string literals of the program, in the order in which the code meets
/// them, each get one line `str_i: db ...` in `.data`, the i-th literal under
/// label `str_i`; there are exactly as many such lines as literals.
pub proof fn lemma_string_table(p: ProgramV)
    requires
        functions_lines(p, p.functions) is Ok,
    ensures
        ({
            let strings = functions_strings(p.functions);
            let text = functions_lines(p, p.functions)->Ok_0;
            let data = p.constants.map_values(|c: (Seq<char>, LitV)| constant_line(c));
            let table = strings.map(|i: int, s: Seq<char>| string_line(i as nat, s));
            &&& table.len() == strings.len()
            &&& forall|i: int| 0 <= i < strings.len() ==> #[trigger] table[i] == string_line(
                i as nat,
                strings[i],
            )
            &&& asm_lines(p) == Ok::<Seq<Seq<char>>, Seq<char>>(
                header_lines() + text + seq![""@, "section .data"@] + data + table + seq![
                    "fint: db \"%d\", 0"@,
                    ""@,
                ] + bss_head_lines() + p.arrays.map_values(|a: (Seq<char>, nat)| array_line(a)),
            )
        }),
{
    let strings = functions_strings(p.functions);
    let text = functions_lines(p, p.functions)->Ok_0;
    let data = p.constants.map_values(|c: (Seq<char>, LitV)| constant_line(c));
    let table = strings.map(|i: int, s: Seq<char>| string_line(i as nat, s));
    assert(data_lines(p, strings) == data + table + seq!["fint: db \"%d\", 0"@, ""@]);
    assert(header_lines() + text + seq![""@, "section .data"@] + data_lines(p, strings)
        =~= header_lines() + text + seq![""@, "section .data"@] + data + table + seq![
        "fint: db \"%d\", 0"@,
        ""@,
    ]);
}

pub open spec fn is_push(l: Seq<char>) -> bool {
    l.len() >= 5 && l[0] == 'p' && l[1] == 'u' && l[2] == 's' && l[3] == 'h' && l[4] == ' '
}

pub open spec fn is_pop(l: Seq<char>) -> bool {
    l.len() >= 4 && l[0] == 'p' && l[1] == 'o' && l[2] == 'p' && l[3] == ' '
}

/// What a line does to the depth of the parameter stack: a `push` adds one
/// word, a `pop` takes one, anything else leaves it.
pub open spec fn line_effect(l: Seq<char>) -> int {
    if is_push(l) {
        1
    } else if is_pop(l) {
        -1
    } else {
        0
    }
}

pub open spec fn net_effect(ls: Seq<Seq<char>>) -> int
    decreases ls.len(),
{
    if ls.len() == 0 {
        0
    } else {
        net_effect(ls.drop_last()) + line_effect(ls.last())
    }
}

/// The stack effect of a name: constants and arrays push their value or
/// address, a call leaves the stack to the callee, and each built-in word has
/// its own.
pub open spec fn ident_effect(p: ProgramV, n: Seq<char>) -> int {
    if find_name(p.constants, n) is Some || find_name(p.arrays, n) is Some {
        1
    } else if find_name(p.functions, n) is Some {
        0
    } else if n == "dup"@ {
        1
    } else if n == "swap"@ {
        0
    } else {
        -1
    }
}

/// The stack effect of a statement. An if-statement pops its condition, and
/// each branch adds the effect of its block.
pub open spec fn stmt_effect(p: ProgramV, st: StmtV) -> int
    decreases st,
{
    match st {
        StmtV::Lit(_) => 1,
        StmtV::Math(_) => -1,
        StmtV::Cmp(_) => -1,
        StmtV::Ident(n) => ident_effect(p, n),
        StmtV::If(th, el) => -1 + block_effect(p, th) + match el {
            Some(e) => block_effect(p, e),
            None => 0,
        },
    }
}

pub open spec fn block_effect(p: ProgramV, ss: Seq<StmtV>) -> int
    decreases ss,
{
    if ss.len() == 0 {
        0
    } else {
        block_effect(p, ss.drop_last()) + stmt_effect(p, ss.last())
    }
}

proof fn lemma_net_effect_concat(a: Seq<Seq<char>>, b: Seq<Seq<char>>)
    ensures
        net_effect(a + b) == net_effect(a) + net_effect(b),
    decreases b.len(),
{
    if b.len() == 0 {
        assert(a + b =~= a);
    } else {
        assert((a + b).drop_last() =~= a + b.drop_last());
        lemma_net_effect_concat(a, b.drop_last());
    }
}

proof fn lemma_prefixed_line(a: Seq<char>, b: Seq<char>)
    requires
        a.len() >= 5 || (a.len() >= 1 && a[0] != 'p'),
    ensures
        line_effect(a + b) == line_effect(a),
{
    assert(forall|i: int| 0 <= i < a.len() ==> (a + b)[i] == a[i]);
}

proof fn lemma_math_effect(op: MathOp)
    ensures
        net_effect(math_lines(op)) == -1,
{
    reveal_with_fuel(net_effect, 6);
    reveal_strlit("pop rbx");
    reveal_strlit("pop rax");
    reveal_strlit("add rax, rbx");
    reveal_strlit("sub rax, rbx");
    reveal_strlit("imul rbx");
    reveal_strlit("idiv rbx");
    reveal_strlit("push rax");
    reveal_strlit("xor rdx, rdx");
    reveal_strlit("push rdx");
}

proof fn lemma_cmp_effect(op: ComparisonOp)
    ensures
        net_effect(cmp_lines(op)) == -1,
{
    reveal_with_fuel(net_effect, 7);
    reveal_strlit("xor rax, rax");
    reveal_strlit("pop rcx");
    reveal_strlit("pop rbx");
    reveal_strlit("cmp rbx, rcx");
    reveal_strlit("sete al");
    reveal_strlit("setne al");
    reveal_strlit("setg al");
    reveal_strlit("setl al");
    reveal_strlit("push rax");
}

proof fn lemma_builtin_effect(n: Seq<char>)
    requires
        builtin_lines(n) is Some,
    ensures
        net_effect(builtin_lines(n)->0) == (if n == "dup"@ {
            1int
        } else if n == "swap"@ {
            0int
        } else {
            -1int
        }),
{
    reveal_with_fuel(net_effect, 7);
    reveal_strlit("pop rax");
    reveal_strlit("push rax");
    reveal_strlit("pop rbx");
    reveal_strlit("push rbx");
    reveal_strlit("dup");
    reveal_strlit("drop");
    reveal_strlit("swap");
    reveal_strlit("puts");
    reveal_strlit("print");
    reveal_strlit("read");
    assert("dup"@.len() != "swap"@.len());
    assert("drop"@.len() != "dup"@.len() && "drop"@[0] != "swap"@[0]);
    assert("puts"@.len() != "dup"@.len() && "puts"@[0] != "swap"@[0]);
    assert("print"@.len() != "dup"@.len() && "print"@.len() != "swap"@.len());
    assert("read"@.len() != "dup"@.len() && "read"@[0] != "swap"@[0]);
    if n == "dup"@ {
    } else if n == "drop"@ {
    } else if n == "swap"@ {
    } else if n == "puts"@ {
        reveal_strlit("pop rdi");
        reveal_strlit("mov rsi, [stdout]");
        reveal_strlit("call fputs");
        reveal_strlit("mov rdi, [stdout]");
        reveal_strlit("call fflush");
    } else if n == "print"@ {
        reveal_strlit("mov rdi, fint");
        reveal_strlit("pop rsi");
        reveal_strlit("mov al, 0");
        reveal_strlit("call printf");
    } else {
        reveal_strlit("mov rax, 0");
        reveal_strlit("mov rdi, 0");
        reveal_strlit("pop rdx");
        reveal_strlit("pop rsi");
        reveal_strlit("syscall");
    }
}

proof fn lemma_ident_effect(p: ProgramV, n: Seq<char>)
    requires
        ident_lines(p, n) is Ok,
    ensures
        net_effect(ident_lines(p, n)->Ok_0) == ident_effect(p, n),
{
    reveal_with_fuel(net_effect, 6);
    reveal_strlit("push qword [");
    reveal_strlit("push ");
    match find_name(p.constants, n) {
        Some(LitV::Int(_)) => {
            lemma_prefixed_line("push qword ["@ + n, "]"@);
            lemma_prefixed_line("push qword ["@, n);
            assert(line_effect("push qword ["@ + n + "]"@) == 1);
        },
        Some(LitV::Str(_)) => {
            lemma_prefixed_line("push "@, n);
        },
        None => {
            if find_name(p.arrays, n) is Some {
                lemma_prefixed_line("push "@, n);
            } else if find_name(p.functions, n) is Some {
                reveal_strlit("mov rax, rsp");
                reveal_strlit("mov rsp, [ret_sp]");
                reveal_strlit("call ");
                reveal_strlit("mov [ret_sp], rsp");
                reveal_strlit("mov rsp, rax");
                lemma_prefixed_line("call "@, n);
            } else {
                lemma_builtin_effect(n);
            }
        },
    }
}

/// Along straight-line code every `push` is matched by a `pop` up to the
/// statement's stack effect: the lines emitted for a statement push exactly
/// `stmt_effect` more words than they pop; for an if-statement that is the
/// popped condition plus what each branch's block leaves.
pub proof fn lemma_stmt_effect(p: ProgramV, st: StmtV, ns: nat, ni: nat)
    requires
        stmt_lines(p, st, ns, ni) is Ok,
    ensures
        net_effect(stmt_lines(p, st, ns, ni)->Ok_0) == stmt_effect(p, st),
    decreases st,
{
    reveal_with_fuel(net_effect, 4);
    match st {
        StmtV::Lit(LitV::Int(v)) => {
            reveal_strlit("push ");
            lemma_prefixed_line("push "@, int_text(v));
        },
        StmtV::Lit(LitV::Str(_)) => {
            reveal_strlit("push ");
            lemma_prefixed_line("push "@, str_label(ns));
        },
        StmtV::Math(op) => lemma_math_effect(op),
        StmtV::Cmp(op) => lemma_cmp_effect(op),
        StmtV::Ident(n) => lemma_ident_effect(p, n),
        StmtV::If(th, el) => {
            reveal_strlit("pop rax");
            reveal_strlit("cmp rax, 0");
            reveal_strlit("je ");
            reveal_strlit("jmp ");
            reveal_strlit("IF_");
            reveal_strlit("ELSE_");
            reveal_strlit(":");
            lemma_prefixed_line("je "@, if_label(ni));
            lemma_prefixed_line("jmp "@, else_label(ni));
            lemma_prefixed_line("IF_"@, nat_text(ni));
            lemma_prefixed_line("ELSE_"@, nat_text(ni));
            lemma_prefixed_line(if_label(ni), ":"@);
            lemma_prefixed_line(else_label(ni), ":"@);
            let head = seq!["pop rax"@, "cmp rax, 0"@, "je "@ + if_label(ni)];
            assert(net_effect(head) == -1);
            let tl = block_lines(p, th, ns, ni + 1)->Ok_0;
            lemma_block_effect(p, th, ns, ni + 1);
            lemma_net_effect_concat(head, tl);
            match el {
                None => {
                    lemma_net_effect_concat(head + tl, seq![if_label(ni) + ":"@]);
                },
                Some(e) => {
                    let ns2 = ns + block_strings(th).len();
                    let ni2 = ni + 1 + block_ifs(th);
                    let el_lines = block_lines(p, e, ns2, ni2)->Ok_0;
                    lemma_block_effect(p, e, ns2, ni2);
                    let mid = seq!["jmp "@ + else_label(ni), if_label(ni) + ":"@];
                    assert(net_effect(mid) == 0);
                    lemma_net_effect_concat(head + tl, mid);
                    lemma_net_effect_concat(head + tl + mid, el_lines);
                    lemma_net_effect_concat(head + tl + mid + el_lines, seq![else_label(ni) + ":"@]);
                },
            }
        },
    }
}

/// The block form of [`lemma_stmt_effect`].
pub proof fn lemma_block_effect(p: ProgramV, ss: Seq<StmtV>, ns: nat, ni: nat)
    requires
        block_lines(p, ss, ns, ni) is Ok,
    ensures
        net_effect(block_lines(p, ss, ns, ni)->Ok_0) == block_effect(p, ss),
    decreases ss,
{
    if ss.len() > 0 {
        let d = ss.drop_last();
        lemma_block_effect(p, d, ns, ni);
        lemma_stmt_effect(p, ss.last(), ns + block_strings(d).len(), ni + block_ifs(d));
        lemma_net_effect_concat(
            block_lines(p, d, ns, ni)->Ok_0,
            stmt_lines(p, ss.last(), ns + block_strings(d).len(), ni + block_ifs(d))->Ok_0,
        );
    }
}

/// A line that starts neither like a label `IF_n:` or `ELSE_n:`, nor like
/// `main:`, nor like the `mov qword ...` that sets up the return stack.
pub open spec fn plain_line(l: Seq<char>) -> bool {
    &&& l.len() >= 2
    &&& l[0] != 'I'
    &&& l[0] != 'E'
    &&& !(l[0] == 'm' && l[1] == 'a')
    &&& !(l[0] == 'm' && l.len() > 4 && l[4] == 'q')
}

pub open spec fn plain_lines(ls: Seq<Seq<char>>) -> bool {
    forall|i: int| 0 <= i < ls.len() ==> plain_line(#[trigger] ls[i])
}

proof fn lemma_label_defs_concat(a: Seq<Seq<char>>, b: Seq<Seq<char>>, prefix: Seq<char>)
    ensures
        label_defs(a + b, prefix) == label_defs(a, prefix) + label_defs(b, prefix),
    decreases b.len(),
{
    if b.len() == 0 {
        assert(a + b =~= a);
        assert(label_defs(a, prefix) + Seq::<nat>::empty() =~= label_defs(a, prefix));
    } else {
        assert((a + b).drop_last() =~= a + b.drop_last());
        lemma_label_defs_concat(a, b.drop_last(), prefix);
        let tail = match label_def(b.last(), prefix) {
            Some(m) => seq![m],
            None => Seq::<nat>::empty(),
        };
        assert(label_defs(a, prefix) + label_defs(b.drop_last(), prefix) + tail =~= label_defs(
            a,
            prefix,
        ) + (label_defs(b.drop_last(), prefix) + tail));
    }
}

proof fn lemma_plain_no_labels(ls: Seq<Seq<char>>)
    requires
        plain_lines(ls),
    ensures
        label_defs(ls, "IF_"@) == Seq::<nat>::empty(),
        label_defs(ls, "ELSE_"@) == Seq::<nat>::empty(),
    decreases ls.len(),
{
    reveal_strlit("IF_");
    reveal_strlit("ELSE_");
    if ls.len() > 0 {
        let l = ls.last();
        assert(l == ls[ls.len() - 1]);
        if l.len() > 3 {
            assert(l.subrange(0, 3)[0] == l[0]);
        }
        if l.len() > 5 {
            assert(l.subrange(0, 5)[0] == l[0]);
        }
        lemma_plain_no_labels(ls.drop_last());
        assert(label_def(l, "IF_"@) is None);
        assert(label_def(l, "ELSE_"@) is None);
        assert(label_defs(ls, "IF_"@) =~= Seq::<nat>::empty());
        assert(label_defs(ls, "ELSE_"@) =~= Seq::<nat>::empty());
    }
}

proof fn lemma_label_line(m: nat)
    ensures
        label_def(if_label(m) + ":"@, "IF_"@) == Some(m),
        label_def(if_label(m) + ":"@, "ELSE_"@) is None,
        label_def(else_label(m) + ":"@, "ELSE_"@) == Some(m),
        label_def(else_label(m) + ":"@, "IF_"@) is None,
{
    reveal_strlit("IF_");
    reveal_strlit("ELSE_");
    reveal_strlit(":");
    lemma_nat_text_digits(m);
    let d = nat_text(m);
    let a = if_label(m) + ":"@;
    let b = else_label(m) + ":"@;
    assert(a.subrange(0, 3) =~= "IF_"@);
    assert(a.subrange(3, a.len() - 1) =~= d);
    assert(b.subrange(0, 5) =~= "ELSE_"@);
    assert(b.subrange(5, b.len() - 1) =~= d);
    assert(a.subrange(0, 5)[0] == 'I');
    assert(b.subrange(0, 3)[0] == 'E');
}

proof fn lemma_plain_prefixed(a: Seq<char>, b: Seq<char>)
    requires
        plain_line(a),
        a.len() > 4 || a[0] != 'm',
    ensures
        plain_lines(seq![a + b]),
{
    assert((a + b)[0] == a[0]);
    assert((a + b)[1] == a[1]);
    if a.len() > 4 {
        assert((a + b)[4] == a[4]);
    }
    assert(seq![a + b][0] == a + b);
}

proof fn lemma_plain_concat(a: Seq<Seq<char>>, b: Seq<Seq<char>>)
    requires
        plain_lines(a),
        plain_lines(b),
    ensures
        plain_lines(a + b),
{
    assert forall|i: int| 0 <= i < (a + b).len() implies plain_line(#[trigger] (a + b)[i]) by {
        if i < a.len() {
            assert((a + b)[i] == a[i]);
        } else {
            assert((a + b)[i] == b[i - a.len()]);
        }
    }
}

proof fn lemma_plain_ops(op: MathOp, c: ComparisonOp)
    ensures
        plain_lines(math_lines(op)),
        plain_lines(cmp_lines(c)),
{
    reveal_strlit("pop rbx");
    reveal_strlit("pop rax");
    reveal_strlit("add rax, rbx");
    reveal_strlit("sub rax, rbx");
    reveal_strlit("imul rbx");
    reveal_strlit("idiv rbx");
    reveal_strlit("push rax");
    reveal_strlit("xor rdx, rdx");
    reveal_strlit("push rdx");
    reveal_strlit("xor rax, rax");
    reveal_strlit("pop rcx");
    reveal_strlit("cmp rbx, rcx");
    reveal_strlit("sete al");
    reveal_strlit("setne al");
    reveal_strlit("setg al");
    reveal_strlit("setl al");
}

proof fn lemma_plain_builtin(n: Seq<char>)
    requires
        builtin_lines(n) is Some,
    ensures
        plain_lines(builtin_lines(n)->0),
{
    reveal_strlit("pop rax");
    reveal_strlit("push rax");
    reveal_strlit("pop rbx");
    reveal_strlit("push rbx");
    reveal_strlit("pop rdi");
    reveal_strlit("mov rsi, [stdout]");
    reveal_strlit("call fputs");
    reveal_strlit("mov rdi, [stdout]");
    reveal_strlit("call fflush");
    reveal_strlit("mov rdi, fint");
    reveal_strlit("pop rsi");
    reveal_strlit("mov al, 0");
    reveal_strlit("call printf");
    reveal_strlit("mov rax, 0");
    reveal_strlit("mov rdi, 0");
    reveal_strlit("pop rdx");
    reveal_strlit("syscall");
}

proof fn lemma_plain_ident(p: ProgramV, n: Seq<char>)
    requires
        ident_lines(p, n) is Ok,
    ensures
        plain_lines(ident_lines(p, n)->Ok_0),
{
    reveal_strlit("push qword [");
    reveal_strlit("push ");
    reveal_strlit("mov rax, rsp");
    reveal_strlit("mov rsp, [ret_sp]");
    reveal_strlit("call ");
    reveal_strlit("mov [ret_sp], rsp");
    reveal_strlit("mov rsp, rax");
    lemma_plain_prefixed("push qword ["@, n + "]"@);
    assert("push qword ["@ + n + "]"@ =~= "push qword ["@ + (n + "]"@));
    lemma_plain_prefixed("push "@, n);
    lemma_plain_prefixed("call "@, n);
    if find_name(p.constants, n) is None && find_name(p.arrays, n) is None && find_name(
        p.functions,
        n,
    ) is None {
        lemma_plain_builtin(n);
    }
}

/// The `IF_n:` labels that a statement's code defines are exactly the numbers
/// of its if-statements, and the `ELSE_n:` labels those of its if-statements
/// that have an else-block. With [`lemma_stmt_if_numbers`], each `IF_n` label
/// is defined exactly once.
pub proof fn lemma_stmt_label_defs(p: ProgramV, st: StmtV, ns: nat, ni: nat)
    requires
        stmt_lines(p, st, ns, ni) is Ok,
    ensures
        label_defs(stmt_lines(p, st, ns, ni)->Ok_0, "IF_"@) == stmt_if_numbers(st, ni),
        label_defs(stmt_lines(p, st, ns, ni)->Ok_0, "ELSE_"@) == stmt_else_numbers(st, ni),
    decreases st,
{
    let ls = stmt_lines(p, st, ns, ni)->Ok_0;
    reveal_strlit("push ");
    match st {
        StmtV::Lit(LitV::Int(v)) => {
            lemma_plain_prefixed("push "@, int_text(v));
            lemma_plain_no_labels(ls);
        },
        StmtV::Lit(LitV::Str(_)) => {
            lemma_plain_prefixed("push "@, str_label(ns));
            lemma_plain_no_labels(ls);
        },
        StmtV::Math(op) => {
            lemma_plain_ops(op, ComparisonOp::Eq);
            lemma_plain_no_labels(ls);
        },
        StmtV::Cmp(c) => {
            lemma_plain_ops(MathOp::Plus, c);
            lemma_plain_no_labels(ls);
        },
        StmtV::Ident(n) => {
            lemma_plain_ident(p, n);
            lemma_plain_no_labels(ls);
        },
        StmtV::If(th, el) => {
            reveal_strlit("pop rax");
            reveal_strlit("cmp rax, 0");
            reveal_strlit("je ");
            reveal_strlit("jmp ");
            let head = seq!["pop rax"@, "cmp rax, 0"@, "je "@ + if_label(ni)];
            lemma_plain_prefixed("je "@, if_label(ni));
            assert(plain_lines(head)) by {
                assert(head[2] == ("je "@ + if_label(ni)));
                assert(seq!["je "@ + if_label(ni)][0] == head[2]);
            }
            lemma_plain_no_labels(head);
            let tl = block_lines(p, th, ns, ni + 1)->Ok_0;
            lemma_block_label_defs(p, th, ns, ni + 1);
            lemma_label_line(ni);
            let il = seq![if_label(ni) + ":"@];
            assert(il.drop_last() =~= Seq::<Seq<char>>::empty());
            assert(label_defs(il.drop_last(), "IF_"@) == Seq::<nat>::empty());
            assert(label_defs(il.drop_last(), "ELSE_"@) == Seq::<nat>::empty());
            assert(label_defs(il, "IF_"@) =~= seq![ni]);
            assert(label_defs(il, "ELSE_"@) =~= Seq::<nat>::empty());
            lemma_label_defs_concat(head, tl, "IF_"@);
            lemma_label_defs_concat(head, tl, "ELSE_"@);
            match el {
                None => {
                    lemma_label_defs_concat(head + tl, il, "IF_"@);
                    lemma_label_defs_concat(head + tl, il, "ELSE_"@);
                    assert(label_defs(ls, "IF_"@) =~= stmt_if_numbers(st, ni));
                    assert(label_defs(ls, "ELSE_"@) =~= stmt_else_numbers(st, ni));
                },
                Some(e) => {
                    let ns2 = ns + block_strings(th).len();
                    let ni2 = ni + 1 + block_ifs(th);
                    let el_lines = block_lines(p, e, ns2, ni2)->Ok_0;
                    lemma_block_label_defs(p, e, ns2, ni2);
                    let jl = seq!["jmp "@ + else_label(ni)];
                    lemma_plain_prefixed("jmp "@, else_label(ni));
                    lemma_plain_no_labels(jl);
                    let mid = jl + il;
                    assert(mid =~= seq!["jmp "@ + else_label(ni), if_label(ni) + ":"@]);
                    lemma_label_defs_concat(jl, il, "IF_"@);
                    lemma_label_defs_concat(jl, il, "ELSE_"@);
                    let xl = seq![else_label(ni) + ":"@];
                    assert(xl.drop_last() =~= Seq::<Seq<char>>::empty());
                    assert(label_defs(xl.drop_last(), "IF_"@) == Seq::<nat>::empty());
                    assert(label_defs(xl.drop_last(), "ELSE_"@) == Seq::<nat>::empty());
                    assert(label_defs(xl, "ELSE_"@) =~= seq![ni]);
                    assert(label_defs(xl, "IF_"@) =~= Seq::<nat>::empty());
                    lemma_label_defs_concat(head + tl, mid, "IF_"@);
                    lemma_label_defs_concat(head + tl, mid, "ELSE_"@);
                    lemma_label_defs_concat(head + tl + mid, el_lines, "IF_"@);
                    lemma_label_defs_concat(head + tl + mid, el_lines, "ELSE_"@);
                    lemma_label_defs_concat(head + tl + mid + el_lines, xl, "IF_"@);
                    lemma_label_defs_concat(head + tl + mid + el_lines, xl, "ELSE_"@);
                    assert(ls == head + tl + mid + el_lines + xl);
                    assert(label_defs(ls, "IF_"@) =~= stmt_if_numbers(st, ni));
                    assert(label_defs(ls, "ELSE_"@) =~= stmt_else_numbers(st, ni));
                },
            }
        },
    }
}

/// The block form of [`lemma_stmt_label_defs`].
pub proof fn lemma_block_label_defs(p: ProgramV, ss: Seq<StmtV>, ns: nat, ni: nat)
    requires
        block_lines(p, ss, ns, ni) is Ok,
    ensures
        label_defs(block_lines(p, ss, ns, ni)->Ok_0, "IF_"@) == block_if_numbers(ss, ni),
        label_defs(block_lines(p, ss, ns, ni)->Ok_0, "ELSE_"@) == block_else_numbers(ss, ni),
    decreases ss,
{
    if ss.len() == 0 {
        assert(block_lines(p, ss, ns, ni)->Ok_0 =~= Seq::<Seq<char>>::empty());
    } else {
        let d = ss.drop_last();
        let ns2 = ns + block_strings(d).len();
        let ni2 = ni + block_ifs(d);
        lemma_block_label_defs(p, d, ns, ni);
        lemma_stmt_label_defs(p, ss.last(), ns2, ni2);
        let a = block_lines(p, d, ns, ni)->Ok_0;
        let b = stmt_lines(p, ss.last(), ns2, ni2)->Ok_0;
        lemma_label_defs_concat(a, b, "IF_"@);
        lemma_label_defs_concat(a, b, "ELSE_"@);
    }
}

/// How many of the lines are exactly `x`.
pub open spec fn count_line(ls: Seq<Seq<char>>, x: Seq<char>) -> nat
    decreases ls.len(),
{
    if ls.len() == 0 {
        0
    } else {
        count_line(ls.drop_last(), x) + if ls.last() == x {
            1nat
        } else {
            0nat
        }
    }
}

/// How many functions carry the name `n`.
pub open spec fn count_named(fs: Seq<(Seq<char>, FunctionV)>, n: Seq<char>) -> nat
    decreases fs.len(),
{
    if fs.len() == 0 {
        0
    } else {
        count_named(fs.drop_last(), n) + if fs.last().0 == n {
            1nat
        } else {
            0nat
        }
    }
}

proof fn lemma_count_concat(a: Seq<Seq<char>>, b: Seq<Seq<char>>, x: Seq<char>)
    ensures
        count_line(a + b, x) == count_line(a, x) + count_line(b, x),
    decreases b.len(),
{
    if b.len() == 0 {
        assert(a + b =~= a);
    } else {
        assert((a + b).drop_last() =~= a + b.drop_last());
        lemma_count_concat(a, b.drop_last(), x);
    }
}

proof fn lemma_count_none(ls: Seq<Seq<char>>, x: Seq<char>)
    requires
        forall|i: int| 0 <= i < ls.len() ==> #[trigger] ls[i] != x,
    ensures
        count_line(ls, x) == 0,
    decreases ls.len(),
{
    if ls.len() > 0 {
        assert(ls.last() == ls[ls.len() - 1]);
        lemma_count_none(ls.drop_last(), x);
    }
}

proof fn lemma_plain_not_main(ls: Seq<Seq<char>>)
    requires
        plain_lines(ls),
    ensures
        count_line(ls, "main:"@) == 0,
{
    reveal_strlit("main:");
    assert forall|i: int| 0 <= i < ls.len() implies #[trigger] ls[i] != "main:"@ by {
        assert(plain_line(ls[i]));
    }
    lemma_count_none(ls, "main:"@);
}

proof fn lemma_label_not_main(l: Seq<char>)
    requires
        l.len() >= 1,
        l[0] == 'I' || l[0] == 'E',
    ensures
        count_line(seq![l], "main:"@) == 0,
{
    reveal_strlit("main:");
    assert(seq![l].drop_last() =~= Seq::<Seq<char>>::empty());
    assert(count_line(seq![l].drop_last(), "main:"@) == 0);
    assert(l != "main:"@);
}

/// The code of a statement never holds the line `main:`.
pub proof fn lemma_stmt_no_main(p: ProgramV, st: StmtV, ns: nat, ni: nat)
    requires
        stmt_lines(p, st, ns, ni) is Ok,
    ensures
        count_line(stmt_lines(p, st, ns, ni)->Ok_0, "main:"@) == 0,
    decreases st,
{
    let ls = stmt_lines(p, st, ns, ni)->Ok_0;
    reveal_strlit("push ");
    match st {
        StmtV::Lit(LitV::Int(v)) => {
            lemma_plain_prefixed("push "@, int_text(v));
            lemma_plain_not_main(ls);
        },
        StmtV::Lit(LitV::Str(_)) => {
            lemma_plain_prefixed("push "@, str_label(ns));
            lemma_plain_not_main(ls);
        },
        StmtV::Math(op) => {
            lemma_plain_ops(op, ComparisonOp::Eq);
            lemma_plain_not_main(ls);
        },
        StmtV::Cmp(c) => {
            lemma_plain_ops(MathOp::Plus, c);
            lemma_plain_not_main(ls);
        },
        StmtV::Ident(n) => {
            lemma_plain_ident(p, n);
            lemma_plain_not_main(ls);
        },
        StmtV::If(th, el) => {
            reveal_strlit("pop rax");
            reveal_strlit("cmp rax, 0");
            reveal_strlit("je ");
            reveal_strlit("jmp ");
            reveal_strlit("IF_");
            reveal_strlit("ELSE_");
            let head = seq!["pop rax"@, "cmp rax, 0"@, "je "@ + if_label(ni)];
            lemma_plain_prefixed("je "@, if_label(ni));
            assert(plain_lines(head)) by {
                assert(seq!["je "@ + if_label(ni)][0] == head[2]);
            }
            lemma_plain_not_main(head);
            let tl = block_lines(p, th, ns, ni + 1)->Ok_0;
            lemma_block_no_main(p, th, ns, ni + 1);
            let il = seq![if_label(ni) + ":"@];
            assert((if_label(ni) + ":"@)[0] == 'I');
            lemma_label_not_main(if_label(ni) + ":"@);
            lemma_count_concat(head, tl, "main:"@);
            match el {
                None => {
                    lemma_count_concat(head + tl, il, "main:"@);
                },
                Some(e) => {
                    let ns2 = ns + block_strings(th).len();
                    let ni2 = ni + 1 + block_ifs(th);
                    let el_lines = block_lines(p, e, ns2, ni2)->Ok_0;
                    lemma_block_no_main(p, e, ns2, ni2);
                    let jl = seq!["jmp "@ + else_label(ni)];
                    lemma_plain_prefixed("jmp "@, else_label(ni));
                    lemma_plain_not_main(jl);
                    let mid = jl + il;
                    assert(mid =~= seq!["jmp "@ + else_label(ni), if_label(ni) + ":"@]);
                    lemma_count_concat(jl, il, "main:"@);
                    let xl = seq![else_label(ni) + ":"@];
                    assert((else_label(ni) + ":"@)[0] == 'E');
                    lemma_label_not_main(else_label(ni) + ":"@);
                    lemma_count_concat(head + tl, mid, "main:"@);
                    lemma_count_concat(head + tl + mid, el_lines, "main:"@);
                    lemma_count_concat(head + tl + mid + el_lines, xl, "main:"@);
                    assert(ls == head + tl + mid + el_lines + xl);
                },
            }
        },
    }
}

/// The block form of [`lemma_stmt_no_main`].
pub proof fn lemma_block_no_main(p: ProgramV, ss: Seq<StmtV>, ns: nat, ni: nat)
    requires
        block_lines(p, ss, ns, ni) is Ok,
    ensures
        count_line(block_lines(p, ss, ns, ni)->Ok_0, "main:"@) == 0,
    decreases ss,
{
    if ss.len() > 0 {
        let d = ss.drop_last();
        let ns2 = ns + block_strings(d).len();
        let ni2 = ni + block_ifs(d);
        lemma_block_no_main(p, d, ns, ni);
        lemma_stmt_no_main(p, ss.last(), ns2, ni2);
        lemma_count_concat(
            block_lines(p, d, ns, ni)->Ok_0,
            stmt_lines(p, ss.last(), ns2, ni2)->Ok_0,
            "main:"@,
        );
    }
}

proof fn lemma_function_main_count(p: ProgramV, n: Seq<char>, f: FunctionV, ns: nat, ni: nat)
    requires
        function_lines(p, n, f, ns, ni) is Ok,
    ensures
        count_line(function_lines(p, n, f, ns, ni)->Ok_0, "main:"@) == if n == "main"@ {
            1nat
        } else {
            0nat
        },
{
    reveal_strlit("main:");
    reveal_strlit("main");
    reveal_strlit(":");
    reveal_strlit("mov qword [ret_sp], ret_stack_end");
    reveal_strlit("mov [ret_sp], rsp");
    reveal_strlit("mov rsp, rax");
    reveal_strlit("mov rax, rsp");
    reveal_strlit("mov rsp, [ret_sp]");
    reveal_strlit("ret");
    let body = block_lines(p, f.body, ns, ni)->Ok_0;
    lemma_block_no_main(p, f.body, ns, ni);
    let first = seq![n + ":"@];
    assert(first.drop_last() =~= Seq::<Seq<char>>::empty());
    if n + ":"@ == "main:"@ {
        assert(n =~= (n + ":"@).drop_last());
        assert("main"@ =~= "main:"@.drop_last());
    }
    if n == "main"@ {
        assert(n + ":"@ =~= "main:"@);
        let pr = prologue(n);
        assert(pr.drop_last() =~= Seq::<Seq<char>>::empty());
        assert(count_line(pr.drop_last(), "main:"@) == 0);
        assert(pr.last() != "main:"@);
        assert(count_line(pr, "main:"@) == 0);
    } else {
        assert(plain_lines(prologue(n)));
        lemma_plain_not_main(prologue(n));
    }
    assert(plain_lines(epilogue(n)));
    lemma_plain_not_main(epilogue(n));
    let last = seq!["ret"@];
    assert(last.drop_last() =~= Seq::<Seq<char>>::empty());
    assert(count_line(last.drop_last(), "main:"@) == 0);
    assert("ret"@ != "main:"@);
    assert(count_line(last, "main:"@) == 0);
    lemma_count_concat(first, prologue(n), "main:"@);
    lemma_count_concat(first + prologue(n), body, "main:"@);
    lemma_count_concat(first + prologue(n) + body, epilogue(n), "main:"@);
    lemma_count_concat(first + prologue(n) + body + epilogue(n), last, "main:"@);
}

proof fn lemma_functions_main_count(p: ProgramV, fs: Seq<(Seq<char>, FunctionV)>)
    requires
        functions_lines(p, fs) is Ok,
    ensures
        count_line(functions_lines(p, fs)->Ok_0, "main:"@) == count_named(fs, "main"@),
    decreases fs.len(),
{
    if fs.len() > 0 {
        let d = fs.drop_last();
        lemma_functions_main_count(p, d);
        let ns = functions_strings(d).len();
        let ni = functions_ifs(d);
        lemma_function_main_count(p, fs.last().0, fs.last().1, ns, ni);
        lemma_count_concat(
            functions_lines(p, d)->Ok_0,
            function_lines(p, fs.last().0, fs.last().1, ns, ni)->Ok_0,
            "main:"@,
        );
    }
}

proof fn lemma_count_named_one(fs: Seq<(Seq<char>, FunctionV)>, n: Seq<char>, k: int)
    requires
        fs.map_values(|e: (Seq<char>, FunctionV)| e.0).no_duplicates(),
        0 <= k < fs.len(),
        fs[k].0 == n,
    ensures
        count_named(fs, n) == 1,
    decreases fs.len(),
{
    let names = fs.map_values(|e: (Seq<char>, FunctionV)| e.0);
    let d = fs.drop_last();
    assert(d.map_values(|e: (Seq<char>, FunctionV)| e.0) =~= names.drop_last());
    if k == fs.len() - 1 {
        lemma_count_named_zero(d, n);
        assert forall|i: int| 0 <= i < d.len() implies (#[trigger] d[i]).0 != n by {
            assert(names[i] == d[i].0);
            assert(names[k] == n);
        }
    } else {
        lemma_count_named_one(d, n, k);
        assert(names[k] == n);
        assert(names[fs.len() - 1] == fs.last().0);
    }
}

proof fn lemma_count_named_zero(fs: Seq<(Seq<char>, FunctionV)>, n: Seq<char>)
    ensures
        (forall|i: int| 0 <= i < fs.len() ==> (#[trigger] fs[i]).0 != n) ==> count_named(fs, n) == 0,
    decreases fs.len(),
{
    if fs.len() > 0 {
        lemma_count_named_zero(fs.drop_last(), n);
        if forall|i: int| 0 <= i < fs.len() ==> (#[trigger] fs[i]).0 != n {
            assert(fs.last() == fs[fs.len() - 1]);
            assert forall|i: int| 0 <= i < fs.drop_last().len() implies (
            #[trigger] fs.drop_last()[i]).0 != n by {
                assert(fs.drop_last()[i] == fs[i]);
            }
        }
    }
}

proof fn lemma_spaced_not_main(l: Seq<char>, j: int)
    requires
        0 <= j < l.len(),
        l[j] == ' ',
    ensures
        l != "main:"@,
{
    reveal_strlit("main:");
}

/// A program whose tables each name a function at most once and that declares `main`
/// lowers to a file with exactly one line `main:`.
pub proof fn lemma_one_main_label(p: ProgramV, k: int)
    requires
        tables_keyed(p),
        0 <= k < p.functions.len(),
        p.functions[k].0 == "main"@,
        asm_lines(p) is Ok,
    ensures
        count_line(asm_lines(p)->Ok_0, "main:"@) == 1,
{
    lemma_count_named_one(p.functions, "main"@, k);
    lemma_functions_main_count(p, p.functions);
    let text = functions_lines(p, p.functions)->Ok_0;
    let strings = functions_strings(p.functions);
    let data = data_lines(p, strings);
    let arrays = p.arrays.map_values(|a: (Seq<char>, nat)| array_line(a));
    reveal_strlit("global main");
    reveal_strlit("extern fputs, printf, fflush, stdout, malloc, free");
    reveal_strlit("");
    reveal_strlit("section .text");
    reveal_strlit("section .data");
    reveal_strlit("fint: db \"%d\", 0");
    reveal_strlit("section .bss");
    reveal_strlit("ret_sp: resq 1");
    reveal_strlit("ret_stack: resq ");
    reveal_strlit("ret_stack_end: equ $");
    reveal_strlit(": ");
    reveal_strlit(": db ");
    reveal_strlit(": resb ");
    reveal_strlit("main:");
    let hd = header_lines();
    assert forall|i: int| 0 <= i < hd.len() implies #[trigger] hd[i] != "main:"@ by {
        if i == 0 {
            lemma_spaced_not_main(hd[0], 6);
        } else if i == 1 {
            lemma_spaced_not_main(hd[1], 6);
        } else if i == 2 {
            assert(hd[2].len() == 0);
        } else {
            lemma_spaced_not_main(hd[3], 7);
        }
    }
    lemma_count_none(hd, "main:"@);
    let sd = seq![""@, "section .data"@];
    assert forall|i: int| 0 <= i < sd.len() implies #[trigger] sd[i] != "main:"@ by {
        if i == 0 {
            assert(sd[0].len() == 0);
        } else {
            lemma_spaced_not_main(sd[1], 7);
        }
    }
    lemma_count_none(sd, "main:"@);
    assert forall|i: int| 0 <= i < data.len() implies #[trigger] data[i] != "main:"@ by {
        let cl = p.constants.map_values(|c: (Seq<char>, LitV)| constant_line(c));
        let sl = strings.map(|j: int, x: Seq<char>| string_line(j as nat, x));
        assert(data == cl + sl + seq!["fint: db \"%d\", 0"@, ""@]);
        if i < cl.len() {
            let c = p.constants[i];
            assert(data[i] == constant_line(c));
            match c.1 {
                LitV::Int(v) => {
                    assert(constant_line(c) == c.0 + ": "@ + int_text(v));
                    assert((c.0 + ": "@ + int_text(v))[c.0.len() + 1int] == ' ');
                    lemma_spaced_not_main(constant_line(c), c.0.len() + 1int);
                },
                LitV::Str(x) => {
                    assert((c.0 + ": db "@ + escape(x) + ", 0"@)[c.0.len() + 1int] == ' ');
                    lemma_spaced_not_main(constant_line(c), c.0.len() + 1int);
                },
            }
        } else if i < cl.len() + sl.len() {
            let j = i - cl.len();
            let l = string_line(j as nat, strings[j]);
            assert(data[i] == l);
            let lab = str_label(j as nat);
            assert((lab + ": db "@ + escape(strings[j]) + ", 0"@)[lab.len() + 1int] == ' ');
            lemma_spaced_not_main(l, lab.len() + 1int);
        } else {
            assert(data[i] == "fint: db \"%d\", 0"@ || data[i] == ""@);
            if data[i] == "fint: db \"%d\", 0"@ {
                lemma_spaced_not_main(data[i], 5);
            }
        }
    }
    lemma_count_none(data, "main:"@);
    let bh = bss_head_lines();
    assert forall|i: int| 0 <= i < bh.len() implies #[trigger] bh[i] != "main:"@ by {
        if i == 2 {
            assert(bh[2] == "ret_stack: resq "@ + nat_text(256));
            assert(("ret_stack: resq "@ + nat_text(256))[10] == ' ');
            lemma_spaced_not_main(bh[2], 10);
        } else if i == 0 {
            lemma_spaced_not_main(bh[0], 7);
        } else if i == 1 {
            lemma_spaced_not_main(bh[1], 7);
        } else {
            lemma_spaced_not_main(bh[3], 14);
        }
    }
    lemma_count_none(bh, "main:"@);
    assert forall|i: int| 0 <= i < arrays.len() implies #[trigger] arrays[i] != "main:"@ by {
        let a = p.arrays[i];
        assert(arrays[i] == a.0 + ": resb "@ + nat_text(a.1));
        assert((a.0 + ": resb "@ + nat_text(a.1))[a.0.len() + 1int] == ' ');
        lemma_spaced_not_main(arrays[i], a.0.len() + 1int);
    }
    lemma_count_none(arrays, "main:"@);
    lemma_count_concat(hd, text, "main:"@);
    lemma_count_concat(hd + text, sd, "main:"@);
    lemma_count_concat(hd + text + sd, data, "main:"@);
    lemma_count_concat(hd + text + sd + data, bh, "main:"@);
    lemma_count_concat(hd + text + sd + data + bh, arrays, "main:"@);
}

proof fn lemma_contains_concat(a: Seq<Seq<char>>, b: Seq<Seq<char>>, x: Seq<char>)
    ensures
        a.contains(x) ==> (a + b).contains(x),
        b.contains(x) ==> (a + b).contains(x),
{
    if a.contains(x) {
        let i = choose|i: int| 0 <= i < a.len() && a[i] == x;
        assert((a + b)[i] == x);
    }
    if b.contains(x) {
        let i = choose|i: int| 0 <= i < b.len() && b[i] == x;
        assert((a + b)[a.len() + i] == x);
    }
}

/// The string literals of a statement met after `ns` others are pushed by
/// the labels `str_ns`, `str_(ns + 1)`, ... in the order in which they occur:
/// the i-th of them by `str_(ns + i)`.
pub proof fn lemma_stmt_string_labels(p: ProgramV, st: StmtV, ns: nat, ni: nat)
    requires
        stmt_lines(p, st, ns, ni) is Ok,
    ensures
        forall|i: nat|
            i < stmt_strings(st).len() ==> (stmt_lines(p, st, ns, ni)->Ok_0).contains(
                #[trigger] ("push "@ + str_label(ns + i)),
            ),
    decreases st,
{
    let ls = stmt_lines(p, st, ns, ni)->Ok_0;
    match st {
        StmtV::Lit(LitV::Str(_)) => {
            assert forall|i: nat| i < stmt_strings(st).len() implies ls.contains(
                #[trigger] ("push "@ + str_label(ns + i)),
            ) by {
                assert(i == 0);
                assert(ls[0] == "push "@ + str_label(ns));
            }
        },
        StmtV::If(th, el) => {
            let head = seq!["pop rax"@, "cmp rax, 0"@, "je "@ + if_label(ni)];
            let tl = block_lines(p, th, ns, ni + 1)->Ok_0;
            let a = block_strings(th).len();
            lemma_block_string_labels(p, th, ns, ni + 1);
            assert forall|i: nat| i < stmt_strings(st).len() implies ls.contains(
                #[trigger] ("push "@ + str_label(ns + i)),
            ) by {
                let x = "push "@ + str_label(ns + i);
                match el {
                    None => {
                        assert(stmt_strings(st) =~= block_strings(th));
                        assert(tl.contains(x));
                        lemma_contains_concat(head, tl, x);
                        lemma_contains_concat(head + tl, seq![if_label(ni) + ":"@], x);
                    },
                    Some(e) => {
                        let ns2 = ns + a;
                        let ni2 = ni + 1 + block_ifs(th);
                        let el_lines = block_lines(p, e, ns2, ni2)->Ok_0;
                        let mid = seq!["jmp "@ + else_label(ni), if_label(ni) + ":"@];
                        let xl = seq![else_label(ni) + ":"@];
                        assert(ls == head + tl + mid + el_lines + xl);
                        assert(stmt_strings(st) == block_strings(th) + block_strings(e));
                        if i < a {
                            assert(tl.contains(x));
                            lemma_contains_concat(head, tl, x);
                            lemma_contains_concat(head + tl, mid, x);
                            lemma_contains_concat(head + tl + mid, el_lines, x);
                        } else {
                            lemma_block_string_labels(p, e, ns2, ni2);
                            let j = (i - a) as nat;
                            assert(ns2 + j == ns + i);
                            assert(el_lines.contains("push "@ + str_label(ns2 + j)));
                            lemma_contains_concat(head + tl + mid, el_lines, x);
                        }
                        lemma_contains_concat(head + tl + mid + el_lines, xl, x);
                    },
                }
            }
        },
        _ => {},
    }
}

/// The block form of [`lemma_stmt_string_labels`].
pub proof fn lemma_block_string_labels(p: ProgramV, ss: Seq<StmtV>, ns: nat, ni: nat)
    requires
        block_lines(p, ss, ns, ni) is Ok,
    ensures
        forall|i: nat|
            i < block_strings(ss).len() ==> (block_lines(p, ss, ns, ni)->Ok_0).contains(
                #[trigger] ("push "@ + str_label(ns + i)),
            ),
    decreases ss,
{
    if ss.len() > 0 {
        let d = ss.drop_last();
        let a = block_strings(d).len();
        let ns2 = ns + a;
        let ni2 = ni + block_ifs(d);
        lemma_block_string_labels(p, d, ns, ni);
        lemma_stmt_string_labels(p, ss.last(), ns2, ni2);
        let front = block_lines(p, d, ns, ni)->Ok_0;
        let back = stmt_lines(p, ss.last(), ns2, ni2)->Ok_0;
        assert forall|i: nat| i < block_strings(ss).len() implies (front + back).contains(
            #[trigger] ("push "@ + str_label(ns + i)),
        ) by {
            let x = "push "@ + str_label(ns + i);
            if i < a {
                assert(front.contains(x));
            } else {
                let j = (i - a) as nat;
                assert(ns2 + j == ns + i);
                assert(back.contains("push "@ + str_label(ns2 + j)));
            }
            lemma_contains_concat(front, back, x);
        }
    }
}

proof fn lemma_functions_string_labels(p: ProgramV, fs: Seq<(Seq<char>, FunctionV)>)
    requires
        functions_lines(p, fs) is Ok,
    ensures
        forall|i: nat|
            i < functions_strings(fs).len() ==> (functions_lines(p, fs)->Ok_0).contains(
                #[trigger] ("push "@ + str_label(i)),
            ),
    decreases fs.len(),
{
    if fs.len() > 0 {
        let d = fs.drop_last();
        let a = functions_strings(d).len();
        let ni = functions_ifs(d);
        let n = fs.last().0;
        let f = fs.last().1;
        lemma_functions_string_labels(p, d);
        lemma_block_string_labels(p, f.body, a, ni);
        let body = block_lines(p, f.body, a, ni)->Ok_0;
        let front = functions_lines(p, d)->Ok_0;
        let first = seq![n + ":"@] + prologue(n);
        let back = first + body + epilogue(n) + seq!["ret"@];
        assert(function_lines(p, n, f, a, ni)->Ok_0 == back);
        assert forall|i: nat| i < functions_strings(fs).len() implies (front + back).contains(
            #[trigger] ("push "@ + str_label(i)),
        ) by {
            let x = "push "@ + str_label(i);
            if i < a {
                assert(front.contains(x));
            } else {
                let j = (i - a) as nat;
                assert(a + j == i);
                assert(body.contains("push "@ + str_label(a + j)));
                lemma_contains_concat(first, body, x);
                lemma_contains_concat(first + body, epilogue(n), x);
                lemma_contains_concat(first + body + epilogue(n), seq!["ret"@], x);
            }
            lemma_contains_concat(front, back, x);
        }
    }
}

/// The i-th string literal of the program, counted in the order in which the
/// code meets them, is pushed by the label `str_i` in `.text`, and the same
/// label holds it in `.data` (see [`lemma_string_table`]).
pub proof fn lemma_program_string_labels(p: ProgramV)
    requires
        asm_lines(p) is Ok,
    ensures
        forall|i: nat|
            i < functions_strings(p.functions).len() ==> (asm_lines(p)->Ok_0).contains(
                #[trigger] ("push "@ + str_label(i)),
            ),
{
    lemma_functions_string_labels(p, p.functions);
    let text = functions_lines(p, p.functions)->Ok_0;
    let rest = seq![""@, "section .data"@] + data_lines(p, functions_strings(p.functions))
        + bss_head_lines() + p.arrays.map_values(|a: (Seq<char>, nat)| array_line(a));
    assert(asm_lines(p)->Ok_0 =~= header_lines() + text + rest);
    assert forall|i: nat| i < functions_strings(p.functions).len() implies (header_lines() + text
        + rest).contains(#[trigger] ("push "@ + str_label(i))) by {
        let x = "push "@ + str_label(i);
        lemma_contains_concat(header_lines(), text, x);
        lemma_contains_concat(header_lines() + text, rest, x);
    }
}

/// Along each path through an if-statement the stack changes by the popped
/// condition plus what that path's block leaves: the test and the then-block
/// (with the jump over the else-block), or the test and the else-block.
pub proof fn lemma_if_path_effects(
    p: ProgramV,
    th: Seq<StmtV>,
    el: Option<Seq<StmtV>>,
    ns: nat,
    ni: nat,
)
    requires
        stmt_lines(p, StmtV::If(th, el), ns, ni) is Ok,
    ensures
        ({
            let head = seq!["pop rax"@, "cmp rax, 0"@, "je "@ + if_label(ni)];
            let then_lines = block_lines(p, th, ns, ni + 1)->Ok_0;
            &&& net_effect(head + then_lines) == -1 + block_effect(p, th)
            &&& el matches Some(e) ==> net_effect(
                head + then_lines + seq!["jmp "@ + else_label(ni)],
            ) == -1 + block_effect(p, th) && net_effect(
                head + block_lines(
                    p,
                    e,
                    ns + block_strings(th).len(),
                    ni + 1 + block_ifs(th),
                )->Ok_0,
            ) == -1 + block_effect(p, e)
        }),
{
    reveal_with_fuel(net_effect, 4);
    reveal_strlit("pop rax");
    reveal_strlit("cmp rax, 0");
    reveal_strlit("je ");
    reveal_strlit("jmp ");
    lemma_prefixed_line("je "@, if_label(ni));
    lemma_prefixed_line("jmp "@, else_label(ni));
    let head = seq!["pop rax"@, "cmp rax, 0"@, "je "@ + if_label(ni)];
    assert(net_effect(head) == -1);
    let tl = block_lines(p, th, ns, ni + 1)->Ok_0;
    lemma_block_effect(p, th, ns, ni + 1);
    lemma_net_effect_concat(head, tl);
    match el {
        Some(e) => {
            let jl = seq!["jmp "@ + else_label(ni)];
            assert(net_effect(jl) == 0);
            lemma_net_effect_concat(head + tl, jl);
            let ns2 = ns + block_strings(th).len();
            let ni2 = ni + 1 + block_ifs(th);
            lemma_block_effect(p, e, ns2, ni2);
            lemma_net_effect_concat(head, block_lines(p, e, ns2, ni2)->Ok_0);
        },
        None => {},
    }
}

proof fn lemma_label_defs_single(l: Seq<char>, prefix: Seq<char>)
    requires
        label_def(l, prefix) is None,
    ensures
        label_defs(seq![l], prefix) == Seq::<nat>::empty(),
{
    assert(seq![l].drop_last() =~= Seq::<Seq<char>>::empty());
    assert(label_defs(seq![l].drop_last(), prefix) == Seq::<nat>::empty());
    assert(label_defs(seq![l], prefix) =~= Seq::<nat>::empty());
}

/// The `IF_n` labels defined in the code of a function are those of its body.
proof fn lemma_function_if_defs(p: ProgramV, n: Seq<char>, f: FunctionV, ns: nat, ni: nat)
    requires
        function_lines(p, n, f, ns, ni) is Ok,
        label_def(n + ":"@, "IF_"@) is None,
    ensures
        label_defs(function_lines(p, n, f, ns, ni)->Ok_0, "IF_"@) == block_if_numbers(f.body, ni),
{
    reveal_strlit("mov qword [ret_sp], ret_stack_end");
    reveal_strlit("mov [ret_sp], rsp");
    reveal_strlit("mov rsp, rax");
    reveal_strlit("mov rax, rsp");
    reveal_strlit("mov rsp, [ret_sp]");
    reveal_strlit("ret");
    let body = block_lines(p, f.body, ns, ni)->Ok_0;
    lemma_block_label_defs(p, f.body, ns, ni);
    let first = seq![n + ":"@];
    lemma_label_defs_single(n + ":"@, "IF_"@);
    if is_main(n) {
        reveal_strlit("IF_");
        let l = stack_setup_line();
        assert(l.subrange(0, 3)[0] == 'm');
        lemma_label_defs_single(l, "IF_"@);
        assert(prologue(n) == seq![l]);
    } else {
        assert(plain_lines(prologue(n)));
        lemma_plain_no_labels(prologue(n));
    }
    assert(plain_lines(epilogue(n)));
    lemma_plain_no_labels(epilogue(n));
    let last = seq!["ret"@];
    assert(plain_lines(last));
    lemma_plain_no_labels(last);
    lemma_label_defs_concat(first, prologue(n), "IF_"@);
    lemma_label_defs_concat(first + prologue(n), body, "IF_"@);
    lemma_label_defs_concat(first + prologue(n) + body, epilogue(n), "IF_"@);
    lemma_label_defs_concat(first + prologue(n) + body + epilogue(n), last, "IF_"@);
    assert(Seq::<nat>::empty() + Seq::<nat>::empty() + block_if_numbers(f.body, ni)
        + Seq::<nat>::empty() + Seq::<nat>::empty() =~= block_if_numbers(f.body, ni));
}

/// Over the whole `.text` section, each label `IF_n` for `n` below the number
/// of if-statements of the program is defined exactly once, and no other
/// `IF_` label is defined, provided no function is itself named like one.
pub proof fn lemma_text_if_labels(p: ProgramV, fs: Seq<(Seq<char>, FunctionV)>)
    requires
        functions_lines(p, fs) is Ok,
        forall|i: int| 0 <= i < fs.len() ==> label_def(#[trigger] fs[i].0 + ":"@, "IF_"@) is None,
    ensures
        covers(label_defs(functions_lines(p, fs)->Ok_0, "IF_"@), 0, functions_ifs(fs)),
    decreases fs.len(),
{
    if fs.len() == 0 {
        assert(label_defs(functions_lines(p, fs)->Ok_0, "IF_"@) =~= Seq::<nat>::empty());
    } else {
        let d = fs.drop_last();
        assert forall|i: int| 0 <= i < d.len() implies label_def(#[trigger] d[i].0 + ":"@, "IF_"@)
            is None by {
            assert(d[i] == fs[i]);
        }
        lemma_text_if_labels(p, d);
        let ns = functions_strings(d).len();
        let a = functions_ifs(d);
        let n = fs.last().0;
        let f = fs.last().1;
        assert(fs.last() == fs[fs.len() - 1]);
        lemma_function_if_defs(p, n, f, ns, a);
        lemma_block_if_numbers(f.body, a);
        let front = functions_lines(p, d)->Ok_0;
        let back = function_lines(p, n, f, ns, a)->Ok_0;
        lemma_label_defs_concat(front, back, "IF_"@);
        let x = label_defs(front, "IF_"@);
        let y = block_if_numbers(f.body, a);
        lemma_covers_concat(x, y, 0, a, a, a + block_ifs(f.body));
        assert(covers(x + y, 0, functions_ifs(fs)));
    }
}

/// The line with which `main` points `[ret_sp]` at `ret_stack_end`.
pub open spec fn stack_setup_line() -> Seq<char> {
    "mov qword [ret_sp], ret_stack_end"@
}

proof fn lemma_plain_no_setup(ls: Seq<Seq<char>>)
    requires
        plain_lines(ls),
    ensures
        count_line(ls, stack_setup_line()) == 0,
{
    reveal_strlit("mov qword [ret_sp], ret_stack_end");
    assert forall|i: int| 0 <= i < ls.len() implies #[trigger] ls[i] != stack_setup_line() by {
        assert(plain_line(ls[i]));
    }
    lemma_count_none(ls, stack_setup_line());
}

/// The code of a statement never sets up the return stack.
pub proof fn lemma_stmt_no_setup(p: ProgramV, st: StmtV, ns: nat, ni: nat)
    requires
        stmt_lines(p, st, ns, ni) is Ok,
    ensures
        count_line(stmt_lines(p, st, ns, ni)->Ok_0, stack_setup_line()) == 0,
    decreases st,
{
    let ls = stmt_lines(p, st, ns, ni)->Ok_0;
    let x = stack_setup_line();
    reveal_strlit("push ");
    reveal_strlit("mov qword [ret_sp], ret_stack_end");
    match st {
        StmtV::Lit(LitV::Int(v)) => {
            lemma_plain_prefixed("push "@, int_text(v));
            lemma_plain_no_setup(ls);
        },
        StmtV::Lit(LitV::Str(_)) => {
            lemma_plain_prefixed("push "@, str_label(ns));
            lemma_plain_no_setup(ls);
        },
        StmtV::Math(op) => {
            lemma_plain_ops(op, ComparisonOp::Eq);
            lemma_plain_no_setup(ls);
        },
        StmtV::Cmp(c) => {
            lemma_plain_ops(MathOp::Plus, c);
            lemma_plain_no_setup(ls);
        },
        StmtV::Ident(n) => {
            lemma_plain_ident(p, n);
            lemma_plain_no_setup(ls);
        },
        StmtV::If(th, el) => {
            reveal_strlit("pop rax");
            reveal_strlit("cmp rax, 0");
            reveal_strlit("je ");
            reveal_strlit("jmp ");
            reveal_strlit("IF_");
            reveal_strlit("ELSE_");
            let head = seq!["pop rax"@, "cmp rax, 0"@, "je "@ + if_label(ni)];
            lemma_plain_prefixed("je "@, if_label(ni));
            assert(plain_lines(head)) by {
                assert(seq!["je "@ + if_label(ni)][0] == head[2]);
            }
            lemma_plain_no_setup(head);
            let tl = block_lines(p, th, ns, ni + 1)->Ok_0;
            lemma_block_no_setup(p, th, ns, ni + 1);
            let il = seq![if_label(ni) + ":"@];
            assert((if_label(ni) + ":"@)[0] == 'I');
            assert(il.drop_last() =~= Seq::<Seq<char>>::empty());
            assert(count_line(il.drop_last(), x) == 0);
            assert(count_line(il, x) == 0);
            lemma_count_concat(head, tl, x);
            match el {
                None => {
                    lemma_count_concat(head + tl, il, x);
                },
                Some(e) => {
                    let ns2 = ns + block_strings(th).len();
                    let ni2 = ni + 1 + block_ifs(th);
                    let el_lines = block_lines(p, e, ns2, ni2)->Ok_0;
                    lemma_block_no_setup(p, e, ns2, ni2);
                    let jl = seq!["jmp "@ + else_label(ni)];
                    lemma_plain_prefixed("jmp "@, else_label(ni));
                    lemma_plain_no_setup(jl);
                    let mid = jl + il;
                    assert(mid =~= seq!["jmp "@ + else_label(ni), if_label(ni) + ":"@]);
                    lemma_count_concat(jl, il, x);
                    let xl = seq![else_label(ni) + ":"@];
                    assert((else_label(ni) + ":"@)[0] == 'E');
                    assert(xl.drop_last() =~= Seq::<Seq<char>>::empty());
                    assert(count_line(xl.drop_last(), x) == 0);
                    assert(count_line(xl, x) == 0);
                    lemma_count_concat(head + tl, mid, x);
                    lemma_count_concat(head + tl + mid, el_lines, x);
                    lemma_count_concat(head + tl + mid + el_lines, xl, x);
                    assert(ls == head + tl + mid + el_lines + xl);
                },
            }
        },
    }
}

/// The block form of [`lemma_stmt_no_setup`].
pub proof fn lemma_block_no_setup(p: ProgramV, ss: Seq<StmtV>, ns: nat, ni: nat)
    requires
        block_lines(p, ss, ns, ni) is Ok,
    ensures
        count_line(block_lines(p, ss, ns, ni)->Ok_0, stack_setup_line()) == 0,
    decreases ss,
{
    if ss.len() > 0 {
        let d = ss.drop_last();
        let ns2 = ns + block_strings(d).len();
        let ni2 = ni + block_ifs(d);
        lemma_block_no_setup(p, d, ns, ni);
        lemma_stmt_no_setup(p, ss.last(), ns2, ni2);
        lemma_count_concat(
            block_lines(p, d, ns, ni)->Ok_0,
            stmt_lines(p, ss.last(), ns2, ni2)->Ok_0,
            stack_setup_line(),
        );
    }
}

proof fn lemma_function_setup_count(p: ProgramV, n: Seq<char>, f: FunctionV, ns: nat, ni: nat)
    requires
        function_lines(p, n, f, ns, ni) is Ok,
    ensures
        count_line(function_lines(p, n, f, ns, ni)->Ok_0, stack_setup_line()) == if n == "main"@ {
            1nat
        } else {
            0nat
        },
{
    let x = stack_setup_line();
    reveal_strlit("mov qword [ret_sp], ret_stack_end");
    reveal_strlit("mov [ret_sp], rsp");
    reveal_strlit("mov rsp, rax");
    reveal_strlit("mov rax, rsp");
    reveal_strlit("mov rsp, [ret_sp]");
    reveal_strlit("ret");
    reveal_strlit(":");
    let body = block_lines(p, f.body, ns, ni)->Ok_0;
    lemma_block_no_setup(p, f.body, ns, ni);
    let first = seq![n + ":"@];
    assert(first.drop_last() =~= Seq::<Seq<char>>::empty());
    assert(count_line(first.drop_last(), x) == 0);
    assert((n + ":"@)[n.len() as int] == ':');
    assert(n + ":"@ != x) by {
        if n + ":"@ == x {
            assert(x[x.len() - 1] == 'd');
        }
    }
    assert(count_line(first, x) == 0);
    if n == "main"@ {
        let pr = prologue(n);
        assert(pr.drop_last() =~= Seq::<Seq<char>>::empty());
        assert(count_line(pr.drop_last(), x) == 0);
        assert(count_line(pr, x) == 1);
    } else {
        assert(plain_lines(prologue(n)));
        lemma_plain_no_setup(prologue(n));
    }
    assert(plain_lines(epilogue(n)));
    lemma_plain_no_setup(epilogue(n));
    let last = seq!["ret"@];
    assert(plain_lines(last));
    lemma_plain_no_setup(last);
    lemma_count_concat(first, prologue(n), x);
    lemma_count_concat(first + prologue(n), body, x);
    lemma_count_concat(first + prologue(n) + body, epilogue(n), x);
    lemma_count_concat(first + prologue(n) + body + epilogue(n), last, x);
}

/// Only `main` sets up the return stack: the `.text` section holds the line
/// `mov qword [ret_sp], ret_stack_end` once for each function named `main`,
/// so exactly once when the function table names `main` once.
pub proof fn lemma_text_stack_setup(p: ProgramV, fs: Seq<(Seq<char>, FunctionV)>)
    requires
        functions_lines(p, fs) is Ok,
    ensures
        count_line(functions_lines(p, fs)->Ok_0, stack_setup_line()) == count_named(fs, "main"@),
    decreases fs.len(),
{
    if fs.len() > 0 {
        let d = fs.drop_last();
        lemma_text_stack_setup(p, d);
        let ns = functions_strings(d).len();
        let ni = functions_ifs(d);
        lemma_function_setup_count(p, fs.last().0, fs.last().1, ns, ni);
        lemma_count_concat(
            functions_lines(p, d)->Ok_0,
            function_lines(p, fs.last().0, fs.last().1, ns, ni)->Ok_0,
            stack_setup_line(),
        );
    }
}

/// No `push` line comes before a `pop` line.
pub open spec fn pops_first(ls: Seq<Seq<char>>) -> bool {
    forall|i: int, j: int|
        0 <= i < j < ls.len() ==> !(is_push(#[trigger] ls[i]) && is_pop(#[trigger] ls[j]))
}

/// The code of an operator or a built-in word takes its operands off the
/// stack before it pushes anything.
pub proof fn lemma_templates_pop_first(op: MathOp, c: ComparisonOp, n: Seq<char>)
    ensures
        pops_first(math_lines(op)),
        pops_first(cmp_lines(c)),
        builtin_lines(n) is Some ==> pops_first(builtin_lines(n)->0),
{
    reveal_strlit("pop rbx");
    reveal_strlit("pop rax");
    reveal_strlit("add rax, rbx");
    reveal_strlit("sub rax, rbx");
    reveal_strlit("imul rbx");
    reveal_strlit("idiv rbx");
    reveal_strlit("push rax");
    reveal_strlit("xor rdx, rdx");
    reveal_strlit("push rdx");
    reveal_strlit("xor rax, rax");
    reveal_strlit("pop rcx");
    reveal_strlit("cmp rbx, rcx");
    reveal_strlit("sete al");
    reveal_strlit("setne al");
    reveal_strlit("setg al");
    reveal_strlit("setl al");
    reveal_strlit("push rbx");
    reveal_strlit("pop rdi");
    reveal_strlit("mov rsi, [stdout]");
    reveal_strlit("call fputs");
    reveal_strlit("mov rdi, [stdout]");
    reveal_strlit("call fflush");
    reveal_strlit("mov rdi, fint");
    reveal_strlit("pop rsi");
    reveal_strlit("mov al, 0");
    reveal_strlit("call printf");
    reveal_strlit("mov rax, 0");
    reveal_strlit("mov rdi, 0");
    reveal_strlit("pop rdx");
    reveal_strlit("syscall");
    let m = math_lines(op);
    assert forall|i: int, j: int| 0 <= i < j < m.len() implies !(is_push(#[trigger] m[i]) && is_pop(
        #[trigger] m[j],
    )) by {
        assert(is_push(m[i]) ==> i == m.len() - 1);
    }
    let k = cmp_lines(c);
    assert forall|i: int, j: int| 0 <= i < j < k.len() implies !(is_push(#[trigger] k[i]) && is_pop(
        #[trigger] k[j],
    )) by {
        assert(is_push(k[i]) ==> i == 5);
    }
    if builtin_lines(n) is Some {
        let b = builtin_lines(n)->0;
        assert forall|i: int, j: int| 0 <= i < j < b.len() implies !(is_push(#[trigger] b[i])
            && is_pop(#[trigger] b[j])) by {
            assert(is_pop(b[j]) ==> j <= 3);
            assert(is_push(b[i]) ==> i >= 1 && (i >= 2 || b.len() == 3));
            assert(is_push(b[i]) && is_pop(b[j]) ==> b.len() == 4 && i >= 2);
        }
    }
}

} // verus!
