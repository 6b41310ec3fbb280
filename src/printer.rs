use vstd::prelude::*;

use crate::ast::{
    BasicType, ComparisonOp, FunctionV, LitV, MathOp, ProgramV, StmtV, declared_names,
    names_distinct,
};
use crate::decimal::{int_text, is_digit, is_digits, lemma_nat_text_digits, nat_text};
use crate::lexer::{is_bracket, is_word_char, lex, lex_from, quote_end, word_end};
use crate::syntax::{
    ConstV, add_const, add_function, cmp_word, const_word, empty_program, in_i64, int_word,
    is_alnum, is_ident, math_word, parse_block,
    parse_function, parse_items, parse_spec, parse_stmt, parse_types, stmt_word, tok, type_word,
    declarations, lemma_first_repeat_none,
};

verus! {

broadcast use vstd::seq::axiom_seq_index_decreases, vstd::seq::axiom_seq_subrange_decreases;

// ----- a canonical printer -----

pub open spec fn math_text(op: MathOp) -> Seq<char> {
    match op {
        MathOp::Plus => "+"@,
        MathOp::Minus => "-"@,
        MathOp::Multiply => "*"@,
        MathOp::Divide => "/"@,
        MathOp::Mod => "%"@,
    }
}

pub open spec fn cmp_text(op: ComparisonOp) -> Seq<char> {
    match op {
        ComparisonOp::Eq => "=?"@,
        ComparisonOp::NotEq => "!="@,
        ComparisonOp::Gt => ">"@,
        ComparisonOp::Lt => "<"@,
    }
}

pub open spec fn type_text(t: BasicType) -> Seq<char> {
    match t {
        BasicType::Integer => "int"@,
        BasicType::Pointer => "ptr"@,
    }
}

/// An integer with its sign always written, as a scalar constant needs.
pub open spec fn signed_text(v: int) -> Seq<char> {
    if v < 0 {
        int_text(v)
    } else {
        "+"@ + nat_text(v as nat)
    }
}

pub open spec fn stmt_tokens(st: StmtV) -> Seq<Seq<char>>
    decreases st,
{
    match st {
        StmtV::Lit(LitV::Int(v)) => seq![int_text(v)],
        StmtV::Lit(LitV::Str(s)) => seq![s],
        StmtV::Math(op) => seq![math_text(op)],
        StmtV::Cmp(op) => seq![cmp_text(op)],
        StmtV::Ident(n) => seq![n],
        StmtV::If(th, el) => seq!["if"@, "{"@] + block_tokens(th) + seq!["}"@] + match el {
            Some(e) => seq!["else"@, "{"@] + block_tokens(e) + seq!["}"@],
            None => Seq::empty(),
        },
    }
}

pub open spec fn block_tokens(ss: Seq<StmtV>) -> Seq<Seq<char>>
    decreases ss,
{
    if ss.len() == 0 {
        Seq::empty()
    } else {
        stmt_tokens(ss[0]) + block_tokens(ss.drop_first())
    }
}

pub open spec fn types_tokens(ts: Seq<BasicType>) -> Seq<Seq<char>> {
    ts.map_values(|t: BasicType| type_text(t))
}

pub open spec fn function_tokens(n: Seq<char>, f: FunctionV) -> Seq<Seq<char>> {
    seq![n, "("@] + types_tokens(f.inputs) + seq![")"@, "("@] + types_tokens(f.outputs) + seq![
        ")"@,
        "{"@,
    ] + block_tokens(f.body) + seq!["}"@]
}

/// A top-level declaration.
pub enum ItemV {
    Const(Seq<char>, ConstV),
    Func(Seq<char>, FunctionV),
}

pub open spec fn item_name(it: ItemV) -> Seq<char> {
    match it {
        ItemV::Const(n, _) => n,
        ItemV::Func(n, _) => n,
    }
}

pub open spec fn const_text(c: ConstV) -> Seq<char> {
    match c {
        ConstV::Scalar(LitV::Int(v)) => signed_text(v),
        ConstV::Scalar(LitV::Str(s)) => s,
        ConstV::Array(k) => nat_text(k),
    }
}

pub open spec fn item_tokens(it: ItemV) -> Seq<Seq<char>> {
    match it {
        ItemV::Const(n, c) => seq!["const"@, n, const_text(c)],
        ItemV::Func(n, f) => function_tokens(n, f),
    }
}

pub open spec fn items_tokens(its: Seq<ItemV>) -> Seq<Seq<char>>
    decreases its.len(),
{
    if its.len() == 0 {
        Seq::empty()
    } else {
        item_tokens(its[0]) + items_tokens(its.drop_first())
    }
}

/// The declarations of a program: scalar constants, then arrays, then
/// functions, each table in its order.
pub open spec fn program_items(p: ProgramV) -> Seq<ItemV> {
    p.constants.map_values(|c: (Seq<char>, LitV)| ItemV::Const(c.0, ConstV::Scalar(c.1)))
        + p.arrays.map_values(|a: (Seq<char>, nat)| ItemV::Const(a.0, ConstV::Array(a.1)))
        + p.functions.map_values(|f: (Seq<char>, FunctionV)| ItemV::Func(f.0, f.1))
}

/// Words, each followed by one space.
pub open spec fn join_words(ws: Seq<Seq<char>>) -> Seq<char>
    decreases ws.len(),
{
    if ws.len() == 0 {
        Seq::empty()
    } else {
        ws[0] + seq![' '] + join_words(ws.drop_first())
    }
}

/// The canonical source text of a program.
pub open spec fn print_program(p: ProgramV) -> Seq<char> {
    join_words(items_tokens(program_items(p)))
}

// ----- which programs can be printed -----

/// A string token: quotes at both ends and none between.
pub open spec fn wf_string(s: Seq<char>) -> bool {
    &&& s.len() >= 2
    &&& s[0] == '"'
    &&& s[s.len() - 1] == '"'
    &&& forall|i: int| 0 < i < s.len() - 1 ==> #[trigger] s[i] != '"'
}

pub open spec fn wf_stmt(st: StmtV) -> bool
    decreases st,
{
    match st {
        StmtV::Lit(LitV::Int(v)) => in_i64(v),
        StmtV::Lit(LitV::Str(s)) => wf_string(s),
        StmtV::Ident(n) => is_ident(n),
        StmtV::If(th, el) => wf_block(th) && match el {
            Some(e) => wf_block(e),
            None => true,
        },
        _ => true,
    }
}

pub open spec fn wf_block(ss: Seq<StmtV>) -> bool
    decreases ss,
{
    ss.len() == 0 || (wf_stmt(ss[0]) && wf_block(ss.drop_first()))
}

pub open spec fn wf_literal(l: LitV) -> bool {
    match l {
        LitV::Int(v) => in_i64(v),
        LitV::Str(s) => wf_string(s),
    }
}

/// A program that the grammar can express: distinct names that are
/// identifiers, integers within `i64`, array sizes within `usize`, and string
/// tokens without inner quotes.
pub open spec fn wf_program(p: ProgramV) -> bool {
    &&& names_distinct(p)
    &&& forall|i: int|
        0 <= i < p.constants.len() ==> is_ident((#[trigger] p.constants[i]).0) && wf_literal(
            p.constants[i].1,
        )
    &&& forall|i: int|
        0 <= i < p.arrays.len() ==> is_ident((#[trigger] p.arrays[i]).0) && p.arrays[i].1
            <= usize::MAX
    &&& forall|i: int|
        0 <= i < p.functions.len() ==> is_ident((#[trigger] p.functions[i]).0) && wf_block(
            p.functions[i].1.body,
        )
}

// ----- lexing a printed text -----

/// A word that the lexer reads back as one token.
pub open spec fn lexable(w: Seq<char>) -> bool {
    ||| (w.len() == 1 && is_bracket(w[0]))
    ||| wf_string(w)
    ||| (w.len() > 0 && forall|i: int| 0 <= i < w.len() ==> is_word_char(#[trigger] w[i]))
}

pub open spec fn all_lexable(ws: Seq<Seq<char>>) -> bool {
    forall|i: int| 0 <= i < ws.len() ==> lexable(#[trigger] ws[i])
}

/// Where the lexer puts the words of `join_words(ws)` written from offset `o`.
pub open spec fn spans_from(ws: Seq<Seq<char>>, o: int) -> Seq<(int, int)>
    decreases ws.len(),
{
    if ws.len() == 0 {
        Seq::empty()
    } else {
        seq![(o, o + ws[0].len())] + spans_from(ws.drop_first(), o + ws[0].len() + 1)
    }
}

proof fn lemma_word_end_at(s: Seq<char>, i: int, e: int)
    requires
        0 <= i <= e < s.len(),
        forall|j: int| i <= j < e ==> is_word_char(#[trigger] s[j]),
        !is_word_char(s[e]),
    ensures
        word_end(s, i) == e,
    decreases e - i,
{
    if i < e {
        lemma_word_end_at(s, i + 1, e);
    }
}

proof fn lemma_quote_end_at(s: Seq<char>, i: int, e: int)
    requires
        0 <= i <= e < s.len(),
        forall|j: int| i <= j < e ==> #[trigger] s[j] != '"',
        s[e] == '"',
    ensures
        quote_end(s, i) == e,
    decreases e - i,
{
    if i < e {
        lemma_quote_end_at(s, i + 1, e);
    }
}

/// The lexer splits words joined by spaces back into those words.
pub proof fn lemma_lex_join(pre: Seq<char>, ws: Seq<Seq<char>>)
    requires
        all_lexable(ws),
    ensures
        lex_from(pre + join_words(ws), pre.len() as int) == Ok::<Seq<(int, int)>, int>(
            spans_from(ws, pre.len() as int),
        ),
        spans_from(ws, pre.len() as int).len() == ws.len(),
        forall|k: int|
            0 <= k < ws.len() ==> (pre + join_words(ws)).subrange(
                #[trigger] spans_from(ws, pre.len() as int)[k].0,
                spans_from(ws, pre.len() as int)[k].1,
            ) == ws[k],
    decreases ws.len(),
{
    let s = pre + join_words(ws);
    let o = pre.len() as int;
    if ws.len() == 0 {
        assert(s =~= pre);
    } else {
        let w = ws[0];
        let rest = ws.drop_first();
        let pre2 = pre + w + seq![' '];
        let e = o + w.len();
        assert(s =~= pre2 + join_words(rest));
        assert(all_lexable(rest)) by {
            assert forall|i: int| 0 <= i < rest.len() implies lexable(#[trigger] rest[i]) by {
                assert(rest[i] == ws[i + 1]);
            }
        }
        lemma_lex_join(pre2, rest);
        assert(lexable(ws[0]));
        assert(forall|j: int| 0 <= j < w.len() ==> s[o + j] == w[j]);
        assert(s[e] == ' ');
        assert(pre2.len() == e + 1);
        assert(lex_from(s, e) == lex_from(s, e + 1));
        if w.len() == 1 && is_bracket(w[0]) {
            assert(lex_from(s, o) == Ok::<Seq<(int, int)>, int>(seq![(o, e)] + spans_from(rest, e + 1)));
        } else if wf_string(w) {
            assert(forall|j: int| o + 1 <= j < e - 1 ==> s[j] == w[j - o]);
            lemma_quote_end_at(s, o + 1, e - 1);
            assert(lex_from(s, o) == Ok::<Seq<(int, int)>, int>(seq![(o, e)] + spans_from(rest, e + 1)));
        } else {
            assert(forall|j: int| o <= j < e ==> s[j] == w[j - o]);
            lemma_word_end_at(s, o, e);
            assert(lex_from(s, o) == Ok::<Seq<(int, int)>, int>(seq![(o, e)] + spans_from(rest, e + 1)));
        }
        let sp = spans_from(ws, o);
        assert forall|k: int| 0 <= k < ws.len() implies s.subrange(#[trigger] sp[k].0, sp[k].1)
            == ws[k] by {
            if k == 0 {
                assert(s.subrange(o, e) =~= w);
            } else {
                assert(sp[k] == spans_from(rest, e + 1)[k - 1]);
                assert(ws[k] == rest[k - 1]);
            }
        }
    }
}

// ----- parsing the printed tokens -----

/// The tokens of `s` at spans `t` are the words `ws`.
pub open spec fn words_at(s: Seq<char>, t: Seq<(int, int)>, ws: Seq<Seq<char>>) -> bool {
    &&& t.len() == ws.len()
    &&& forall|k: int| 0 <= k < t.len() ==> #[trigger] tok(s, t, k) == ws[k]
}

/// The words from index `k` on start with `x`.
pub open spec fn words_match(ws: Seq<Seq<char>>, k: int, x: Seq<Seq<char>>) -> bool {
    &&& 0 <= k
    &&& k + x.len() <= ws.len()
    &&& forall|j: int| 0 <= j < x.len() ==> #[trigger] ws[k + j] == x[j]
}

proof fn lemma_words_split(ws: Seq<Seq<char>>, k: int, a: Seq<Seq<char>>, b: Seq<Seq<char>>)
    requires
        words_match(ws, k, a + b),
    ensures
        words_match(ws, k, a),
        words_match(ws, k + a.len(), b),
{
    assert forall|j: int| 0 <= j < a.len() implies #[trigger] ws[k + j] == a[j] by {
        assert((a + b)[j] == a[j]);
    }
    assert forall|j: int| 0 <= j < b.len() implies #[trigger] ws[k + a.len() + j] == b[j] by {
        assert(ws[k + (a.len() + j)] == (a + b)[a.len() + j]);
    }
}

proof fn lemma_literals()
    ensures
        "if"@ =~= seq!['i', 'f'],
        "else"@ =~= seq!['e', 'l', 's', 'e'],
        "const"@ =~= seq!['c', 'o', 'n', 's', 't'],
        "{"@ =~= seq!['{'],
        "}"@ =~= seq!['}'],
        "("@ =~= seq!['('],
        ")"@ =~= seq![')'],
        "+"@ =~= seq!['+'],
        "-"@ =~= seq!['-'],
        "*"@ =~= seq!['*'],
        "/"@ =~= seq!['/'],
        "%"@ =~= seq!['%'],
        "=?"@ =~= seq!['=', '?'],
        "!="@ =~= seq!['!', '='],
        ">"@ =~= seq!['>'],
        "<"@ =~= seq!['<'],
        "int"@ =~= seq!['i', 'n', 't'],
        "ptr"@ =~= seq!['p', 't', 'r'],
{
    reveal_strlit("if");
    reveal_strlit("else");
    reveal_strlit("const");
    reveal_strlit("{");
    reveal_strlit("}");
    reveal_strlit("(");
    reveal_strlit(")");
    reveal_strlit("+");
    reveal_strlit("-");
    reveal_strlit("*");
    reveal_strlit("/");
    reveal_strlit("%");
    reveal_strlit("=?");
    reveal_strlit("!=");
    reveal_strlit(">");
    reveal_strlit("<");
    reveal_strlit("int");
    reveal_strlit("ptr");
}

/// What an integer's text reads back as.
proof fn lemma_int_text_word(v: int)
    ensures
        int_text(v).len() >= 1,
        int_word(int_text(v)) == Some((v < 0, v)),
        v >= 0 ==> is_digit(int_text(v)[0]),
        v < 0 ==> int_text(v)[0] == '-',
{
    if v < 0 {
        let m = (-v) as nat;
        lemma_nat_text_digits(m);
        let w = int_text(v);
        assert(w.drop_first() =~= nat_text(m));
    } else {
        let w = nat_text(v as nat);
        lemma_nat_text_digits(v as nat);
        assert(is_digit(w[0]));
    }
}

proof fn lemma_signed_text_word(v: int)
    ensures
        signed_text(v).len() >= 2,
        int_word(signed_text(v)) == Some((true, v)),
        signed_text(v)[0] == '-' || signed_text(v)[0] == '+',
{
    if v < 0 {
        let m = (-v) as nat;
        lemma_nat_text_digits(m);
        assert(signed_text(v).drop_first() =~= nat_text(m));
    } else {
        lemma_nat_text_digits(v as nat);
        reveal_strlit("+");
        assert(signed_text(v).drop_first() =~= nat_text(v as nat));
    }
}

/// A plain statement is one token, and reads back as itself.
proof fn lemma_stmt_word_ok(st: StmtV)
    requires
        wf_stmt(st),
        !(st is If),
    ensures
        stmt_tokens(st).len() == 1,
        stmt_word(stmt_tokens(st)[0]) == Some(st),
        stmt_tokens(st)[0] != "if"@,
        stmt_tokens(st)[0] != "}"@,
        stmt_tokens(st)[0] != "else"@,
{
    lemma_literals();
    let w = stmt_tokens(st)[0];
    match st {
        StmtV::Lit(LitV::Int(v)) => {
            lemma_int_text_word(v);
            assert(w[0] != '"');
            assert(w[0] != 'i' && w[0] != '}' && w[0] != 'e');
        },
        StmtV::Lit(LitV::Str(s)) => {},
        StmtV::Math(op) => {
            assert(!is_digit(w[0]));
            assert(!is_digits(w));
        },
        StmtV::Cmp(op) => {
            assert(!is_digit(w[0]));
            assert(!is_digits(w));
            assert(math_word(w) is None);
        },
        StmtV::Ident(n) => {
            assert(!is_digit(n[0]));
            assert(!is_digits(n));
            assert(math_word(n) is None);
            assert(cmp_word(n) is None);
        },
        StmtV::If(_, _) => {},
    }
}

proof fn lemma_stmt_first(st: StmtV)
    requires
        wf_stmt(st),
    ensures
        stmt_tokens(st).len() >= 1,
        stmt_tokens(st)[0] != "}"@,
        stmt_tokens(st)[0] != "else"@,
{
    lemma_literals();
    if st is If {
    } else {
        lemma_stmt_word_ok(st);
    }
}

proof fn lemma_brace_not_else()
    ensures
        "}"@ != "else"@,
{
    reveal_strlit("}");
    reveal_strlit("else");
    assert("}"@.len() != "else"@.len());
}

pub proof fn lemma_parse_stmt(s: Seq<char>, t: Seq<(int, int)>, ws: Seq<Seq<char>>, k: int, st: StmtV)
    requires
        words_at(s, t, ws),
        wf_stmt(st),
        words_match(ws, k, stmt_tokens(st)),
        k + stmt_tokens(st).len() < ws.len() ==> ws[k + stmt_tokens(st).len()] != "else"@,
    ensures
        parse_stmt(s, t, k) == Ok::<(StmtV, int), int>((st, k + stmt_tokens(st).len())),
    decreases st, 1int,
{
    match st {
        StmtV::If(th, el) => {
            lemma_parse_if(s, t, ws, k, th, el);
        },
        _ => {
            lemma_stmt_word_ok(st);
            assert(ws[k + 0] == stmt_tokens(st)[0]);
            assert(tok(s, t, k) == ws[k]);
        },
    }
}

proof fn lemma_parse_if(
    s: Seq<char>,
    t: Seq<(int, int)>,
    ws: Seq<Seq<char>>,
    k: int,
    th: Seq<StmtV>,
    el: Option<Seq<StmtV>>,
)
    requires
        words_at(s, t, ws),
        wf_stmt(StmtV::If(th, el)),
        words_match(ws, k, stmt_tokens(StmtV::If(th, el))),
        k + stmt_tokens(StmtV::If(th, el)).len() < ws.len() ==> ws[k + stmt_tokens(
            StmtV::If(th, el),
        ).len()] != "else"@,
    ensures
        parse_stmt(s, t, k) == Ok::<(StmtV, int), int>(
            (StmtV::If(th, el), k + stmt_tokens(StmtV::If(th, el)).len()),
        ),
    decreases StmtV::If(th, el), 0int,
{
    let st = StmtV::If(th, el);
    let n = stmt_tokens(st).len() as int;
    let bt = block_tokens(th);
    let tail = match el {
        Some(e) => seq!["else"@, "{"@] + block_tokens(e) + seq!["}"@],
        None => Seq::empty(),
    };
    assert(stmt_tokens(st) == seq!["if"@, "{"@] + bt + seq!["}"@] + tail);
    lemma_words_split(ws, k, seq!["if"@, "{"@] + bt + seq!["}"@], tail);
    lemma_words_split(ws, k, seq!["if"@, "{"@], bt + seq!["}"@]);
    assert(ws[k + 0] == "if"@);
    assert(ws[k + 1] == "{"@);
    assert(tok(s, t, k) == "if"@);
    assert(tok(s, t, k + 1) == "{"@);
    assert(seq!["if"@, "{"@] + bt + seq!["}"@] =~= seq!["if"@, "{"@] + (bt + seq!["}"@]));
    let k3 = k + 2 + bt.len() + 1;
    lemma_parse_block(s, t, ws, k + 2, th);
    match el {
        Some(e) => {
            let be = block_tokens(e);
            assert(seq!["else"@, "{"@] + be + seq!["}"@] =~= seq!["else"@, "{"@] + (be + seq![
                "}"@,
            ]));
            lemma_words_split(ws, k3, seq!["else"@, "{"@], be + seq!["}"@]);
            assert(ws[k3 + 0] == "else"@);
            assert(ws[k3 + 1] == "{"@);
            assert(tok(s, t, k3) == "else"@);
            assert(tok(s, t, k3 + 1) == "{"@);
            lemma_parse_block(s, t, ws, k3 + 2, e);
        },
        None => {
            assert(k3 == k + n);
            if k3 < t.len() {
                assert(tok(s, t, k3) == ws[k3]);
            }
        },
    }
}

pub proof fn lemma_parse_block(s: Seq<char>, t: Seq<(int, int)>, ws: Seq<Seq<char>>, k: int, ss: Seq<StmtV>)
    requires
        words_at(s, t, ws),
        wf_block(ss),
        words_match(ws, k, block_tokens(ss) + seq!["}"@]),
    ensures
        parse_block(s, t, k) == Ok::<(Seq<StmtV>, int), int>((ss, k + block_tokens(ss).len() + 1)),
    decreases ss, 2int,
{
    lemma_brace_not_else();
    lemma_words_split(ws, k, block_tokens(ss), seq!["}"@]);
    if ss.len() == 0 {
        assert(ws[k + 0] == "}"@);
        assert(tok(s, t, k) == ws[k]);
        assert(ss =~= Seq::<StmtV>::empty());
    } else {
        let st = ss[0];
        let rest = ss.drop_first();
        let a = stmt_tokens(st);
        let b = block_tokens(rest);
        assert(block_tokens(ss) == a + b);
        assert(a + b + seq!["}"@] =~= a + (b + seq!["}"@]));
        lemma_words_split(ws, k, a, b + seq!["}"@]);
        lemma_stmt_first(st);
        assert(ws[k + 0] == a[0]);
        assert(tok(s, t, k) == ws[k]);
        let k2 = k + a.len();
        assert(wf_block(rest));
        if rest.len() > 0 {
            lemma_stmt_first(rest[0]);
            assert(b == stmt_tokens(rest[0]) + block_tokens(rest.drop_first()));
            assert(ws[k2 + 0] == (b + seq!["}"@])[0]);
        } else {
            assert(ws[k2 + 0] == (b + seq!["}"@])[0]);
        }
        lemma_parse_stmt(s, t, ws, k, st);
        lemma_parse_block(s, t, ws, k2, rest);
        assert(seq![st] + rest =~= ss);
        assert(parse_stmt(s, t, k) == Ok::<(StmtV, int), int>((st, k2)));
        assert(tok(s, t, k) != "}"@);
    }
}

proof fn lemma_parse_types(s: Seq<char>, t: Seq<(int, int)>, ws: Seq<Seq<char>>, k: int, ts: Seq<BasicType>)
    requires
        words_at(s, t, ws),
        words_match(ws, k, types_tokens(ts) + seq![")"@]),
    ensures
        parse_types(s, t, k) == Ok::<(Seq<BasicType>, int), int>((ts, k + ts.len() + 1)),
    decreases ts.len(),
{
    lemma_literals();
    lemma_words_split(ws, k, types_tokens(ts), seq![")"@]);
    assert(tok(s, t, k) == ws[k]);
    if ts.len() == 0 {
        assert(ws[k + 0] == ")"@);
        assert(ts =~= Seq::<BasicType>::empty());
    } else {
        let rest = ts.drop_first();
        assert(types_tokens(ts) + seq![")"@] =~= seq![type_text(ts[0])] + (types_tokens(rest)
            + seq![")"@]));
        lemma_words_split(ws, k, seq![type_text(ts[0])], types_tokens(rest) + seq![")"@]);
        assert(ws[k + 0] == type_text(ts[0]));
        assert(type_word(type_text(ts[0])) == Some(ts[0]));
        assert(type_text(ts[0]) != ")"@);
        lemma_parse_types(s, t, ws, k + 1, rest);
        assert(seq![ts[0]] + rest =~= ts);
    }
}

proof fn lemma_parse_function(
    s: Seq<char>,
    t: Seq<(int, int)>,
    ws: Seq<Seq<char>>,
    k: int,
    n: Seq<char>,
    f: FunctionV,
)
    requires
        words_at(s, t, ws),
        wf_block(f.body),
        words_match(ws, k, function_tokens(n, f)),
    ensures
        parse_function(s, t, k) == Ok::<(FunctionV, int), int>((f, k + function_tokens(n, f).len())),
{
    let ti = types_tokens(f.inputs);
    let to = types_tokens(f.outputs);
    let bt = block_tokens(f.body);
    let a = seq![n, "("@];
    let b = ti + seq![")"@];
    let c = seq!["("@] + (to + seq![")"@]);
    let d = seq!["{"@] + (bt + seq!["}"@]);
    assert(function_tokens(n, f) =~= a + b + c + d);
    lemma_words_split(ws, k, a + b + c, d);
    lemma_words_split(ws, k, a + b, c);
    lemma_words_split(ws, k, a, b);
    let kc = k + a.len() + b.len();
    let kd = kc + c.len();
    lemma_words_split(ws, kc, seq!["("@], to + seq![")"@]);
    lemma_words_split(ws, kd, seq!["{"@], bt + seq!["}"@]);
    assert(ws[k + 1] == "("@);
    assert(tok(s, t, k + 1) == ws[k + 1]);
    lemma_parse_types(s, t, ws, k + 2, f.inputs);
    assert(ws[kc + 0] == "("@);
    assert(tok(s, t, kc) == ws[kc]);
    lemma_parse_types(s, t, ws, kc + 1, f.outputs);
    assert(ws[kd + 0] == "{"@);
    assert(tok(s, t, kd) == ws[kd]);
    lemma_parse_block(s, t, ws, kd + 1, f.body);
}

pub open spec fn add_item(q: ProgramV, it: ItemV) -> ProgramV {
    match it {
        ItemV::Const(n, c) => add_const(q, n, c),
        ItemV::Func(n, f) => add_function(q, n, f),
    }
}

/// The program that results from declaring the items in order.
pub open spec fn build(q: ProgramV, its: Seq<ItemV>) -> ProgramV
    decreases its.len(),
{
    if its.len() == 0 {
        q
    } else {
        build(add_item(q, its[0]), its.drop_first())
    }
}

pub open spec fn wf_item(it: ItemV) -> bool {
    match it {
        ItemV::Const(n, ConstV::Scalar(l)) => is_ident(n) && wf_literal(l),
        ItemV::Const(n, ConstV::Array(k)) => is_ident(n) && k <= usize::MAX,
        ItemV::Func(n, f) => is_ident(n) && wf_block(f.body),
    }
}

proof fn lemma_const_word(c: ConstV)
    requires
        match c {
            ConstV::Scalar(l) => wf_literal(l),
            ConstV::Array(k) => k <= usize::MAX,
        },
    ensures
        const_word(const_text(c)) == Some(c),
{
    match c {
        ConstV::Scalar(LitV::Int(v)) => {
            lemma_signed_text_word(v);
        },
        ConstV::Scalar(LitV::Str(_)) => {},
        ConstV::Array(k) => {
            lemma_int_text_word(k as int);
        },
    }
}

proof fn lemma_parse_items(
    s: Seq<char>,
    t: Seq<(int, int)>,
    ws: Seq<Seq<char>>,
    k: int,
    q: ProgramV,
    its: Seq<ItemV>,
)
    requires
        words_at(s, t, ws),
        words_match(ws, k, items_tokens(its)),
        k + items_tokens(its).len() == ws.len(),
        forall|i: int| 0 <= i < its.len() ==> wf_item(#[trigger] its[i]),
    ensures
        parse_items(s, t, k, q) == Ok::<ProgramV, crate::syntax::ParseErrorV>(build(q, its)),
    decreases its.len(),
{
    lemma_literals();
    if its.len() == 0 {
    } else {
        let it = its[0];
        let rest = its.drop_first();
        let a = item_tokens(it);
        let b = items_tokens(rest);
        assert(items_tokens(its) == a + b);
        lemma_words_split(ws, k, a, b);
        assert(wf_item(it));
        let q2 = add_item(q, it);
        assert forall|i: int| 0 <= i < rest.len() implies wf_item(#[trigger] rest[i]) by {
            assert(rest[i] == its[i + 1]);
        }
        let k2 = k + a.len();
        lemma_parse_items(s, t, ws, k2, q2, rest);
        assert(tok(s, t, k) == ws[k]);
        match it {
            ItemV::Const(n, c) => {
                assert(ws[k + 0] == "const"@);
                assert(ws[k + 1] == n);
                assert(ws[k + 2] == const_text(c));
                assert(tok(s, t, k + 1) == ws[k + 1]);
                assert(tok(s, t, k + 2) == ws[k + 2]);
                lemma_const_word(c);
            },
            ItemV::Func(n, f) => {
                assert(ws[k + 0] == n);
                assert(n != "const"@);
                lemma_parse_function(s, t, ws, k, n, f);
            },
        }
    }
}

proof fn lemma_all_lexable_concat(a: Seq<Seq<char>>, b: Seq<Seq<char>>)
    requires
        all_lexable(a),
        all_lexable(b),
    ensures
        all_lexable(a + b),
{
    assert forall|i: int| 0 <= i < (a + b).len() implies lexable(#[trigger] (a + b)[i]) by {
        if i < a.len() {
            assert((a + b)[i] == a[i]);
        } else {
            assert((a + b)[i] == b[i - a.len()]);
        }
    }
}

proof fn lemma_lexable_literals()
    ensures
        all_lexable(
            seq![
                "if"@,
                "else"@,
                "const"@,
                "{"@,
                "}"@,
                "("@,
                ")"@,
                "+"@,
                "-"@,
                "*"@,
                "/"@,
                "%"@,
                "=?"@,
                "!="@,
                ">"@,
                "<"@,
                "int"@,
                "ptr"@,
            ],
        ),
{
    lemma_literals();
}

proof fn lemma_lexable_ident(n: Seq<char>)
    requires
        is_ident(n),
    ensures
        lexable(n),
{
    assert forall|i: int| 0 <= i < n.len() implies is_word_char(#[trigger] n[i]) by {
        if i > 0 {
            assert(is_alnum(n[i]));
        }
    }
}

proof fn lemma_lexable_number(v: int)
    ensures
        lexable(int_text(v)),
        lexable(signed_text(v)),
        v >= 0 ==> lexable(nat_text(v as nat)),
{
    let m: nat = if v < 0 { (-v) as nat } else { v as nat };
    lemma_nat_text_digits(m);
    let d = nat_text(m);
    assert forall|i: int| 0 <= i < d.len() implies is_word_char(#[trigger] d[i]) by {
        assert(is_digit(d[i]));
    }
    let w = seq!['-'] + d;
    assert forall|i: int| 0 <= i < w.len() implies is_word_char(#[trigger] w[i]) by {
        if i > 0 {
            assert(w[i] == d[i - 1]);
        }
    }
    reveal_strlit("+");
    let u = "+"@ + d;
    assert forall|i: int| 0 <= i < u.len() implies is_word_char(#[trigger] u[i]) by {
        if i > 0 {
            assert(u[i] == d[i - 1]);
        }
    }
}

proof fn lemma_lexable_stmt(st: StmtV)
    requires
        wf_stmt(st),
    ensures
        all_lexable(stmt_tokens(st)),
    decreases st,
{
    lemma_lexable_literals();
    lemma_literals();
    match st {
        StmtV::Lit(LitV::Int(v)) => {
            lemma_lexable_number(v);
        },
        StmtV::Lit(LitV::Str(_)) => {},
        StmtV::Ident(n) => {
            lemma_lexable_ident(n);
        },
        StmtV::Math(op) => {},
        StmtV::Cmp(op) => {},
        StmtV::If(th, el) => {
            lemma_lexable_block(th);
            assert(all_lexable(seq!["if"@, "{"@]));
            assert(all_lexable(seq!["}"@]));
            lemma_all_lexable_concat(seq!["if"@, "{"@], block_tokens(th));
            lemma_all_lexable_concat(seq!["if"@, "{"@] + block_tokens(th), seq!["}"@]);
            match el {
                Some(e) => {
                    lemma_lexable_block(e);
                    assert(all_lexable(seq!["else"@, "{"@]));
                    lemma_all_lexable_concat(seq!["else"@, "{"@], block_tokens(e));
                    lemma_all_lexable_concat(seq!["else"@, "{"@] + block_tokens(e), seq!["}"@]);
                    lemma_all_lexable_concat(
                        seq!["if"@, "{"@] + block_tokens(th) + seq!["}"@],
                        seq!["else"@, "{"@] + block_tokens(e) + seq!["}"@],
                    );
                },
                None => {
                    assert(seq!["if"@, "{"@] + block_tokens(th) + seq!["}"@] + Seq::<
                        Seq<char>,
                    >::empty() =~= seq!["if"@, "{"@] + block_tokens(th) + seq!["}"@]);
                },
            }
        },
    }
}

proof fn lemma_lexable_block(ss: Seq<StmtV>)
    requires
        wf_block(ss),
    ensures
        all_lexable(block_tokens(ss)),
    decreases ss,
{
    if ss.len() > 0 {
        lemma_lexable_stmt(ss[0]);
        lemma_lexable_block(ss.drop_first());
        lemma_all_lexable_concat(stmt_tokens(ss[0]), block_tokens(ss.drop_first()));
    }
}

proof fn lemma_lexable_items(its: Seq<ItemV>)
    requires
        forall|i: int| 0 <= i < its.len() ==> wf_item(#[trigger] its[i]),
    ensures
        all_lexable(items_tokens(its)),
    decreases its.len(),
{
    lemma_lexable_literals();
    lemma_literals();
    if its.len() > 0 {
        let rest = its.drop_first();
        assert forall|i: int| 0 <= i < rest.len() implies wf_item(#[trigger] rest[i]) by {
            assert(rest[i] == its[i + 1]);
        }
        lemma_lexable_items(rest);
        assert(wf_item(its[0]));
        match its[0] {
            ItemV::Const(n, c) => {
                lemma_lexable_ident(n);
                match c {
                    ConstV::Scalar(LitV::Int(v)) => lemma_lexable_number(v),
                    ConstV::Scalar(LitV::Str(_)) => {},
                    ConstV::Array(k) => lemma_lexable_number(k as int),
                }
                assert(all_lexable(item_tokens(its[0])));
            },
            ItemV::Func(n, f) => {
                lemma_lexable_ident(n);
                lemma_lexable_block(f.body);
                let ti = types_tokens(f.inputs);
                let to = types_tokens(f.outputs);
                assert(all_lexable(ti));
                assert(all_lexable(to));
                assert(all_lexable(seq![n, "("@]));
                assert(all_lexable(seq![")"@, "("@]));
                assert(all_lexable(seq![")"@, "{"@]));
                assert(all_lexable(seq!["}"@]));
                lemma_all_lexable_concat(seq![n, "("@], ti);
                lemma_all_lexable_concat(seq![n, "("@] + ti, seq![")"@, "("@]);
                lemma_all_lexable_concat(seq![n, "("@] + ti + seq![")"@, "("@], to);
                lemma_all_lexable_concat(seq![n, "("@] + ti + seq![")"@, "("@] + to, seq![")"@, "{"@]);
                lemma_all_lexable_concat(
                    seq![n, "("@] + ti + seq![")"@, "("@] + to + seq![")"@, "{"@],
                    block_tokens(f.body),
                );
                lemma_all_lexable_concat(
                    seq![n, "("@] + ti + seq![")"@, "("@] + to + seq![")"@, "{"@] + block_tokens(
                        f.body,
                    ),
                    seq!["}"@],
                );
            },
        }
        lemma_all_lexable_concat(item_tokens(its[0]), items_tokens(rest));
    }
}

proof fn lemma_build_concat(q: ProgramV, a: Seq<ItemV>, b: Seq<ItemV>)
    ensures
        build(q, a + b) == build(build(q, a), b),
    decreases a.len(),
{
    if a.len() == 0 {
        assert(a + b =~= b);
    } else {
        assert((a + b).drop_first() =~= a.drop_first() + b);
        assert((a + b)[0] == a[0]);
        lemma_build_concat(add_item(q, a[0]), a.drop_first(), b);
    }
}

proof fn lemma_build_constants(q: ProgramV, cs: Seq<(Seq<char>, LitV)>)
    ensures
        ({
            let r = build(
                q,
                cs.map_values(|c: (Seq<char>, LitV)| ItemV::Const(c.0, ConstV::Scalar(c.1))),
            );
            r.constants == q.constants + cs && r.arrays == q.arrays && r.functions == q.functions
        }),
    decreases cs.len(),
{
    let m = cs.map_values(|c: (Seq<char>, LitV)| ItemV::Const(c.0, ConstV::Scalar(c.1)));
    if cs.len() == 0 {
        assert(q.constants + cs =~= q.constants);
    } else {
        let q2 = add_const(q, cs[0].0, ConstV::Scalar(cs[0].1));
        assert(m.drop_first() =~= cs.drop_first().map_values(
            |c: (Seq<char>, LitV)| ItemV::Const(c.0, ConstV::Scalar(c.1)),
        ));
        lemma_build_constants(q2, cs.drop_first());
        assert(q2.constants + cs.drop_first() =~= q.constants + cs);
    }
}

proof fn lemma_build_arrays(q: ProgramV, xs: Seq<(Seq<char>, nat)>)
    ensures
        ({
            let r = build(
                q,
                xs.map_values(|a: (Seq<char>, nat)| ItemV::Const(a.0, ConstV::Array(a.1))),
            );
            r.constants == q.constants && r.arrays == q.arrays + xs && r.functions == q.functions
        }),
    decreases xs.len(),
{
    let m = xs.map_values(|a: (Seq<char>, nat)| ItemV::Const(a.0, ConstV::Array(a.1)));
    if xs.len() == 0 {
        assert(q.arrays + xs =~= q.arrays);
    } else {
        let q2 = add_const(q, xs[0].0, ConstV::Array(xs[0].1));
        assert(m.drop_first() =~= xs.drop_first().map_values(
            |a: (Seq<char>, nat)| ItemV::Const(a.0, ConstV::Array(a.1)),
        ));
        lemma_build_arrays(q2, xs.drop_first());
        assert(q2.arrays + xs.drop_first() =~= q.arrays + xs);
    }
}

proof fn lemma_build_functions(q: ProgramV, fs: Seq<(Seq<char>, FunctionV)>)
    ensures
        ({
            let r = build(q, fs.map_values(|f: (Seq<char>, FunctionV)| ItemV::Func(f.0, f.1)));
            r.constants == q.constants && r.arrays == q.arrays && r.functions == q.functions + fs
        }),
    decreases fs.len(),
{
    let m = fs.map_values(|f: (Seq<char>, FunctionV)| ItemV::Func(f.0, f.1));
    if fs.len() == 0 {
        assert(q.functions + fs =~= q.functions);
    } else {
        let q2 = add_function(q, fs[0].0, fs[0].1);
        assert(m.drop_first() =~= fs.drop_first().map_values(
            |f: (Seq<char>, FunctionV)| ItemV::Func(f.0, f.1),
        ));
        lemma_build_functions(q2, fs.drop_first());
        assert(q2.functions + fs.drop_first() =~= q.functions + fs);
    }
}

/// Printing a program that the grammar can express and parsing the text
/// gives back the same program.
pub proof fn lemma_print_then_parse(p: ProgramV)
    requires
        wf_program(p),
    ensures
        parse_spec(print_program(p)) == Ok::<ProgramV, crate::syntax::ParseErrorV>(p),
{
    let cm = p.constants.map_values(|c: (Seq<char>, LitV)| ItemV::Const(c.0, ConstV::Scalar(c.1)));
    let am = p.arrays.map_values(|a: (Seq<char>, nat)| ItemV::Const(a.0, ConstV::Array(a.1)));
    let fm = p.functions.map_values(|f: (Seq<char>, FunctionV)| ItemV::Func(f.0, f.1));
    let its = program_items(p);
    assert(its == cm + am + fm);
    assert forall|i: int| 0 <= i < its.len() implies wf_item(#[trigger] its[i]) by {
        if i < cm.len() {
            assert(its[i] == cm[i]);
            assert(is_ident(p.constants[i].0));
        } else if i < cm.len() + am.len() {
            assert(its[i] == am[i - cm.len()]);
            assert(is_ident(p.arrays[i - cm.len()].0));
        } else {
            assert(its[i] == fm[i - cm.len() - am.len()]);
            assert(is_ident(p.functions[i - cm.len() - am.len()].0));
        }
    }
    let ws = items_tokens(its);
    let text = print_program(p);
    lemma_lexable_items(its);
    lemma_lex_join(Seq::empty(), ws);
    assert(Seq::<char>::empty() + join_words(ws) =~= text);
    let t = spans_from(ws, 0);
    assert(lex(text) == Ok::<Seq<(int, int)>, int>(t));
    assert(words_at(text, t, ws));
    assert(words_match(ws, 0, ws)) by {
        assert forall|j: int| 0 <= j < ws.len() implies #[trigger] ws[0 + j] == ws[j] by {}
    }
    lemma_parse_items(text, t, ws, 0, empty_program(), its);
    lemma_build_concat(empty_program(), cm + am, fm);
    lemma_build_concat(empty_program(), cm, am);
    lemma_build_constants(empty_program(), p.constants);
    let q1 = build(empty_program(), cm);
    lemma_build_arrays(q1, p.arrays);
    let q2 = build(q1, am);
    lemma_build_functions(q2, p.functions);
    let r = build(q2, fm);
    assert(r.constants =~= p.constants);
    assert(r.arrays =~= p.arrays);
    assert(r.functions =~= p.functions);
    assert(r == p);
    lemma_first_repeat_none(declared_names(p));
    assert(declarations(text) == Ok::<ProgramV, crate::syntax::ParseErrorV>(p));
}

/// `const NAME 16` reserves 16 bytes under `NAME`, while `const NAME +16`
/// (or a negative value) declares a scalar constant: only the written sign
/// tells the two apart.
pub proof fn lemma_constant_kinds(n: Seq<char>, k: nat, v: int)
    requires
        is_ident(n),
        k <= usize::MAX,
        in_i64(v),
    ensures
        parse_spec(join_words(seq!["const"@, n, nat_text(k)])) == Ok::<
            ProgramV,
            crate::syntax::ParseErrorV,
        >(ProgramV { functions: Seq::empty(), constants: Seq::empty(), arrays: seq![(n, k)] }),
        parse_spec(join_words(seq!["const"@, n, signed_text(v)])) == Ok::<
            ProgramV,
            crate::syntax::ParseErrorV,
        >(
            ProgramV {
                functions: Seq::empty(),
                constants: seq![(n, LitV::Int(v))],
                arrays: Seq::empty(),
            },
        ),
{
    let pa = ProgramV { functions: Seq::empty(), constants: Seq::empty(), arrays: seq![(n, k)] };
    let pc = ProgramV {
        functions: Seq::empty(),
        constants: seq![(n, LitV::Int(v))],
        arrays: Seq::empty(),
    };
    assert(declared_names(pa) =~= seq![n]);
    assert(declared_names(pc) =~= seq![n]);
    lemma_print_then_parse(pa);
    lemma_print_then_parse(pc);
    let ia = program_items(pa);
    let ic = program_items(pc);
    assert(ia =~= seq![ItemV::Const(n, ConstV::Array(k))]);
    assert(ic =~= seq![ItemV::Const(n, ConstV::Scalar(LitV::Int(v)))]);
    assert(ia.drop_first() =~= Seq::<ItemV>::empty());
    assert(ic.drop_first() =~= Seq::<ItemV>::empty());
    assert(items_tokens(ia.drop_first()) =~= Seq::<Seq<char>>::empty());
    assert(item_tokens(ia[0]) == seq!["const"@, n, nat_text(k)]);
    assert(items_tokens(ia) =~= seq!["const"@, n, nat_text(k)]);
    assert(items_tokens(ic) =~= seq!["const"@, n, signed_text(v)]);
}

} // verus!
