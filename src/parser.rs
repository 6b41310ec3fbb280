use vstd::prelude::*;

use crate::ast::{
    BasicType, ComparisonOp, Constant, Expr, Function, FunctionV, IfStmt, Literal, MathOp,
    Program, ProgramV, Stmt, StmtV, declared_names, names_distinct, view_block, view_stmt,
};
use crate::decimal::{is_digit, is_digits, parse_digits};
use crate::lexer::{
    chars_of, is_bracket, is_space, lemma_quote_end_bounds, lemma_word_end_bounds, lex, lex_from,
    quote_end, spans_view, tokenize, word_end,
};
use crate::syntax::{
    ConstV, ParseErrorV, add_const, add_function, cmp_word, const_word, empty_program, err_at, has_tok,
    in_i64, int_word, is_alnum, is_ident, math_word, parse_block, parse_function,
    parse_items, parse_spec, parse_stmt, lemma_parse_distinct, check_names, first_repeat, parse_types, stmt_word, tok, type_word,
};

verus! {

/// Why a text is not a program.
#[derive(Debug)]
pub enum ParseError {
    /// The text breaks the grammar, or names a type other than `int` or
    /// `ptr`; the position is a character offset into the text.
    SyntaxError(usize),
    /// A name is declared a second time.
    DuplicateName(String),
}

impl View for ParseError {
    type V = ParseErrorV;

    open spec fn view(&self) -> ParseErrorV {
        match self {
            ParseError::SyntaxError(p) => ParseErrorV::Syntax(*p as int),
            ParseError::DuplicateName(n) => ParseErrorV::Duplicate(n@),
        }
    }
}

impl View for Constant {
    type V = ConstV;

    open spec fn view(&self) -> ConstV {
        match self {
            Constant::Single(l) => ConstV::Scalar(l@),
            Constant::Array(n) => ConstV::Array(*n as nat),
        }
    }
}

/// Every span lies inside the text and is not empty.
pub open spec fn spans_valid(s: Seq<char>, t: Seq<(int, int)>) -> bool {
    forall|k: int| 0 <= k < t.len() ==> 0 <= (#[trigger] t[k]).0 < t[k].1 <= s.len()
}

proof fn lemma_lex_from_valid(s: Seq<char>, i: int)
    requires
        0 <= i <= s.len(),
    ensures
        lex_from(s, i) is Ok ==> spans_valid(s, lex_from(s, i)->Ok_0),
    decreases s.len() - i,
{
    if i < s.len() {
        lemma_quote_end_bounds(s, i + 1);
        lemma_word_end_bounds(s, i);
        let c = s[i];
        let j = if is_space(c) || is_bracket(c) {
            i + 1
        } else if c == '"' {
            quote_end(s, i + 1) + 1
        } else {
            word_end(s, i)
        };
        if c == '"' && quote_end(s, i + 1) >= s.len() {
        } else {
            if !is_space(c) && !is_bracket(c) && c != '"' {
                lemma_word_end_bounds(s, i + 1);
            }
            lemma_lex_from_valid(s, j);
            if !is_space(c) && lex_from(s, j) is Ok {
                let rest = lex_from(s, j)->Ok_0;
                let all = lex_from(s, i)->Ok_0;
                assert forall|k: int| 0 <= k < all.len() implies 0 <= (#[trigger] all[k]).0
                    < all[k].1 <= s.len() by {
                    if k > 0 {
                        assert(all[k] == rest[k - 1]);
                    }
                }
            }
        }
    }
}

/// Tells whether the characters `from..to` spell `w`.
fn span_is(chars: &Vec<char>, from: usize, to: usize, w: &str) -> (r: bool)
    requires
        from <= to <= chars@.len(),
    ensures
        r == (chars@.subrange(from as int, to as int) == w@),
{
    let n = w.unicode_len();
    if to - from != n {
        return false;
    }
    let mut i: usize = 0;
    while i < n
        invariant
            n == w@.len(),
            to - from == n,
            from <= to <= chars@.len(),
            i <= n,
            forall|j: int| 0 <= j < i ==> chars@[from + j] == #[trigger] w@[j],
        decreases n - i,
    {
        if chars[from + i] != w.get_char(i) {
            assert(chars@.subrange(from as int, to as int)[i as int] != w@[i as int]);
            return false;
        }
        i = i + 1;
    }
    assert(chars@.subrange(from as int, to as int) =~= w@);
    true
}

fn has_tok_exec(chars: &Vec<char>, spans: &Vec<(usize, usize)>, k: usize, w: &str) -> (r: bool)
    requires
        spans_valid(chars@, spans_view(spans@)),
    ensures
        r == has_tok(chars@, spans_view(spans@), k as int, w@),
{
    if k >= spans.len() {
        return false;
    }
    let (a, b) = spans[k];
    assert(spans_view(spans@)[k as int] == (a as int, b as int));
    span_is(chars, a, b, w)
}

fn all_digits(chars: &Vec<char>, from: usize, to: usize) -> (r: bool)
    requires
        from <= to <= chars@.len(),
    ensures
        r == is_digits(chars@.subrange(from as int, to as int)),
{
    if from == to {
        return false;
    }
    let mut i: usize = from;
    while i < to
        invariant
            from <= i <= to <= chars@.len(),
            forall|j: int| from <= j < i ==> is_digit(#[trigger] chars@[j]),
        decreases to - i,
    {
        let c = chars[i];
        if !('0' <= c && c <= '9') {
            assert(!is_digit(chars@.subrange(from as int, to as int)[i - from]));
            return false;
        }
        i = i + 1;
    }
    assert forall|j: int| 0 <= j < to - from implies is_digit(
        #[trigger] chars@.subrange(from as int, to as int)[j],
    ) by {
        assert(chars@.subrange(from as int, to as int)[j] == chars@[from + j]);
    }
    true
}

/// Reads an integer word: whether a sign was written, its value as an `i64`
/// if it fits, and as a `usize` if it fits.
fn int_word_exec(chars: &Vec<char>, from: usize, to: usize) -> (r: Option<(bool, Option<i64>, Option<usize>)>)
    requires
        from < to <= chars@.len(),
    ensures
        ({
            let w = chars@.subrange(from as int, to as int);
            match r {
                None => int_word(w) is None,
                Some((signed, as_i64, as_usize)) => {
                    &&& int_word(w) is Some
                    &&& (int_word(w)->0).0 == signed
                    &&& match as_i64 {
                        Some(x) => x as int == (int_word(w)->0).1,
                        None => !in_i64((int_word(w)->0).1),
                    }
                    &&& match as_usize {
                        Some(x) => x as int == (int_word(w)->0).1,
                        None => !(0 <= (int_word(w)->0).1 <= usize::MAX),
                    }
                },
            }
        }),
{
    let ghost w = chars@.subrange(from as int, to as int);
    let c = chars[from];
    let signed: bool;
    let neg: bool;
    let mag: Option<u64>;
    if to - from > 1 && (c == '+' || c == '-') && all_digits(chars, from + 1, to) {
        assert(w.drop_first() =~= chars@.subrange(from + 1, to as int));
        signed = true;
        neg = c == '-';
        mag = parse_digits(chars, from + 1, to);
    } else if all_digits(chars, from, to) {
        signed = false;
        neg = false;
        mag = parse_digits(chars, from, to);
        assert(!(w.len() > 1 && (w[0] == '+' || w[0] == '-')));
    } else {
        if to - from > 1 && (c == '+' || c == '-') {
            assert(w.drop_first() =~= chars@.subrange(from + 1, to as int));
        }
        return None;
    }
    match mag {
        None => Some((signed, None, None)),
        Some(m) => {
            let as_i64: Option<i64> = if neg {
                if m <= 9223372036854775807u64 {
                    Some(-(m as i64))
                } else if m == 9223372036854775808u64 {
                    Some(i64::MIN)
                } else {
                    None
                }
            } else if m <= 9223372036854775807u64 {
                Some(m as i64)
            } else {
                None
            };
            let as_usize: Option<usize> = if neg && m != 0 {
                None
            } else if m <= usize::MAX as u64 {
                Some(m as usize)
            } else {
                None
            };
            Some((signed, as_i64, as_usize))
        },
    }
}

fn is_ident_exec(chars: &Vec<char>, from: usize, to: usize) -> (r: bool)
    requires
        from < to <= chars@.len(),
    ensures
        r == is_ident(chars@.subrange(from as int, to as int)),
{
    let ghost w = chars@.subrange(from as int, to as int);
    let c = chars[from];
    if !(('a' <= c && c <= 'z') || ('A' <= c && c <= 'Z') || c == '_') {
        return false;
    }
    let mut i: usize = from + 1;
    while i < to
        invariant
            from < i <= to <= chars@.len(),
            w == chars@.subrange(from as int, to as int),
            forall|j: int| 1 <= j < i - from ==> is_alnum(#[trigger] w[j]),
        decreases to - i,
    {
        let d = chars[i];
        if !(('a' <= d && d <= 'z') || ('A' <= d && d <= 'Z') || d == '_' || ('0' <= d && d
            <= '9')) {
            assert(!is_alnum(w[i - from]));
            return false;
        }
        i = i + 1;
    }
    !(span_is(chars, from, to, "const") || span_is(chars, from, to, "if") || span_is(
        chars,
        from,
        to,
        "else",
    ))
}

fn math_word_exec(chars: &Vec<char>, from: usize, to: usize) -> (r: Option<MathOp>)
    requires
        from <= to <= chars@.len(),
    ensures
        r == math_word(chars@.subrange(from as int, to as int)),
{
    if span_is(chars, from, to, "+") {
        Some(MathOp::Plus)
    } else if span_is(chars, from, to, "-") {
        Some(MathOp::Minus)
    } else if span_is(chars, from, to, "*") {
        Some(MathOp::Multiply)
    } else if span_is(chars, from, to, "/") {
        Some(MathOp::Divide)
    } else if span_is(chars, from, to, "%") {
        Some(MathOp::Mod)
    } else {
        None
    }
}

fn cmp_word_exec(chars: &Vec<char>, from: usize, to: usize) -> (r: Option<ComparisonOp>)
    requires
        from <= to <= chars@.len(),
    ensures
        r == cmp_word(chars@.subrange(from as int, to as int)),
{
    if span_is(chars, from, to, "=?") {
        Some(ComparisonOp::Eq)
    } else if span_is(chars, from, to, "!=") {
        Some(ComparisonOp::NotEq)
    } else if span_is(chars, from, to, ">") {
        Some(ComparisonOp::Gt)
    } else if span_is(chars, from, to, "<") {
        Some(ComparisonOp::Lt)
    } else {
        None
    }
}

fn type_word_exec(chars: &Vec<char>, from: usize, to: usize) -> (r: Option<BasicType>)
    requires
        from <= to <= chars@.len(),
    ensures
        r == type_word(chars@.subrange(from as int, to as int)),
{
    if span_is(chars, from, to, "int") {
        Some(BasicType::Integer)
    } else if span_is(chars, from, to, "ptr") {
        Some(BasicType::Pointer)
    } else {
        None
    }
}

fn token_text(text: &str, from: usize, to: usize) -> (r: String)
    requires
        from <= to <= text@.len(),
    ensures
        r@ == text@.subrange(from as int, to as int),
{
    text.substring_char(from, to).to_owned()
}

fn stmt_word_exec(text: &str, chars: &Vec<char>, from: usize, to: usize) -> (r: Option<Stmt>)
    requires
        chars@ == text@,
        from < to <= chars@.len(),
    ensures
        match r {
            Some(st) => stmt_word(chars@.subrange(from as int, to as int)) == Some(st@),
            None => stmt_word(chars@.subrange(from as int, to as int)) is None,
        },
{
    if chars[from] == '"' {
        return Some(Stmt::Literal(Literal::String(token_text(text, from, to))));
    }
    match int_word_exec(chars, from, to) {
        Some((_, as_i64, _)) => {
            return match as_i64 {
                Some(x) => Some(Stmt::Literal(Literal::Integer(x))),
                None => None,
            };
        },
        None => {},
    }
    match math_word_exec(chars, from, to) {
        Some(m) => {
            return Some(Stmt::MathOp(m));
        },
        None => {},
    }
    match cmp_word_exec(chars, from, to) {
        Some(c) => {
            return Some(Stmt::ComparisonOp(c));
        },
        None => {},
    }
    if is_ident_exec(chars, from, to) {
        Some(Stmt::Ident(token_text(text, from, to)))
    } else {
        None
    }
}

fn const_word_exec(text: &str, chars: &Vec<char>, from: usize, to: usize) -> (r: Option<Constant>)
    requires
        chars@ == text@,
        from < to <= chars@.len(),
    ensures
        match r {
            Some(c) => const_word(chars@.subrange(from as int, to as int)) == Some(c@),
            None => const_word(chars@.subrange(from as int, to as int)) is None,
        },
{
    if chars[from] == '"' {
        return Some(Constant::Single(Literal::String(token_text(text, from, to))));
    }
    match int_word_exec(chars, from, to) {
        Some((signed, as_i64, as_usize)) => {
            if signed {
                match as_i64 {
                    Some(x) => Some(Constant::Single(Literal::Integer(x))),
                    None => None,
                }
            } else {
                match as_usize {
                    Some(n) => Some(Constant::Array(n)),
                    None => None,
                }
            }
        },
        None => None,
    }
}

/// What the exec parsing functions share: the text, its characters, and its
/// tokens as `lex` gives them.
pub open spec fn tokens_ok(text: &str, chars: &Vec<char>, spans: &Vec<(usize, usize)>) -> bool {
    &&& chars@ == text@
    &&& spans_valid(chars@, spans_view(spans@))
}

pub open spec fn stmt_result(
    r: Result<(Stmt, usize), usize>,
) -> Result<(StmtV, int), int> {
    match r {
        Ok((st, e)) => Ok((st@, e as int)),
        Err(e) => Err(e as int),
    }
}

pub open spec fn prepend_stmts(
    acc: Seq<StmtV>,
    r: Result<(Seq<StmtV>, int), int>,
) -> Result<(Seq<StmtV>, int), int> {
    match r {
        Ok((rest, e)) => Ok((acc + rest, e)),
        Err(e) => Err(e),
    }
}

pub open spec fn prepend_types(
    acc: Seq<BasicType>,
    r: Result<(Seq<BasicType>, int), int>,
) -> Result<(Seq<BasicType>, int), int> {
    match r {
        Ok((rest, e)) => Ok((acc + rest, e)),
        Err(e) => Err(e),
    }
}

fn parse_types_exec(chars: &Vec<char>, spans: &Vec<(usize, usize)>, k: usize) -> (r: Result<
    (Vec<BasicType>, usize),
    usize,
>)
    requires
        spans_valid(chars@, spans_view(spans@)),
    ensures
        match r {
            Ok((v, e)) => parse_types(chars@, spans_view(spans@), k as int) == Ok::<
                (Seq<BasicType>, int),
                int,
            >((v@, e as int)) && k < e <= spans@.len(),
            Err(e) => parse_types(chars@, spans_view(spans@), k as int) == Err::<
                (Seq<BasicType>, int),
                int,
            >(e as int),
        },
{
    let ghost s = chars@;
    let ghost t = spans_view(spans@);
    let mut acc: Vec<BasicType> = Vec::new();
    let mut i: usize = k;
    assert(acc@ + Seq::<BasicType>::empty() =~= Seq::<BasicType>::empty());
    loop
        invariant
            s == chars@,
            t == spans_view(spans@),
            spans_valid(s, t),
            k <= i,
            parse_types(s, t, k as int) == prepend_types(acc@, parse_types(s, t, i as int)),
        decreases spans@.len() - i,
    {
        if i >= spans.len() {
            return Err(chars.len());
        }
        let (a, b) = spans[i];
        assert(t[i as int] == (a as int, b as int));
        if span_is(chars, a, b, ")") {
            assert(acc@ + Seq::<BasicType>::empty() =~= acc@);
            return Ok((acc, i + 1));
        }
        match type_word_exec(chars, a, b) {
            Some(ty) => {
                let ghost old_acc = acc@;
                acc.push(ty);
                proof {
                    match parse_types(s, t, i + 1) {
                        Ok((rest, e)) => {
                            assert(old_acc + (seq![ty] + rest) =~= acc@ + rest);
                        },
                        Err(e) => {},
                    }
                }
                i = i + 1;
            },
            None => {
                return Err(a);
            },
        }
    }
}

#[verifier::spinoff_prover]
fn parse_stmt_exec(text: &str, chars: &Vec<char>, spans: &Vec<(usize, usize)>, k: usize) -> (r:
    Result<(Stmt, usize), usize>)
    requires
        tokens_ok(text, chars, spans),
        k <= spans@.len(),
    ensures
        stmt_result(r) == parse_stmt(chars@, spans_view(spans@), k as int),
        r matches Ok((_, e)) ==> k < e <= spans@.len(),
    decreases spans@.len() - k, 0int,
{
    let ghost t = spans_view(spans@);
    if k >= spans.len() {
        return Err(chars.len());
    }
    let (a, b) = spans[k];
    assert(t[k as int] == (a as int, b as int));
    if span_is(chars, a, b, "if") {
        if !has_tok_exec(chars, spans, k + 1, "{") {
            let e = if k + 1 < spans.len() {
                spans[k + 1].0
            } else {
                chars.len()
            };
            return Err(e);
        }
        let (then_part, k3) = match parse_block_exec(text, chars, spans, k + 2) {
            Ok(x) => x,
            Err(e) => {
                return Err(e);
            },
        };
        if !has_tok_exec(chars, spans, k3, "else") {
            return Ok((Stmt::IfStmt(IfStmt { if_expr: Expr(then_part), else_expr: None }), k3));
        }
        if !has_tok_exec(chars, spans, k3 + 1, "{") {
            let e = if k3 + 1 < spans.len() {
                spans[k3 + 1].0
            } else {
                chars.len()
            };
            return Err(e);
        }
        let (else_part, k4) = match parse_block_exec(text, chars, spans, k3 + 2) {
            Ok(x) => x,
            Err(e) => {
                return Err(e);
            },
        };
        Ok(
            (
                Stmt::IfStmt(IfStmt { if_expr: Expr(then_part), else_expr: Some(Expr(else_part)) }),
                k4,
            ),
        )
    } else {
        match stmt_word_exec(text, chars, a, b) {
            Some(st) => Ok((st, k + 1)),
            None => Err(a),
        }
    }
}

#[verifier::spinoff_prover]
fn parse_block_exec(text: &str, chars: &Vec<char>, spans: &Vec<(usize, usize)>, k: usize) -> (r:
    Result<(Vec<Stmt>, usize), usize>)
    requires
        tokens_ok(text, chars, spans),
        k <= spans@.len(),
    ensures
        match r {
            Ok((v, e)) => parse_block(chars@, spans_view(spans@), k as int) == Ok::<
                (Seq<StmtV>, int),
                int,
            >((view_block(v@), e as int)) && k < e <= spans@.len(),
            Err(e) => parse_block(chars@, spans_view(spans@), k as int) == Err::<
                (Seq<StmtV>, int),
                int,
            >(e as int),
        },
    decreases spans@.len() - k, 1int,
{
    let ghost s = chars@;
    let ghost t = spans_view(spans@);
    let mut acc: Vec<Stmt> = Vec::new();
    let mut i: usize = k;
    assert(view_block(acc@) + Seq::<StmtV>::empty() =~= Seq::<StmtV>::empty());
    loop
        invariant
            s == chars@,
            t == spans_view(spans@),
            tokens_ok(text, chars, spans),
            k <= i <= spans@.len(),
            parse_block(s, t, k as int) == prepend_stmts(
                view_block(acc@),
                parse_block(s, t, i as int),
            ),
        decreases spans@.len() - i,
    {
        if i >= spans.len() {
            return Err(chars.len());
        }
        let (a, b) = spans[i];
        assert(t[i as int] == (a as int, b as int));
        if span_is(chars, a, b, "}") {
            assert(view_block(acc@) + Seq::<StmtV>::empty() =~= view_block(acc@));
            return Ok((acc, i + 1));
        }
        match parse_stmt_exec(text, chars, spans, i) {
            Ok((st, i2)) => {
                let ghost old_acc = acc@;
                acc.push(st);
                proof {
                    assert(acc@.drop_last() =~= old_acc);
                    assert(view_block(acc@) == view_block(old_acc).push(view_stmt(st)));
                    match parse_block(s, t, i2 as int) {
                        Ok((rest, e)) => {
                            assert(view_block(old_acc) + (seq![view_stmt(st)] + rest)
                                =~= view_block(acc@) + rest);
                        },
                        Err(e) => {},
                    }
                }
                i = i2;
            },
            Err(e) => {
                return Err(e);
            },
        }
    }
}

fn err_at_exec(chars: &Vec<char>, spans: &Vec<(usize, usize)>, k: usize) -> (r: usize)
    ensures
        r as int == err_at(chars@, spans_view(spans@), k as int),
{
    if k < spans.len() {
        spans[k].0
    } else {
        chars.len()
    }
}

fn parse_function_exec(text: &str, chars: &Vec<char>, spans: &Vec<(usize, usize)>, k: usize) -> (r:
    Result<(Function, usize), usize>)
    requires
        tokens_ok(text, chars, spans),
        k < spans@.len(),
    ensures
        match r {
            Ok((f, e)) => parse_function(chars@, spans_view(spans@), k as int) == Ok::<
                (FunctionV, int),
                int,
            >((f@, e as int)) && k < e <= spans@.len(),
            Err(e) => parse_function(chars@, spans_view(spans@), k as int) == Err::<
                (FunctionV, int),
                int,
            >(e as int),
        },
{
    if !(k < spans.len() - 1 && has_tok_exec(chars, spans, k + 1, "(")) {
        return Err(err_at_exec(chars, spans, k + 1));
    }
    let (inputs, k2) = match parse_types_exec(chars, spans, k + 2) {
        Ok(x) => x,
        Err(e) => {
            return Err(e);
        },
    };
    if !has_tok_exec(chars, spans, k2, "(") {
        return Err(err_at_exec(chars, spans, k2));
    }
    let (outputs, k3) = match parse_types_exec(chars, spans, k2 + 1) {
        Ok(x) => x,
        Err(e) => {
            return Err(e);
        },
    };
    if !has_tok_exec(chars, spans, k3, "{") {
        return Err(err_at_exec(chars, spans, k3));
    }
    let (body, k4) = match parse_block_exec(text, chars, spans, k3 + 1) {
        Ok(x) => x,
        Err(e) => {
            return Err(e);
        },
    };
    Ok((Function { inputs, outputs, expr: Expr(body) }, k4))
}

proof fn lemma_declared_names_index(p: ProgramV)
    ensures
        declared_names(p).len() == p.functions.len() + p.constants.len() + p.arrays.len(),
        forall|j: int|
            0 <= j < p.functions.len() ==> #[trigger] declared_names(p)[j] == p.functions[j].0,
        forall|j: int|
            0 <= j < p.constants.len() ==> #[trigger] declared_names(p)[p.functions.len() + j]
                == p.constants[j].0,
        forall|j: int|
            0 <= j < p.arrays.len() ==> #[trigger] declared_names(p)[p.functions.len()
                + p.constants.len() + j] == p.arrays[j].0,
{
}

/// Every declared name, functions first, then constants, then arrays.
fn declared_names_exec(p: &Program) -> (r: Vec<String>)
    ensures
        strings_view(r@) == declared_names(p@),
{
    proof {
        lemma_declared_names_index(p@);
    }
    let mut names: Vec<String> = Vec::new();
    let mut i: usize = 0;
    while i < p.functions.len()
        invariant
            i <= p.functions@.len(),
            strings_view(names@) == declared_names(p@).take(i as int),
            declared_names(p@).len() == p.functions@.len() + p.constants@.len() + p.arrays@.len(),
            forall|j: int|
                0 <= j < p.functions@.len() ==> #[trigger] declared_names(p@)[j]
                    == p.functions@[j].0@,
        decreases p.functions@.len() - i,
    {
        let ghost before = strings_view(names@);
        names.push(p.functions[i].0.clone());
        proof {
            let d = declared_names(p@);
            assert(d[i as int] == p.functions@[i as int].0@);
            assert(strings_view(names@) =~= before.push(p.functions@[i as int].0@));
            assert(d.take(i + 1) =~= d.take(i as int).push(d[i as int]));
        }
        i = i + 1;
    }
    let ghost nf = p.functions@.len() as int;
    let mut i: usize = 0;
    while i < p.constants.len()
        invariant
            nf == p.functions@.len(),
            i <= p.constants@.len(),
            strings_view(names@) == declared_names(p@).take(nf + i),
            declared_names(p@).len() == p.functions@.len() + p.constants@.len() + p.arrays@.len(),
            forall|j: int|
                0 <= j < p.constants@.len() ==> #[trigger] declared_names(p@)[nf + j]
                    == p.constants@[j].0@,
        decreases p.constants@.len() - i,
    {
        let ghost before = strings_view(names@);
        names.push(p.constants[i].0.clone());
        proof {
            let d = declared_names(p@);
            assert(d[nf + i] == p.constants@[i as int].0@);
            assert(strings_view(names@) =~= before.push(p.constants@[i as int].0@));
            assert(d.take(nf + i + 1) =~= d.take(nf + i).push(d[nf + i]));
        }
        i = i + 1;
    }
    let ghost nc = nf + p.constants@.len();
    let mut i: usize = 0;
    while i < p.arrays.len()
        invariant
            nc == p.functions@.len() + p.constants@.len(),
            i <= p.arrays@.len(),
            strings_view(names@) == declared_names(p@).take(nc + i),
            declared_names(p@).len() == p.functions@.len() + p.constants@.len() + p.arrays@.len(),
            forall|j: int|
                0 <= j < p.arrays@.len() ==> #[trigger] declared_names(p@)[nc + j]
                    == p.arrays@[j].0@,
        decreases p.arrays@.len() - i,
    {
        let ghost before = strings_view(names@);
        names.push(p.arrays[i].0.clone());
        proof {
            let d = declared_names(p@);
            assert(d[nc + i] == p.arrays@[i as int].0@);
            assert(strings_view(names@) =~= before.push(p.arrays@[i as int].0@));
            assert(d.take(nc + i + 1) =~= d.take(nc + i).push(d[nc + i]));
        }
        i = i + 1;
    }
    assert(declared_names(p@).take(nc + i) =~= declared_names(p@));
    names
}

pub open spec fn strings_view(v: Seq<String>) -> Seq<Seq<char>> {
    v.map_values(|x: String| x@)
}

proof fn lemma_first_repeat_prefix(ns: Seq<Seq<char>>, k: int)
    requires
        0 <= k <= ns.len(),
        first_repeat(ns.take(k)) is Some,
    ensures
        first_repeat(ns) == first_repeat(ns.take(k)),
    decreases ns.len() - k,
{
    if k < ns.len() {
        assert(ns.take(k + 1).drop_last() =~= ns.take(k));
        lemma_first_repeat_prefix(ns, k + 1);
    } else {
        assert(ns.take(k) =~= ns);
    }
}

/// The first declared name that repeats an earlier one, in the order of
/// `declared_names`.
fn first_repeated_name(p: &Program) -> (r: Option<String>)
    ensures
        match r {
            Some(n) => first_repeat(declared_names(p@)) == Some(n@),
            None => first_repeat(declared_names(p@)) is None,
        },
{
    let names = declared_names_exec(p);
    let ghost ns = strings_view(names@);
    let mut j: usize = 0;
    assert(ns.take(0) =~= Seq::<Seq<char>>::empty());
    while j < names.len()
        invariant
            ns == strings_view(names@),
            ns == declared_names(p@),
            j <= names@.len(),
            first_repeat(ns.take(j as int)) is None,
        decreases names@.len() - j,
    {
        let ghost pre = ns.take(j as int);
        assert(ns.take(j + 1).drop_last() =~= pre);
        assert(ns.take(j + 1).last() == ns[j as int]);
        let mut i: usize = 0;
        while i < j
            invariant
                ns == strings_view(names@),
                i <= j < names@.len(),
                pre == ns.take(j as int),
                ns == declared_names(p@),
                first_repeat(pre) is None,
                ns.take(j + 1).drop_last() == pre,
                ns.take(j + 1).last() == ns[j as int],
                forall|m: int| 0 <= m < i ==> #[trigger] pre[m] != ns[j as int],
            decreases j - i,
        {
            if names[i] == names[j] {
                proof {
                    assert(pre[i as int] == ns[j as int]);
                    assert(pre.contains(ns[j as int]));
                    lemma_first_repeat_prefix(ns, j + 1);
                }
                return Some(names[j].clone());
            }
            i = i + 1;
        }
        assert(!pre.contains(ns[j as int]));
        j = j + 1;
    }
    assert(ns.take(j as int) =~= ns);
    None
}

/// Parses a source text into a program.
///
/// The text is split into tokens (brackets, string literals, and runs of other
/// non-blank characters), which must form a sequence of declarations:
/// `const NAME VALUE`, or `NAME ( TYPES ) ( TYPES ) { STATEMENTS }`. A constant
/// whose value is an unsigned integer reserves that many bytes; a string or an
/// integer written with a sign is a scalar constant.
#[verifier::spinoff_prover]
pub fn parse(input: String) -> (r: Result<Program, ParseError>)
    ensures
        match r {
            Ok(p) => parse_spec(input@) == Ok::<ProgramV, ParseErrorV>(p@),
            Err(e) => parse_spec(input@) == Err::<ProgramV, ParseErrorV>(e@),
        },
        r matches Ok(p) ==> names_distinct(p@),
{
    proof {
        lemma_parse_distinct(input@);
    }
    let text = input.as_str();
    let chars = chars_of(text);
    let spans = match tokenize(&chars) {
        Ok(v) => v,
        Err(e) => {
            return Err(ParseError::SyntaxError(e));
        },
    };
    let ghost s = chars@;
    let ghost t = spans_view(spans@);
    proof {
        lemma_lex_from_valid(s, 0);
    }
    let mut program = Program { functions: Vec::new(), constants: Vec::new(), arrays: Vec::new() };
    assert(program@.functions =~= empty_program().functions);
    assert(program@.constants =~= empty_program().constants);
    assert(program@.arrays =~= empty_program().arrays);
    let mut i: usize = 0;
    loop
        invariant
            s == chars@,
            t == spans_view(spans@),
            tokens_ok(text, &chars, &spans),
            text@ == input@,
            i <= spans@.len(),
            parse_spec(input@) == check_names(parse_items(s, t, i as int, program@)),
            parse_spec(input@) is Ok ==> names_distinct(parse_spec(input@)->Ok_0),
        decreases spans@.len() - i,
    {
        if i >= spans.len() {
            return match first_repeated_name(&program) {
                Some(name) => Err(ParseError::DuplicateName(name)),
                None => Ok(program),
            };
        }
        let (a, b) = spans[i];
        assert(t[i as int] == (a as int, b as int));
        let ghost p0 = program@;
        if span_is(&chars, a, b, "const") {
            if !(i + 1 < spans.len() && is_ident_exec(&chars, spans[i + 1].0, spans[i + 1].1)) {
                return Err(ParseError::SyntaxError(err_at_exec(&chars, &spans, i + 1)));
            }
            let (na, nb) = spans[i + 1];
            assert(t[i + 1] == (na as int, nb as int));
            if i + 2 >= spans.len() {
                return Err(ParseError::SyntaxError(chars.len()));
            }
            let (va, vb) = spans[i + 2];
            assert(t[i + 2] == (va as int, vb as int));
            let value = match const_word_exec(text, &chars, va, vb) {
                Some(c) => c,
                None => {
                    return Err(ParseError::SyntaxError(va));
                },
            };
            let name = token_text(text, na, nb);
            match value {
                Constant::Single(l) => {
                    program.constants.push((name, l));
                },
                Constant::Array(n) => {
                    program.arrays.push((name, n));
                },
            }
            proof {
                let q = add_const(p0, tok(s, t, i + 1), const_word(tok(s, t, i + 2))->0);
                assert(program@.functions =~= q.functions);
                assert(program@.constants =~= q.constants);
                assert(program@.arrays =~= q.arrays);
            }
            i = i + 3;
        } else if is_ident_exec(&chars, a, b) {
            let (f, i2) = match parse_function_exec(text, &chars, &spans, i) {
                Ok(x) => x,
                Err(e) => {
                    return Err(ParseError::SyntaxError(e));
                },
            };
            let name = token_text(text, a, b);
            program.functions.push((name, f));
            proof {
                let q = add_function(p0, tok(s, t, i as int), f@);
                assert(program@.functions =~= q.functions);
                assert(program@.constants =~= q.constants);
                assert(program@.arrays =~= q.arrays);
            }
            i = i2;
        } else {
            return Err(ParseError::SyntaxError(a));
        }
    }
}

} // verus!
