use vstd::prelude::*;

use crate::ast::{
    BasicType, ComparisonOp, FunctionV, LitV, MathOp, ProgramV, StmtV, declared_names, names_distinct,
};
use crate::decimal::{digits_value, is_digits};
use crate::lexer::lex;

verus! {

pub open spec fn is_alpha(c: char) -> bool {
    ('a' <= c && c <= 'z') || ('A' <= c && c <= 'Z') || c == '_'
}

pub open spec fn is_alnum(c: char) -> bool {
    is_alpha(c) || ('0' <= c && c <= '9')
}

pub open spec fn is_keyword(w: Seq<char>) -> bool {
    w == "const"@ || w == "if"@ || w == "else"@
}

/// A name: a letter or underscore, then letters, digits and underscores;
/// never one of the keywords `const`, `if`, `else`.
pub open spec fn is_ident(w: Seq<char>) -> bool {
    &&& w.len() > 0
    &&& is_alpha(w[0])
    &&& forall|i: int| 1 <= i < w.len() ==> is_alnum(#[trigger] w[i])
    &&& !is_keyword(w)
}

/// A string literal token: its text starts with a double quote.
pub open spec fn is_string_token(w: Seq<char>) -> bool {
    w.len() > 0 && w[0] == '"'
}

/// An integer word: decimal digits, with or without a leading sign.
/// The flag says whether a sign was written.
pub open spec fn int_word(w: Seq<char>) -> Option<(bool, int)> {
    if w.len() > 1 && (w[0] == '+' || w[0] == '-') && is_digits(w.drop_first()) {
        let m = digits_value(w.drop_first()) as int;
        Some((true, if w[0] == '-' { -m } else { m }))
    } else if is_digits(w) {
        Some((false, digits_value(w) as int))
    } else {
        None
    }
}

pub open spec fn in_i64(v: int) -> bool {
    i64::MIN <= v <= i64::MAX
}

pub open spec fn math_word(w: Seq<char>) -> Option<MathOp> {
    if w == "+"@ {
        Some(MathOp::Plus)
    } else if w == "-"@ {
        Some(MathOp::Minus)
    } else if w == "*"@ {
        Some(MathOp::Multiply)
    } else if w == "/"@ {
        Some(MathOp::Divide)
    } else if w == "%"@ {
        Some(MathOp::Mod)
    } else {
        None
    }
}

pub open spec fn cmp_word(w: Seq<char>) -> Option<ComparisonOp> {
    if w == "=?"@ {
        Some(ComparisonOp::Eq)
    } else if w == "!="@ {
        Some(ComparisonOp::NotEq)
    } else if w == ">"@ {
        Some(ComparisonOp::Gt)
    } else if w == "<"@ {
        Some(ComparisonOp::Lt)
    } else {
        None
    }
}

pub open spec fn type_word(w: Seq<char>) -> Option<BasicType> {
    if w == "int"@ {
        Some(BasicType::Integer)
    } else if w == "ptr"@ {
        Some(BasicType::Pointer)
    } else {
        None
    }
}

/// The statement that a single token stands for, if any: a string or integer
/// literal (within the range of `i64`), an operator, or a name.
pub open spec fn stmt_word(w: Seq<char>) -> Option<StmtV> {
    if is_string_token(w) {
        Some(StmtV::Lit(LitV::Str(w)))
    } else if int_word(w) is Some {
        let (_, v) = int_word(w)->0;
        if in_i64(v) {
            Some(StmtV::Lit(LitV::Int(v)))
        } else {
            None
        }
    } else if math_word(w) is Some {
        Some(StmtV::Math(math_word(w)->0))
    } else if cmp_word(w) is Some {
        Some(StmtV::Cmp(cmp_word(w)->0))
    } else if is_ident(w) {
        Some(StmtV::Ident(w))
    } else {
        None
    }
}

/// What the right-hand side of a constant declaration denotes.
pub enum ConstV {
    Scalar(LitV),
    Array(nat),
}

/// A string or a signed integer is a scalar constant; an unsigned integer is
/// a number of bytes to reserve.
pub open spec fn const_word(w: Seq<char>) -> Option<ConstV> {
    if is_string_token(w) {
        Some(ConstV::Scalar(LitV::Str(w)))
    } else if int_word(w) is Some {
        let (signed, v) = int_word(w)->0;
        if signed && in_i64(v) {
            Some(ConstV::Scalar(LitV::Int(v)))
        } else if !signed && v <= usize::MAX {
            Some(ConstV::Array(v as nat))
        } else {
            None
        }
    } else {
        None
    }
}

pub enum ParseErrorV {
    Syntax(int),
    Duplicate(Seq<char>),
}

pub open spec fn tok(s: Seq<char>, t: Seq<(int, int)>, k: int) -> Seq<char> {
    s.subrange(t[k].0, t[k].1)
}

/// Where a syntax error at token `k` is reported: the token's first
/// character, or the end of the text when the tokens ran out.
pub open spec fn err_at(s: Seq<char>, t: Seq<(int, int)>, k: int) -> int {
    if 0 <= k < t.len() {
        t[k].0
    } else {
        s.len() as int
    }
}

pub open spec fn has_tok(s: Seq<char>, t: Seq<(int, int)>, k: int, w: Seq<char>) -> bool {
    0 <= k < t.len() && tok(s, t, k) == w
}

/// A signature: type words up to and including the closing parenthesis.
pub open spec fn parse_types(s: Seq<char>, t: Seq<(int, int)>, k: int) -> Result<
    (Seq<BasicType>, int),
    int,
>
    decreases t.len() - k,
{
    if k < 0 || k >= t.len() {
        Err(s.len() as int)
    } else if tok(s, t, k) == ")"@ {
        Ok((Seq::empty(), k + 1))
    } else if type_word(tok(s, t, k)) is Some {
        match parse_types(s, t, k + 1) {
            Ok((rest, e)) => Ok((seq![type_word(tok(s, t, k))->0] + rest, e)),
            Err(e) => Err(e),
        }
    } else {
        Err(t[k].0)
    }
}

/// One statement starting at token `k`, and the token after it.
pub open spec fn parse_stmt(s: Seq<char>, t: Seq<(int, int)>, k: int) -> Result<(StmtV, int), int>
    decreases t.len() - k, 0int,
{
    if k < 0 || k >= t.len() {
        Err(s.len() as int)
    } else if tok(s, t, k) == "if"@ {
        if !has_tok(s, t, k + 1, "{"@) {
            Err(err_at(s, t, k + 1))
        } else {
            match parse_block(s, t, k + 2) {
                Err(e) => Err(e),
                Ok((then_part, k3)) => {
                    if k3 <= k {
                        Err(t[k].0)
                    } else if !has_tok(s, t, k3, "else"@) {
                        Ok((StmtV::If(then_part, None), k3))
                    } else if !has_tok(s, t, k3 + 1, "{"@) {
                        Err(err_at(s, t, k3 + 1))
                    } else {
                        match parse_block(s, t, k3 + 2) {
                            Err(e) => Err(e),
                            Ok((else_part, k4)) => Ok((StmtV::If(then_part, Some(else_part)), k4)),
                        }
                    }
                },
            }
        }
    } else {
        match stmt_word(tok(s, t, k)) {
            Some(st) => Ok((st, k + 1)),
            None => Err(t[k].0),
        }
    }
}

/// Statements starting at token `k` up to and including the closing brace.
pub open spec fn parse_block(s: Seq<char>, t: Seq<(int, int)>, k: int) -> Result<
    (Seq<StmtV>, int),
    int,
>
    decreases t.len() - k, 1int,
{
    if k < 0 || k >= t.len() {
        Err(s.len() as int)
    } else if tok(s, t, k) == "}"@ {
        Ok((Seq::empty(), k + 1))
    } else {
        match parse_stmt(s, t, k) {
            Err(e) => Err(e),
            Ok((st, k2)) => {
                if !(k < k2 <= t.len()) {
                    Err(t[k].0)
                } else {
                    match parse_block(s, t, k2) {
                        Ok((rest, k3)) => Ok((seq![st] + rest, k3)),
                        Err(e) => Err(e),
                    }
                }
            },
        }
    }
}

pub open spec fn empty_program() -> ProgramV {
    ProgramV { functions: Seq::empty(), constants: Seq::empty(), arrays: Seq::empty() }
}

pub open spec fn add_const(p: ProgramV, name: Seq<char>, c: ConstV) -> ProgramV {
    match c {
        ConstV::Scalar(l) => ProgramV { constants: p.constants.push((name, l)), ..p },
        ConstV::Array(n) => ProgramV { arrays: p.arrays.push((name, n)), ..p },
    }
}

pub open spec fn add_function(p: ProgramV, name: Seq<char>, f: FunctionV) -> ProgramV {
    ProgramV { functions: p.functions.push((name, f)), ..p }
}

/// A function declaration whose name is token `k`: the signatures, the body,
/// and the token after the closing brace.
pub open spec fn parse_function(s: Seq<char>, t: Seq<(int, int)>, k: int) -> Result<
    (FunctionV, int),
    int,
> {
    if !has_tok(s, t, k + 1, "("@) {
        Err(err_at(s, t, k + 1))
    } else {
        match parse_types(s, t, k + 2) {
            Err(e) => Err(e),
            Ok((ins, k2)) => if !has_tok(s, t, k2, "("@) {
                Err(err_at(s, t, k2))
            } else {
                match parse_types(s, t, k2 + 1) {
                    Err(e) => Err(e),
                    Ok((outs, k3)) => if !has_tok(s, t, k3, "{"@) {
                        Err(err_at(s, t, k3))
                    } else {
                        match parse_block(s, t, k3 + 1) {
                            Err(e) => Err(e),
                            Ok((body, k4)) => Ok(
                                (FunctionV { inputs: ins, outputs: outs, body }, k4),
                            ),
                        }
                    },
                }
            },
        }
    }
}

/// The top-level declarations from token `k` on, added to `p` in order; or
/// the first place where the tokens break the grammar. Repeated names are not
/// looked at here.
pub open spec fn parse_items(s: Seq<char>, t: Seq<(int, int)>, k: int, p: ProgramV) -> Result<
    ProgramV,
    ParseErrorV,
>
    decreases t.len() - k,
{
    if k < 0 || k >= t.len() {
        Ok(p)
    } else if tok(s, t, k) == "const"@ {
        if !(k + 1 < t.len() && is_ident(tok(s, t, k + 1))) {
            Err(ParseErrorV::Syntax(err_at(s, t, k + 1)))
        } else if k + 2 >= t.len() || const_word(tok(s, t, k + 2)) is None {
            Err(ParseErrorV::Syntax(err_at(s, t, k + 2)))
        } else {
            parse_items(
                s,
                t,
                k + 3,
                add_const(p, tok(s, t, k + 1), const_word(tok(s, t, k + 2))->0),
            )
        }
    } else if is_ident(tok(s, t, k)) {
        match parse_function(s, t, k) {
            Err(e) => Err(ParseErrorV::Syntax(e)),
            Ok((f, k2)) => if !(k < k2 <= t.len()) {
                Err(ParseErrorV::Syntax(t[k].0))
            } else {
                parse_items(s, t, k2, add_function(p, tok(s, t, k), f))
            },
        }
    } else {
        Err(ParseErrorV::Syntax(t[k].0))
    }
}

/// The first name that repeats an earlier one, if any.
pub open spec fn first_repeat(ns: Seq<Seq<char>>) -> Option<Seq<char>>
    decreases ns.len(),
{
    if ns.len() == 0 {
        None
    } else {
        match first_repeat(ns.drop_last()) {
            Some(n) => Some(n),
            None => if ns.drop_last().contains(ns.last()) {
                Some(ns.last())
            } else {
                None
            },
        }
    }
}

/// A text that follows the grammar is rejected when it declares a name twice:
/// the first name of the program (functions, then constants, then arrays) that
/// repeats an earlier one is reported.
pub open spec fn check_names(r: Result<ProgramV, ParseErrorV>) -> Result<ProgramV, ParseErrorV> {
    match r {
        Err(e) => Err(e),
        Ok(p) => match first_repeat(declared_names(p)) {
            Some(n) => Err(ParseErrorV::Duplicate(n)),
            None => Ok(p),
        },
    }
}

/// All declarations of the text, or the first place where it breaks the
/// grammar.
pub open spec fn declarations(s: Seq<char>) -> Result<ProgramV, ParseErrorV> {
    match lex(s) {
        Err(e) => Err(ParseErrorV::Syntax(e)),
        Ok(t) => parse_items(s, t, 0, empty_program()),
    }
}

/// The program that the text denotes: a syntax error wherever the text breaks
/// the grammar, else a repeated name if there is one, else the program.
pub open spec fn parse_spec(s: Seq<char>) -> Result<ProgramV, ParseErrorV> {
    check_names(declarations(s))
}

pub proof fn lemma_first_repeat_none(ns: Seq<Seq<char>>)
    ensures
        first_repeat(ns) is None <==> ns.no_duplicates(),
    decreases ns.len(),
{
    if ns.len() > 0 {
        let d = ns.drop_last();
        lemma_first_repeat_none(d);
        if ns.no_duplicates() {
            assert forall|i: int, j: int| 0 <= i < d.len() && 0 <= j < d.len() && i != j implies d[i]
                != d[j] by {
                assert(d[i] == ns[i] && d[j] == ns[j]);
            }
            if d.contains(ns.last()) {
                let i = choose|i: int| 0 <= i < d.len() && d[i] == ns.last();
                assert(ns[i] == ns[ns.len() - 1]);
            }
        }
        if first_repeat(ns) is None {
            assert forall|i: int, j: int|
                0 <= i < ns.len() && 0 <= j < ns.len() && i != j implies ns[i] != ns[j] by {
                if i < d.len() && j < d.len() {
                    assert(d[i] == ns[i] && d[j] == ns[j]);
                } else if i < d.len() {
                    assert(d[i] == ns[i]);
                } else {
                    assert(d[j] == ns[j]);
                }
            }
        }
    }
}

/// Every name is declared at most once in a program that parses.
pub proof fn lemma_parse_distinct(s: Seq<char>)
    ensures
        parse_spec(s) is Ok ==> names_distinct(parse_spec(s)->Ok_0),
{
    if declarations(s) is Ok {
        lemma_first_repeat_none(declared_names(declarations(s)->Ok_0));
    }
}

/// Declaring a name twice, in one table or across two, is rejected: when the
/// text follows the grammar, it parses exactly when its declarations carry
/// distinct names, and a syntax error anywhere in the text is reported as one
/// whatever names it repeats.
pub proof fn lemma_repeated_name_rejected(s: Seq<char>)
    ensures
        declarations(s) is Ok ==> (parse_spec(s) is Ok <==> names_distinct(
            declarations(s)->Ok_0,
        )),
        declarations(s) is Ok && !names_distinct(declarations(s)->Ok_0) ==> parse_spec(
            s,
        ) is Err && parse_spec(s)->Err_0 is Duplicate,
        declarations(s) is Err ==> parse_spec(s) == declarations(s) && parse_spec(s)->Err_0 is Syntax,
{
    if declarations(s) is Ok {
        lemma_first_repeat_none(declared_names(declarations(s)->Ok_0));
    } else {
        lemma_parse_items_syntax_only(s);
    }
}

proof fn lemma_items_syntax_only(s: Seq<char>, t: Seq<(int, int)>, k: int, p: ProgramV)
    ensures
        parse_items(s, t, k, p) is Err ==> parse_items(s, t, k, p)->Err_0 is Syntax,
    decreases t.len() - k,
{
    if 0 <= k < t.len() {
        if tok(s, t, k) == "const"@ {
            if k + 1 < t.len() && is_ident(tok(s, t, k + 1)) && k + 2 < t.len() && const_word(
                tok(s, t, k + 2),
            ) is Some {
                lemma_items_syntax_only(
                    s,
                    t,
                    k + 3,
                    add_const(p, tok(s, t, k + 1), const_word(tok(s, t, k + 2))->0),
                );
            }
        } else if is_ident(tok(s, t, k)) {
            match parse_function(s, t, k) {
                Ok((f, k2)) => {
                    if k < k2 <= t.len() {
                        lemma_items_syntax_only(s, t, k2, add_function(p, tok(s, t, k), f));
                    }
                },
                Err(_) => {},
            }
        }
    }
}

proof fn lemma_parse_items_syntax_only(s: Seq<char>)
    ensures
        declarations(s) is Err ==> declarations(s)->Err_0 is Syntax,
{
    match lex(s) {
        Ok(t) => lemma_items_syntax_only(s, t, 0, empty_program()),
        Err(_) => {},
    }
}

/// Parsing on from `q` only appends to its tables.
pub open spec fn extends(q: ProgramV, r: ProgramV) -> bool {
    &&& q.functions.len() <= r.functions.len()
    &&& q.constants.len() <= r.constants.len()
    &&& q.arrays.len() <= r.arrays.len()
    &&& forall|i: int| 0 <= i < q.functions.len() ==> #[trigger] r.functions[i] == q.functions[i]
    &&& forall|i: int| 0 <= i < q.constants.len() ==> #[trigger] r.constants[i] == q.constants[i]
    &&& forall|i: int| 0 <= i < q.arrays.len() ==> #[trigger] r.arrays[i] == q.arrays[i]
}

proof fn lemma_items_extend(s: Seq<char>, t: Seq<(int, int)>, k: int, q: ProgramV)
    ensures
        parse_items(s, t, k, q) is Ok ==> extends(q, parse_items(s, t, k, q)->Ok_0),
    decreases t.len() - k,
{
    if 0 <= k < t.len() {
        if tok(s, t, k) == "const"@ {
            if k + 1 < t.len() && is_ident(tok(s, t, k + 1)) && k + 2 < t.len() && const_word(
                tok(s, t, k + 2),
            ) is Some {
                let q2 = add_const(q, tok(s, t, k + 1), const_word(tok(s, t, k + 2))->0);
                lemma_items_extend(s, t, k + 3, q2);
            }
        } else if is_ident(tok(s, t, k)) {
            match parse_function(s, t, k) {
                Ok((f, k2)) => {
                    if k < k2 <= t.len() {
                        lemma_items_extend(s, t, k2, add_function(q, tok(s, t, k), f));
                    }
                },
                Err(_) => {},
            }
        }
    }
}

/// Wherever the declarations reach `const NAME WORD` with an integer WORD, a
/// WORD written without a sign reserves that many bytes under NAME in the
/// arrays table, and one written with a sign declares NAME as a scalar
/// integer constant; the entry stays in the program that parsing ends with.
/// When that program's names are distinct, NAME is in no other table.
pub proof fn lemma_constant_declaration(s: Seq<char>, t: Seq<(int, int)>, k: int, q: ProgramV)
    requires
        0 <= k,
        k + 2 < t.len(),
        tok(s, t, k) == "const"@,
        is_ident(tok(s, t, k + 1)),
        int_word(tok(s, t, k + 2)) is Some,
        parse_items(s, t, k, q) is Ok,
    ensures
        ({
            let n = tok(s, t, k + 1);
            let (signed, v) = int_word(tok(s, t, k + 2))->0;
            let r = parse_items(s, t, k, q)->Ok_0;
            &&& !signed ==> 0 <= v <= usize::MAX && r.arrays[q.arrays.len() as int] == (
                n,
                v as nat,
            )
            &&& signed ==> in_i64(v) && r.constants[q.constants.len() as int] == (n, LitV::Int(v))
            &&& names_distinct(r) && !signed ==> !r.constants.map_values(
                |e: (Seq<char>, LitV)| e.0,
            ).contains(n) && !r.functions.map_values(|e: (Seq<char>, FunctionV)| e.0).contains(n)
            &&& names_distinct(r) && signed ==> !r.arrays.map_values(|e: (Seq<char>, nat)| e.0).contains(
                n,
            ) && !r.functions.map_values(|e: (Seq<char>, FunctionV)| e.0).contains(n)
        }),
{
    let n = tok(s, t, k + 1);
    let c = const_word(tok(s, t, k + 2))->0;
    let q2 = add_const(q, n, c);
    lemma_items_extend(s, t, k + 3, q2);
    let r = parse_items(s, t, k, q)->Ok_0;
    let fnm = r.functions.map_values(|e: (Seq<char>, FunctionV)| e.0);
    let cnm = r.constants.map_values(|e: (Seq<char>, LitV)| e.0);
    let anm = r.arrays.map_values(|e: (Seq<char>, nat)| e.0);
    let d = declared_names(r);
    assert(d == fnm + cnm + anm);
    if names_distinct(r) {
        match c {
            ConstV::Array(_) => {
                let j = (fnm.len() + cnm.len() + q.arrays.len()) as int;
                assert(q2.arrays[q.arrays.len() as int] == (n, c->Array_0));
                assert(d[j] == n);
                if cnm.contains(n) {
                    let i = choose|i: int| 0 <= i < cnm.len() && cnm[i] == n;
                    assert(d[fnm.len() + i] == n);
                }
                if fnm.contains(n) {
                    let i = choose|i: int| 0 <= i < fnm.len() && fnm[i] == n;
                    assert(d[i] == n);
                }
            },
            ConstV::Scalar(l) => {
                let j = (fnm.len() + q.constants.len()) as int;
                assert(q2.constants[q.constants.len() as int] == (n, l));
                assert(d[j] == n);
                if anm.contains(n) {
                    let i = choose|i: int| 0 <= i < anm.len() && anm[i] == n;
                    assert(d[fnm.len() + cnm.len() + i] == n);
                }
                if fnm.contains(n) {
                    let i = choose|i: int| 0 <= i < fnm.len() && fnm[i] == n;
                    assert(d[i] == n);
                }
            },
        }
    }
}

} // verus!
