use vstd::prelude::*;

verus! {

broadcast use vstd::seq::axiom_seq_index_decreases, vstd::seq::axiom_seq_subrange_decreases;

/// The primitive types that may appear in a function's stack signature.
#[derive(Clone, Copy, Debug, PartialEq, Eq, Structural)]
pub enum BasicType {
    Pointer,
    Integer,
}

#[derive(Clone, Copy, Debug, PartialEq, Eq, Structural)]
pub enum MathOp {
    Plus,
    Minus,
    Multiply,
    Divide,
    Mod,
}

#[derive(Clone, Copy, Debug, PartialEq, Eq, Structural)]
pub enum ComparisonOp {
    Eq,
    NotEq,
    Gt,
    Lt,
}

/// A literal value. A string keeps its source text verbatim, quotes and
/// escape sequences included.
#[derive(Debug)]
pub enum Literal {
    Integer(i64),
    String(String),
}

/// The right-hand side of a constant declaration: a scalar literal, or a
/// number of bytes to reserve.
#[derive(Debug)]
pub enum Constant {
    Single(Literal),
    Array(usize),
}

/// A block: statements in source order.
#[derive(Debug)]
pub struct Expr(pub Vec<Stmt>);

#[derive(Debug)]
pub struct IfStmt {
    pub if_expr: Expr,
    pub else_expr: Option<Expr>,
}

#[derive(Debug)]
pub enum Stmt {
    Literal(Literal),
    IfStmt(IfStmt),
    MathOp(MathOp),
    ComparisonOp(ComparisonOp),
    Ident(String),
}

#[derive(Debug)]
pub struct Function {
    pub inputs: Vec<BasicType>,
    pub outputs: Vec<BasicType>,
    pub expr: Expr,
}

/// A compilation unit. Each table keeps its declarations in source order.
/// Within a table a name stands at most once (`tables_keyed`); a program that
/// `parse` returns declares every name at most once over all three tables
/// (`names_distinct`). A program built by hand may share a name between
/// tables: a statement then looks it up as a scalar constant, an array and a
/// function, in that order.
#[derive(Debug)]
pub struct Program {
    pub functions: Vec<(String, Function)>,
    pub constants: Vec<(String, Literal)>,
    pub arrays: Vec<(String, usize)>,
}

// ----- mathematical model -----

pub enum LitV {
    Int(int),
    Str(Seq<char>),
}

pub enum StmtV {
    Lit(LitV),
    If(Seq<StmtV>, Option<Seq<StmtV>>),
    Math(MathOp),
    Cmp(ComparisonOp),
    Ident(Seq<char>),
}

pub struct FunctionV {
    pub inputs: Seq<BasicType>,
    pub outputs: Seq<BasicType>,
    pub body: Seq<StmtV>,
}

pub struct ProgramV {
    pub functions: Seq<(Seq<char>, FunctionV)>,
    pub constants: Seq<(Seq<char>, LitV)>,
    pub arrays: Seq<(Seq<char>, nat)>,
}

impl View for Literal {
    type V = LitV;

    open spec fn view(&self) -> LitV {
        match self {
            Literal::Integer(n) => LitV::Int(*n as int),
            Literal::String(s) => LitV::Str(s@),
        }
    }
}

pub open spec fn view_stmt(s: Stmt) -> StmtV
    decreases s,
{
    match s {
        Stmt::Literal(l) => StmtV::Lit(l@),
        Stmt::IfStmt(i) => StmtV::If(
            view_block(i.if_expr.0@),
            match i.else_expr {
                Some(e) => Some(view_block(e.0@)),
                None => None,
            },
        ),
        Stmt::MathOp(m) => StmtV::Math(m),
        Stmt::ComparisonOp(c) => StmtV::Cmp(c),
        Stmt::Ident(n) => StmtV::Ident(n@),
    }
}

pub open spec fn view_block(ss: Seq<Stmt>) -> Seq<StmtV>
    decreases ss,
{
    if ss.len() == 0 {
        Seq::empty()
    } else {
        view_block(ss.drop_last()).push(view_stmt(ss.last()))
    }
}

impl View for Stmt {
    type V = StmtV;

    open spec fn view(&self) -> StmtV {
        view_stmt(*self)
    }
}

impl View for Expr {
    type V = Seq<StmtV>;

    open spec fn view(&self) -> Seq<StmtV> {
        view_block(self.0@)
    }
}

impl View for Function {
    type V = FunctionV;

    open spec fn view(&self) -> FunctionV {
        FunctionV { inputs: self.inputs@, outputs: self.outputs@, body: self.expr@ }
    }
}

impl View for Program {
    type V = ProgramV;

    open spec fn view(&self) -> ProgramV {
        ProgramV {
            functions: self.functions@.map_values(|e: (String, Function)| (e.0@, e.1@)),
            constants: self.constants@.map_values(|e: (String, Literal)| (e.0@, e.1@)),
            arrays: self.arrays@.map_values(|e: (String, usize)| (e.0@, e.1 as nat)),
        }
    }
}

/// Every name declared in the program, functions first, then scalar
/// constants, then arrays.
pub open spec fn declared_names(p: ProgramV) -> Seq<Seq<char>> {
    p.functions.map_values(|e: (Seq<char>, FunctionV)| e.0) + p.constants.map_values(
        |e: (Seq<char>, LitV)| e.0,
    ) + p.arrays.map_values(|e: (Seq<char>, nat)| e.0)
}

/// No name is declared twice, in one table or across tables.
pub open spec fn names_distinct(p: ProgramV) -> bool {
    declared_names(p).no_duplicates()
}

/// Within each table no name appears twice.
pub open spec fn tables_keyed(p: ProgramV) -> bool {
    &&& p.functions.map_values(|e: (Seq<char>, FunctionV)| e.0).no_duplicates()
    &&& p.constants.map_values(|e: (Seq<char>, LitV)| e.0).no_duplicates()
    &&& p.arrays.map_values(|e: (Seq<char>, nat)| e.0).no_duplicates()
}

/// Distinct names over all tables are distinct within each.
pub proof fn lemma_distinct_tables_keyed(p: ProgramV)
    requires
        names_distinct(p),
    ensures
        tables_keyed(p),
{
    let f = p.functions.map_values(|e: (Seq<char>, FunctionV)| e.0);
    let c = p.constants.map_values(|e: (Seq<char>, LitV)| e.0);
    let a = p.arrays.map_values(|e: (Seq<char>, nat)| e.0);
    let d = declared_names(p);
    assert(d == f + c + a);
    assert forall|i: int, j: int| 0 <= i < f.len() && 0 <= j < f.len() && i != j implies f[i]
        != f[j] by {
        assert(d[i] == f[i] && d[j] == f[j]);
    }
    assert forall|i: int, j: int| 0 <= i < c.len() && 0 <= j < c.len() && i != j implies c[i]
        != c[j] by {
        assert(d[f.len() + i] == c[i] && d[f.len() + j] == c[j]);
    }
    assert forall|i: int, j: int| 0 <= i < a.len() && 0 <= j < a.len() && i != j implies a[i]
        != a[j] by {
        assert(d[f.len() + c.len() + i] == a[i] && d[f.len() + c.len() + j] == a[j]);
    }
}

} // verus!
