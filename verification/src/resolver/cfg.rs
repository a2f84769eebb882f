//! Control flow graphs of resolved functions, and the lowering of
//! statements and expressions into them.
use crate::ast;
use crate::ast::{Loc, PrimitiveType, is_fixed_width, primitive_bits};
use crate::bignum::BigNum;
use crate::bignum::{nat_decimal, u64_to_decimal};
use crate::output::{Output, Level, ErrorType, is_diag, is_diag_note, extends, error_added, join2};
use super::{Contract, Type, TypeV, Symbol, ContractVariableType, type_wf, lookup, symbol_index, lemma_symbol_index, is_fixed_primitive, type_signed};
use vstd::prelude::*;

verus! {

/// An expression in the control flow graph; operands have been cast to the
/// same type.
#[derive(Debug)]
pub enum Expression {
    BoolLiteral(bool),
    BytesLiteral(Vec<u8>),
    NumberLiteral(u16, BigNum),
    Add(Box<Expression>, Box<Expression>),
    Subtract(Box<Expression>, Box<Expression>),
    Multiply(Box<Expression>, Box<Expression>),
    UDivide(Box<Expression>, Box<Expression>),
    SDivide(Box<Expression>, Box<Expression>),
    UModulo(Box<Expression>, Box<Expression>),
    SModulo(Box<Expression>, Box<Expression>),
    Power(Box<Expression>, Box<Expression>),
    BitwiseOr(Box<Expression>, Box<Expression>),
    BitwiseAnd(Box<Expression>, Box<Expression>),
    BitwiseXor(Box<Expression>, Box<Expression>),
    ShiftLeft(Box<Expression>, Box<Expression>),
    ShiftRight(Box<Expression>, Box<Expression>, bool),
    Variable(Loc, usize),
    ZeroExt(Type, Box<Expression>),
    SignExt(Type, Box<Expression>),
    Trunc(Type, Box<Expression>),
    UMore(Box<Expression>, Box<Expression>),
    ULess(Box<Expression>, Box<Expression>),
    UMoreEqual(Box<Expression>, Box<Expression>),
    ULessEqual(Box<Expression>, Box<Expression>),
    SMore(Box<Expression>, Box<Expression>),
    SLess(Box<Expression>, Box<Expression>),
    SMoreEqual(Box<Expression>, Box<Expression>),
    SLessEqual(Box<Expression>, Box<Expression>),
    Equal(Box<Expression>, Box<Expression>),
    NotEqual(Box<Expression>, Box<Expression>),
    Not(Box<Expression>),
    Complement(Box<Expression>),
    UnaryMinus(Box<Expression>),
    Ternary(Box<Expression>, Box<Expression>, Box<Expression>),
    IndexAccess(Box<Expression>, Box<Expression>),
    Or(Box<Expression>, Box<Expression>),
    And(Box<Expression>, Box<Expression>),
    Poison,
}

/// Variables used by the expression exist (are below `nvars`) and the types
/// it mentions exist in the contract.
pub open spec fn expression_wf(e: Expression, nvars: nat, c: Contract) -> bool
    decreases e,
{
    match e {
        Expression::Variable(_, pos) => pos < nvars,
        Expression::ZeroExt(t, x) => type_wf(t, c.enums@.len(), c.structs@.len()) && expression_wf(*x, nvars, c),
        Expression::SignExt(t, x) => type_wf(t, c.enums@.len(), c.structs@.len()) && expression_wf(*x, nvars, c),
        Expression::Trunc(t, x) => type_wf(t, c.enums@.len(), c.structs@.len()) && expression_wf(*x, nvars, c),
        Expression::Add(l, r) => expression_wf(*l, nvars, c) && expression_wf(*r, nvars, c),
        Expression::Subtract(l, r) => expression_wf(*l, nvars, c) && expression_wf(*r, nvars, c),
        Expression::Multiply(l, r) => expression_wf(*l, nvars, c) && expression_wf(*r, nvars, c),
        Expression::UDivide(l, r) => expression_wf(*l, nvars, c) && expression_wf(*r, nvars, c),
        Expression::SDivide(l, r) => expression_wf(*l, nvars, c) && expression_wf(*r, nvars, c),
        Expression::UModulo(l, r) => expression_wf(*l, nvars, c) && expression_wf(*r, nvars, c),
        Expression::SModulo(l, r) => expression_wf(*l, nvars, c) && expression_wf(*r, nvars, c),
        Expression::Power(l, r) => expression_wf(*l, nvars, c) && expression_wf(*r, nvars, c),
        Expression::BitwiseOr(l, r) => expression_wf(*l, nvars, c) && expression_wf(*r, nvars, c),
        Expression::BitwiseAnd(l, r) => expression_wf(*l, nvars, c) && expression_wf(*r, nvars, c),
        Expression::BitwiseXor(l, r) => expression_wf(*l, nvars, c) && expression_wf(*r, nvars, c),
        Expression::ShiftLeft(l, r) => expression_wf(*l, nvars, c) && expression_wf(*r, nvars, c),
        Expression::UMore(l, r) => expression_wf(*l, nvars, c) && expression_wf(*r, nvars, c),
        Expression::ULess(l, r) => expression_wf(*l, nvars, c) && expression_wf(*r, nvars, c),
        Expression::UMoreEqual(l, r) => expression_wf(*l, nvars, c) && expression_wf(*r, nvars, c),
        Expression::ULessEqual(l, r) => expression_wf(*l, nvars, c) && expression_wf(*r, nvars, c),
        Expression::SMore(l, r) => expression_wf(*l, nvars, c) && expression_wf(*r, nvars, c),
        Expression::SLess(l, r) => expression_wf(*l, nvars, c) && expression_wf(*r, nvars, c),
        Expression::SMoreEqual(l, r) => expression_wf(*l, nvars, c) && expression_wf(*r, nvars, c),
        Expression::SLessEqual(l, r) => expression_wf(*l, nvars, c) && expression_wf(*r, nvars, c),
        Expression::Equal(l, r) => expression_wf(*l, nvars, c) && expression_wf(*r, nvars, c),
        Expression::NotEqual(l, r) => expression_wf(*l, nvars, c) && expression_wf(*r, nvars, c),
        Expression::IndexAccess(l, r) => expression_wf(*l, nvars, c) && expression_wf(*r, nvars, c),
        Expression::Or(l, r) => expression_wf(*l, nvars, c) && expression_wf(*r, nvars, c),
        Expression::And(l, r) => expression_wf(*l, nvars, c) && expression_wf(*r, nvars, c),
        Expression::ShiftRight(l, r, _) => expression_wf(*l, nvars, c) && expression_wf(*r, nvars, c),
        Expression::Not(x) => expression_wf(*x, nvars, c),
        Expression::Complement(x) => expression_wf(*x, nvars, c),
        Expression::UnaryMinus(x) => expression_wf(*x, nvars, c),
        Expression::Ternary(x, y, z) => expression_wf(*x, nvars, c) && expression_wf(*y, nvars, c) && expression_wf(*z, nvars, c),
        _ => true,
    }
}

/// `expression_wf` only looks at how many enums and structs a contract has,
/// and holds with more of them.
pub proof fn lemma_expression_wf_decls(e: Expression, n: nat, c1: Contract, c2: Contract)
    requires
        expression_wf(e, n, c1),
        c1.enums@.len() <= c2.enums@.len(),
        c1.structs@.len() <= c2.structs@.len(),
    ensures
        expression_wf(e, n, c2),
    decreases e,
{
    match e {
        Expression::ZeroExt(t, x) => {
            super::lemma_type_wf_grow(t@, c1.enums@.len(), c1.structs@.len(), c2.enums@.len(), c2.structs@.len());
            lemma_expression_wf_decls(*x, n, c1, c2);
        },
        Expression::SignExt(t, x) => {
            super::lemma_type_wf_grow(t@, c1.enums@.len(), c1.structs@.len(), c2.enums@.len(), c2.structs@.len());
            lemma_expression_wf_decls(*x, n, c1, c2);
        },
        Expression::Trunc(t, x) => {
            super::lemma_type_wf_grow(t@, c1.enums@.len(), c1.structs@.len(), c2.enums@.len(), c2.structs@.len());
            lemma_expression_wf_decls(*x, n, c1, c2);
        },
        Expression::Not(x) => lemma_expression_wf_decls(*x, n, c1, c2),
        Expression::Complement(x) => lemma_expression_wf_decls(*x, n, c1, c2),
        Expression::UnaryMinus(x) => lemma_expression_wf_decls(*x, n, c1, c2),
        Expression::Add(l, r) => { lemma_expression_wf_decls(*l, n, c1, c2); lemma_expression_wf_decls(*r, n, c1, c2); },
        Expression::Subtract(l, r) => { lemma_expression_wf_decls(*l, n, c1, c2); lemma_expression_wf_decls(*r, n, c1, c2); },
        Expression::Multiply(l, r) => { lemma_expression_wf_decls(*l, n, c1, c2); lemma_expression_wf_decls(*r, n, c1, c2); },
        Expression::UDivide(l, r) => { lemma_expression_wf_decls(*l, n, c1, c2); lemma_expression_wf_decls(*r, n, c1, c2); },
        Expression::SDivide(l, r) => { lemma_expression_wf_decls(*l, n, c1, c2); lemma_expression_wf_decls(*r, n, c1, c2); },
        Expression::UModulo(l, r) => { lemma_expression_wf_decls(*l, n, c1, c2); lemma_expression_wf_decls(*r, n, c1, c2); },
        Expression::SModulo(l, r) => { lemma_expression_wf_decls(*l, n, c1, c2); lemma_expression_wf_decls(*r, n, c1, c2); },
        Expression::Power(l, r) => { lemma_expression_wf_decls(*l, n, c1, c2); lemma_expression_wf_decls(*r, n, c1, c2); },
        Expression::BitwiseOr(l, r) => { lemma_expression_wf_decls(*l, n, c1, c2); lemma_expression_wf_decls(*r, n, c1, c2); },
        Expression::BitwiseAnd(l, r) => { lemma_expression_wf_decls(*l, n, c1, c2); lemma_expression_wf_decls(*r, n, c1, c2); },
        Expression::BitwiseXor(l, r) => { lemma_expression_wf_decls(*l, n, c1, c2); lemma_expression_wf_decls(*r, n, c1, c2); },
        Expression::ShiftLeft(l, r) => { lemma_expression_wf_decls(*l, n, c1, c2); lemma_expression_wf_decls(*r, n, c1, c2); },
        Expression::UMore(l, r) => { lemma_expression_wf_decls(*l, n, c1, c2); lemma_expression_wf_decls(*r, n, c1, c2); },
        Expression::ULess(l, r) => { lemma_expression_wf_decls(*l, n, c1, c2); lemma_expression_wf_decls(*r, n, c1, c2); },
        Expression::UMoreEqual(l, r) => { lemma_expression_wf_decls(*l, n, c1, c2); lemma_expression_wf_decls(*r, n, c1, c2); },
        Expression::ULessEqual(l, r) => { lemma_expression_wf_decls(*l, n, c1, c2); lemma_expression_wf_decls(*r, n, c1, c2); },
        Expression::SMore(l, r) => { lemma_expression_wf_decls(*l, n, c1, c2); lemma_expression_wf_decls(*r, n, c1, c2); },
        Expression::SLess(l, r) => { lemma_expression_wf_decls(*l, n, c1, c2); lemma_expression_wf_decls(*r, n, c1, c2); },
        Expression::SMoreEqual(l, r) => { lemma_expression_wf_decls(*l, n, c1, c2); lemma_expression_wf_decls(*r, n, c1, c2); },
        Expression::SLessEqual(l, r) => { lemma_expression_wf_decls(*l, n, c1, c2); lemma_expression_wf_decls(*r, n, c1, c2); },
        Expression::Equal(l, r) => { lemma_expression_wf_decls(*l, n, c1, c2); lemma_expression_wf_decls(*r, n, c1, c2); },
        Expression::NotEqual(l, r) => { lemma_expression_wf_decls(*l, n, c1, c2); lemma_expression_wf_decls(*r, n, c1, c2); },
        Expression::IndexAccess(l, r) => { lemma_expression_wf_decls(*l, n, c1, c2); lemma_expression_wf_decls(*r, n, c1, c2); },
        Expression::Or(l, r) => { lemma_expression_wf_decls(*l, n, c1, c2); lemma_expression_wf_decls(*r, n, c1, c2); },
        Expression::And(l, r) => { lemma_expression_wf_decls(*l, n, c1, c2); lemma_expression_wf_decls(*r, n, c1, c2); },
        Expression::ShiftRight(l, r, _) => { lemma_expression_wf_decls(*l, n, c1, c2); lemma_expression_wf_decls(*r, n, c1, c2); },
        Expression::Ternary(x, y, z) => {
            lemma_expression_wf_decls(*x, n, c1, c2);
            lemma_expression_wf_decls(*y, n, c1, c2);
            lemma_expression_wf_decls(*z, n, c1, c2);
        },
        _ => {},
    }
}

/// `expression_wf` still holds when more variables exist.
pub proof fn lemma_expression_wf_grow(e: Expression, n: nat, m: nat, c: Contract)
    requires
        expression_wf(e, n, c),
        n <= m,
    ensures
        expression_wf(e, m, c),
    decreases e,
{
    match e {
        Expression::ZeroExt(_, x) => lemma_expression_wf_grow(*x, n, m, c),
        Expression::SignExt(_, x) => lemma_expression_wf_grow(*x, n, m, c),
        Expression::Trunc(_, x) => lemma_expression_wf_grow(*x, n, m, c),
        Expression::Not(x) => lemma_expression_wf_grow(*x, n, m, c),
        Expression::Complement(x) => lemma_expression_wf_grow(*x, n, m, c),
        Expression::UnaryMinus(x) => lemma_expression_wf_grow(*x, n, m, c),
        Expression::Add(l, r) => { lemma_expression_wf_grow(*l, n, m, c); lemma_expression_wf_grow(*r, n, m, c); },
        Expression::Subtract(l, r) => { lemma_expression_wf_grow(*l, n, m, c); lemma_expression_wf_grow(*r, n, m, c); },
        Expression::Multiply(l, r) => { lemma_expression_wf_grow(*l, n, m, c); lemma_expression_wf_grow(*r, n, m, c); },
        Expression::UDivide(l, r) => { lemma_expression_wf_grow(*l, n, m, c); lemma_expression_wf_grow(*r, n, m, c); },
        Expression::SDivide(l, r) => { lemma_expression_wf_grow(*l, n, m, c); lemma_expression_wf_grow(*r, n, m, c); },
        Expression::UModulo(l, r) => { lemma_expression_wf_grow(*l, n, m, c); lemma_expression_wf_grow(*r, n, m, c); },
        Expression::SModulo(l, r) => { lemma_expression_wf_grow(*l, n, m, c); lemma_expression_wf_grow(*r, n, m, c); },
        Expression::Power(l, r) => { lemma_expression_wf_grow(*l, n, m, c); lemma_expression_wf_grow(*r, n, m, c); },
        Expression::BitwiseOr(l, r) => { lemma_expression_wf_grow(*l, n, m, c); lemma_expression_wf_grow(*r, n, m, c); },
        Expression::BitwiseAnd(l, r) => { lemma_expression_wf_grow(*l, n, m, c); lemma_expression_wf_grow(*r, n, m, c); },
        Expression::BitwiseXor(l, r) => { lemma_expression_wf_grow(*l, n, m, c); lemma_expression_wf_grow(*r, n, m, c); },
        Expression::ShiftLeft(l, r) => { lemma_expression_wf_grow(*l, n, m, c); lemma_expression_wf_grow(*r, n, m, c); },
        Expression::UMore(l, r) => { lemma_expression_wf_grow(*l, n, m, c); lemma_expression_wf_grow(*r, n, m, c); },
        Expression::ULess(l, r) => { lemma_expression_wf_grow(*l, n, m, c); lemma_expression_wf_grow(*r, n, m, c); },
        Expression::UMoreEqual(l, r) => { lemma_expression_wf_grow(*l, n, m, c); lemma_expression_wf_grow(*r, n, m, c); },
        Expression::ULessEqual(l, r) => { lemma_expression_wf_grow(*l, n, m, c); lemma_expression_wf_grow(*r, n, m, c); },
        Expression::SMore(l, r) => { lemma_expression_wf_grow(*l, n, m, c); lemma_expression_wf_grow(*r, n, m, c); },
        Expression::SLess(l, r) => { lemma_expression_wf_grow(*l, n, m, c); lemma_expression_wf_grow(*r, n, m, c); },
        Expression::SMoreEqual(l, r) => { lemma_expression_wf_grow(*l, n, m, c); lemma_expression_wf_grow(*r, n, m, c); },
        Expression::SLessEqual(l, r) => { lemma_expression_wf_grow(*l, n, m, c); lemma_expression_wf_grow(*r, n, m, c); },
        Expression::Equal(l, r) => { lemma_expression_wf_grow(*l, n, m, c); lemma_expression_wf_grow(*r, n, m, c); },
        Expression::NotEqual(l, r) => { lemma_expression_wf_grow(*l, n, m, c); lemma_expression_wf_grow(*r, n, m, c); },
        Expression::IndexAccess(l, r) => { lemma_expression_wf_grow(*l, n, m, c); lemma_expression_wf_grow(*r, n, m, c); },
        Expression::Or(l, r) => { lemma_expression_wf_grow(*l, n, m, c); lemma_expression_wf_grow(*r, n, m, c); },
        Expression::And(l, r) => { lemma_expression_wf_grow(*l, n, m, c); lemma_expression_wf_grow(*r, n, m, c); },
        Expression::ShiftRight(l, r, _) => { lemma_expression_wf_grow(*l, n, m, c); lemma_expression_wf_grow(*r, n, m, c); },
        Expression::Ternary(x, y, z) => { lemma_expression_wf_grow(*x, n, m, c); lemma_expression_wf_grow(*y, n, m, c); lemma_expression_wf_grow(*z, n, m, c); },
        _ => {},
    }
}

/// All expressions of the list are well formed.
pub open spec fn expressions_wf(es: Seq<Expression>, nvars: nat, c: Contract) -> bool {
    forall|i: int| 0 <= i < es.len() ==> expression_wf(#[trigger] es[i], nvars, c)
}

/// An instruction of a control flow graph.
#[derive(Debug)]
pub enum Instr {
    FuncArg { res: usize, arg: usize },
    GetStorage { local: usize, storage: usize },
    SetStorage { local: usize, storage: usize },
    Assign { res: usize, expr: Expression },
    Constant { res: usize, constant: usize },
    Call { res: Vec<usize>, func: usize, args: Vec<Expression> },
    Return { value: Vec<Expression> },
    Branch { bb: usize },
    BranchCond { cond: Expression, true_: usize, false_: usize },
    AssertFailure {},
}

/// The instruction refers only to variables below `nvars`, blocks below `nbb`,
/// and constants and functions of the contract.
pub open spec fn instr_wf(i: Instr, nvars: nat, nbb: nat, c: Contract) -> bool {
    match i {
        Instr::FuncArg { res, .. } => res < nvars,
        Instr::GetStorage { local, .. } => local < nvars,
        Instr::SetStorage { local, .. } => local < nvars,
        Instr::Assign { res, expr } => res < nvars && expression_wf(expr, nvars, c),
        Instr::Constant { res, constant } => res < nvars && constant < c.constants@.len(),
        Instr::Call { res, func, args } => {
            &&& forall|k: int| 0 <= k < res@.len() ==> (#[trigger] res@[k]) < nvars
            &&& func < c.functions@.len()
            &&& expressions_wf(args@, nvars, c)
        },
        Instr::Return { value } => expressions_wf(value@, nvars, c),
        Instr::Branch { bb } => bb < nbb,
        Instr::BranchCond { cond, true_, false_ } => expression_wf(cond, nvars, c) && true_ < nbb && false_ < nbb,
        Instr::AssertFailure {} => true,
    }
}

/// `instr_wf` still holds with more variables and blocks.
pub proof fn lemma_instr_wf_grow(i: Instr, n: nat, m: nat, b: nat, d: nat, c: Contract)
    requires
        instr_wf(i, n, b, c),
        n <= m,
        b <= d,
    ensures
        instr_wf(i, m, d, c),
{
    match i {
        Instr::Assign { expr, .. } => lemma_expression_wf_grow(expr, n, m, c),
        Instr::Call { args, .. } => {
            assert forall|k: int| 0 <= k < args@.len() implies expression_wf(#[trigger] args@[k], m, c) by {
                lemma_expression_wf_grow(args@[k], n, m, c);
            }
        },
        Instr::Return { value } => {
            assert forall|k: int| 0 <= k < value@.len() implies expression_wf(#[trigger] value@[k], m, c) by {
                lemma_expression_wf_grow(value@[k], n, m, c);
            }
        },
        Instr::BranchCond { cond, .. } => lemma_expression_wf_grow(cond, n, m, c),
        _ => {},
    }
}

/// A basic block: a straight line of instructions, ending in a branch or return.
#[derive(Debug)]
pub struct BasicBlock {
    /// Variables that are assigned in a loop or branch arriving here.
    pub phis: Option<Vec<usize>>,
    pub name: String,
    pub instr: Vec<Instr>,
}

impl BasicBlock {
    fn add(&mut self, ins: Instr)
        ensures
            final(self).instr@ == old(self).instr@.push(ins),
            final(self).phis == old(self).phis,
            final(self).name == old(self).name,
    {
        self.instr.push(ins);
    }
}

/// A basic block refers only to existing variables and blocks.
pub open spec fn block_wf(b: BasicBlock, nvars: nat, nbb: nat, c: Contract) -> bool {
    &&& forall|k: int| 0 <= k < b.instr@.len() ==> instr_wf(#[trigger] b.instr@[k], nvars, nbb, c)
    &&& (b.phis matches Some(p) ==> forall|k: int| 0 <= k < p@.len() ==> (#[trigger] p@[k]) < nvars)
}

/// `block_wf` still holds with more variables and blocks.
pub proof fn lemma_block_wf_grow(bl: BasicBlock, n: nat, m: nat, b: nat, d: nat, c: Contract)
    requires
        block_wf(bl, n, b, c),
        n <= m,
        b <= d,
    ensures
        block_wf(bl, m, d, c),
{
    assert forall|k: int| 0 <= k < bl.instr@.len() implies instr_wf(#[trigger] bl.instr@[k], m, d, c) by {
        lemma_instr_wf_grow(bl.instr@[k], n, m, b, d, c);
    }
}

/// A control flow graph of a function.
#[derive(Debug)]
pub struct ControlFlowGraph {
    pub vars: Vec<Variable>,
    pub bb: Vec<BasicBlock>,
    pub current: usize,
    pub writes_contract_storage: bool,
    pub reads_contract_storage: bool,
}

/// The graph has an entry block, its current block exists, and its blocks
/// refer only to variables below `nvars`.
pub open spec fn cfg_wf(g: ControlFlowGraph, nvars: nat, c: Contract) -> bool {
    &&& g.bb@.len() > 0
    &&& g.current < g.bb@.len()
    &&& forall|k: int| 0 <= k < g.bb@.len() ==> block_wf(#[trigger] g.bb@[k], nvars, g.bb@.len(), c)
}

/// `cfg_wf` still holds with more variables.
pub proof fn lemma_cfg_wf_grow(g: ControlFlowGraph, n: nat, m: nat, c: Contract)
    requires
        cfg_wf(g, n, c),
        n <= m,
    ensures
        cfg_wf(g, m, c),
{
    assert forall|k: int| 0 <= k < g.bb@.len() implies block_wf(#[trigger] g.bb@[k], m, g.bb@.len(), c) by {
        lemma_block_wf_grow(g.bb@[k], n, m, g.bb@.len(), g.bb@.len(), c);
    }
}

/// Where a variable of the graph lives.
#[derive(PartialEq, Eq, Structural, Clone, Copy, Debug)]
pub enum Storage {
    Constant(usize),
    Contract(usize),
    Local,
}

/// A variable of the graph: a local, a temporary, or a copy of a contract
/// variable.
#[derive(Debug)]
pub struct Variable {
    pub id: ast::Identifier,
    pub ty: Type,
    pub pos: usize,
    pub storage: Storage,
}

impl Variable {
    /// A copy of the variable.
    pub fn duplicate(&self) -> (r: Variable)
        ensures
            r.id.loc == self.id.loc,
            r.id.name@ == self.id.name@,
            r.ty@ == self.ty@,
            r.pos == self.pos,
            r.storage == self.storage,
    {
        Variable { id: self.id.duplicate(), ty: self.ty.duplicate(), pos: self.pos, storage: self.storage }
    }
}

/// Does some entry of the scope bind `name` to `pos`?
pub open spec fn binds(scope: Seq<(String, usize)>, name: Seq<char>, pos: usize) -> bool {
    exists|k: int| 0 <= k < scope.len() && (#[trigger] scope[k]).0@ == name && scope[k].1 == pos
}

/// Does some entry of the scope have this name?
pub open spec fn has_name(scope: Seq<(String, usize)>, name: Seq<char>) -> bool {
    exists|k: int| 0 <= k < scope.len() && (#[trigger] scope[k]).0@ == name
}

/// Does some scope have this name?
pub open spec fn scopes_have(names: Seq<Vec<(String, usize)>>, name: Seq<char>) -> bool {
    exists|s: int| 0 <= s < names.len() && has_name((#[trigger] names[s])@, name)
}

/// Does some scope bind `name` to `pos`?
pub open spec fn scopes_bind(names: Seq<Vec<(String, usize)>>, name: Seq<char>, pos: usize) -> bool {
    exists|s: int| 0 <= s < names.len() && binds((#[trigger] names[s])@, name, pos)
}

/// Tracks which variables below `lim` are assigned while it is active.
#[derive(Debug)]
pub struct DirtyTracker {
    lim: usize,
    set: Vec<usize>,
}

/// The variables of a function under construction, with the scopes of local
/// names.
#[derive(Debug)]
pub struct Vartable {
    vars: Vec<Variable>,
    names: Vec<Vec<(String, usize)>>,
    storage_vars: Vec<(String, usize)>,
    dirty: Vec<DirtyTracker>,
    returns: Vec<usize>,
}

/// A set of positions, all below `n`, without duplicates.
pub open spec fn pos_set_wf(s: Seq<usize>, n: nat) -> bool {
    &&& forall|k: int| 0 <= k < s.len() ==> (#[trigger] s[k]) < n
    &&& forall|i: int, j: int| 0 <= i < j < s.len() ==> s[i] != s[j]
}

impl Vartable {
    /// Number of variables so far.
    pub closed spec fn len(&self) -> nat {
        self.vars@.len()
    }

    /// Number of open scopes.
    pub closed spec fn scope_count(&self) -> nat {
        self.names@.len()
    }

    /// Number of active dirty trackers.
    pub closed spec fn tracker_count(&self) -> nat {
        self.dirty@.len()
    }

    /// The variable at a position.
    pub closed spec fn var(&self, pos: int) -> Variable {
        self.vars@[pos]
    }

    /// Is the name bound in some open scope?
    pub closed spec fn declared(&self, name: Seq<char>) -> bool {
        scopes_have(self.names@, name)
    }

    /// Is the name bound to this position in some open scope?
    pub closed spec fn local_binding(&self, name: Seq<char>, pos: usize) -> bool {
        scopes_bind(self.names@, name, pos)
    }

    /// Positions of the named return values.
    pub closed spec fn return_positions(&self) -> Seq<usize> {
        self.returns@
    }

    /// The open scopes, the innermost last.
    pub closed spec fn scopes(&self) -> Seq<Vec<(String, usize)>> {
        self.names@
    }

    /// Well formed, and the variables have types of the contract.
    pub open spec fn wf(&self, c: Contract) -> bool {
        self.wf_core() && self.types_wf(c)
    }

    /// The variables have types of the contract and refer to its constants.
    pub closed spec fn types_wf(&self, c: Contract) -> bool {
        forall|i: int| 0 <= i < self.vars@.len() ==> {
            &&& type_wf((#[trigger] self.vars@[i]).ty, c.enums@.len(), c.structs@.len())
            &&& (self.vars@[i].storage matches Storage::Constant(k) ==> k < c.constants@.len())
        }
    }

    /// Every variable knows its position; every name and tracker refers to an
    /// existing variable; there is an open scope.
    pub closed spec fn wf_core(&self) -> bool {
        &&& forall|i: int| 0 <= i < self.vars@.len() ==> (#[trigger] self.vars@[i]).pos == i
        &&& self.names@.len() >= 1
        &&& forall|s: int, k: int| 0 <= s < self.names@.len() && 0 <= k < self.names@[s]@.len() ==> {
            &&& (#[trigger] self.names@[s]@[k]).1 < self.vars@.len()
            &&& self.vars@[self.names@[s]@[k].1 as int].id.name@ == self.names@[s]@[k].0@
        }
        &&& forall|k: int| 0 <= k < self.storage_vars@.len() ==> {
            &&& (#[trigger] self.storage_vars@[k]).1 < self.vars@.len()
            &&& self.vars@[self.storage_vars@[k].1 as int].id.name@ == self.storage_vars@[k].0@
        }
        &&& forall|t: int| 0 <= t < self.dirty@.len() ==> pos_set_wf((#[trigger] self.dirty@[t]).set@, self.vars@.len() as nat)
        &&& forall|k: int| 0 <= k < self.returns@.len() ==> (#[trigger] self.returns@[k]) < self.vars@.len()
    }

    /// An empty table with one scope.
    pub fn new() -> (r: Vartable)
        ensures
            r.wf_core(),
            forall|c: Contract| r.types_wf(c),
            r.len() == 0,
            r.scope_count() == 1,
            r.tracker_count() == 0,
            forall|name: Seq<char>| !r.declared(name),
            r.return_positions().len() == 0,
    {
        let mut names: Vec<Vec<(String, usize)>> = Vec::new();
        names.push(Vec::new());
        Vartable { vars: Vec::new(), names, storage_vars: Vec::new(), dirty: Vec::new(), returns: Vec::new() }
    }

    /// The position of a local variable, looking in all open scopes from the
    /// innermost out.
    fn find_local(&self, name: &String) -> (r: Option<usize>)
        requires
            self.names@.len() >= 1,
        ensures
            r matches Some(p) ==> scopes_bind(self.names@, name@, p),
            r is None ==> !scopes_have(self.names@, name@),
    {
        let mut s: usize = self.names.len();
        while s > 0
            invariant
                0 <= s <= self.names@.len(),
                forall|t: int| s <= t < self.names@.len() ==> !has_name((#[trigger] self.names@[t])@, name@),
            decreases s,
        {
            s -= 1;
            let scope = &self.names[s];
            let mut k: usize = 0;
            while k < scope.len()
                invariant
                    0 <= s < self.names@.len(),
                    scope == self.names@[s as int],
                    0 <= k <= scope@.len(),
                    forall|j: int| 0 <= j < k ==> (#[trigger] scope@[j]).0@ != name@,
                decreases scope@.len() - k,
            {
                if scope[k].0 == *name {
                    assert(binds(self.names@[s as int]@, name@, scope@[k as int].1));
                    return Some(scope[k].1);
                }
                k += 1;
            }
        }
        None
    }

    /// Declare a local variable in the innermost scope. A name that is already
    /// declared in an open scope is an error pointing at the earlier declaration.
    pub fn add(&mut self, id: &ast::Identifier, ty: Type, errors: &mut Vec<Output>) -> (r: Option<usize>)
        requires
            old(self).wf_core(),
        ensures
            final(self).wf_core(),
            forall|c: Contract| old(self).types_wf(c) && type_wf(ty, c.enums@.len(), c.structs@.len())
                ==> final(self).types_wf(c),
            r is None <==> old(self).declared(id.name@),
            r matches Some(p) ==> {
                &&& p == old(self).len()
                &&& final(self).len() == old(self).len() + 1
                &&& final(self).var(p as int).id.name@ == id.name@
                &&& final(self).var(p as int).ty@ == ty@
                &&& final(self).var(p as int).storage == Storage::Local
                &&& final(self).local_binding(id.name@, p)
                &&& final(errors)@ == old(errors)@
            },
            r is None ==> {
                &&& final(self).len() == old(self).len()
                &&& final(errors)@.len() == old(errors)@.len() + 1
                &&& final(errors)@.drop_last() == old(errors)@
                &&& final(errors)@.last().level == Level::Error
                &&& final(errors)@.last().pos == id.loc
                &&& final(errors)@.last().message@ == id.name@ + " is already declared"@
            },
            forall|i: int| 0 <= i < old(self).len() ==> final(self).var(i) == old(self).var(i),
            forall|n: Seq<char>, p: usize| old(self).local_binding(n, p) ==> final(self).local_binding(n, p),
            final(self).scope_count() == old(self).scope_count(),
            final(self).tracker_count() == old(self).tracker_count(),
            final(self).return_positions() == old(self).return_positions(),
            final(self).scopes().drop_last() == old(self).scopes().drop_last(),
            old(self).len() <= final(self).len(),
    {
        if let Some(prev) = self.find_local(&id.name) {
            let prev_loc = self.vars[prev].id.loc;
            errors.push(Output::error_with_note(
                id.loc,
                join2(id.name.as_str(), " is already declared"),
                prev_loc,
                String::from_str("location of previous declaration"),
            ));
            return None;
        }
        let pos = self.vars.len();
        self.vars.push(Variable { id: id.duplicate(), ty, pos, storage: Storage::Local });
        let ghost old_names = self.names@;
        let mut scope = self.names.pop().unwrap();
        scope.push((id.name.clone(), pos));
        self.names.push(scope);
        proof {
            let n = self.names@;
            assert(n.drop_last() =~= old_names.drop_last());
            assert forall|nm: Seq<char>, p: usize| scopes_bind(old_names, nm, p) implies scopes_bind(n, nm, p) by {
                let s = choose|s: int| 0 <= s < old_names.len() && binds((#[trigger] old_names[s])@, nm, p);
                if s == old_names.len() - 1 {
                    let k = choose|k: int| 0 <= k < old_names[s]@.len() && (#[trigger] old_names[s]@[k]).0@ == nm && old_names[s]@[k].1 == p;
                    assert(n[s]@[k] == old_names[s]@[k]);
                    assert(binds(n[s]@, nm, p));
                } else {
                    assert(n[s] == old_names[s]);
                }
            }
            let last = n.len() - 1;
            assert(n[last]@.last().0@ == id.name@ && n[last]@.last().1 == pos);
            assert(binds(n[last]@, id.name@, pos));
        }
        Some(pos)
    }
}

impl Vartable {
    /// The two tables have the same variables, scopes and return positions and
    /// the same number of trackers; only the tracked sets may differ.
    pub closed spec fn same_vars(&self, other: &Vartable) -> bool {
        &&& self.vars@ == other.vars@
        &&& self.names@ == other.names@
        &&& self.storage_vars@ == other.storage_vars@
        &&& self.returns@ == other.returns@
        &&& self.dirty@.len() == other.dirty@.len()
    }

    /// `other` has the variables of `self` and maybe more; scopes, names and
    /// return positions of `self` are kept.
    pub closed spec fn grows_to(&self, other: &Vartable) -> bool {
        &&& self.vars@.len() <= other.vars@.len()
        &&& forall|i: int| 0 <= i < self.vars@.len() ==> other.vars@[i] == self.vars@[i]
        &&& self.names@.len() == other.names@.len()
        &&& forall|n: Seq<char>, p: usize| scopes_bind(self.names@, n, p) ==> scopes_bind(other.names@, n, p)
        &&& self.returns@ == other.returns@
        &&& self.dirty@.len() == other.dirty@.len()
    }

    /// `grows_to` is transitive.
    pub proof fn lemma_grows_trans(a: &Vartable, b: &Vartable, d: &Vartable)
        requires
            a.grows_to(b),
            b.grows_to(d),
        ensures
            a.grows_to(d),
    {
    }

    /// Every table grows to itself.
    pub proof fn lemma_grows_refl(a: &Vartable)
        ensures
            a.grows_to(a),
    {
    }

    /// The variables that the tracker at index `t` saw assigned.
    pub closed spec fn assigned_in(&self, t: int) -> Set<usize> {
        Set::new(|x: usize| self.dirty@[t].set@.contains(x))
    }

    /// The variables below this limit are the ones the tracker at index `t`
    /// watches.
    pub closed spec fn tracker_limit(&self, t: int) -> usize {
        self.dirty@[t].lim
    }

    /// Mark a variable as assigned in every active tracker whose limit is above it.
    pub fn set_dirty(&mut self, pos: usize)
        requires
            old(self).wf_core(),
            pos < old(self).len(),
        ensures
            final(self).wf_core(),
            final(self).same_vars(old(self)),
            final(self).tracker_count() == old(self).tracker_count(),
            forall|t: int| 0 <= t < old(self).tracker_count() ==> #[trigger] final(self).tracker_limit(t) == old(self).tracker_limit(t),
            forall|t: int| 0 <= t < old(self).tracker_count() ==> #[trigger] final(self).assigned_in(t)
                == if pos < old(self).tracker_limit(t) { old(self).assigned_in(t).insert(pos) } else { old(self).assigned_in(t) },
            dirty_step(*old(self), *final(self), pos),
    {
        let mut t: usize = 0;
        while t < self.dirty.len()
            invariant
                self.wf_core(),
                self.same_vars(old(self)),
                pos < self.vars@.len(),
                0 <= t <= self.dirty@.len(),
                self.dirty@.len() == old(self).dirty@.len(),
                forall|u: int| 0 <= u < self.dirty@.len() ==> #[trigger] self.dirty@[u].lim == old(self).dirty@[u].lim,
                forall|u: int| 0 <= u < t ==> #[trigger] self.assigned_in(u)
                    == if pos < old(self).tracker_limit(u) { old(self).assigned_in(u).insert(pos) } else { old(self).assigned_in(u) },
                forall|u: int| t <= u < self.dirty@.len() ==> #[trigger] self.dirty@[u] == old(self).dirty@[u],
            decreases self.dirty@.len() - t,
        {
            let ghost d0 = self.dirty@;
            let ghost vt0 = *self;
            if pos < self.dirty[t].lim {
                let lim = self.dirty[t].lim;
                let mut set = self.dirty[t].set.clone();
                assert(set@ =~= self.dirty@[t as int].set@);
                let mut tracker = DirtyTracker { lim, set };
                let mut k: usize = 0;
                let mut present = false;
                while k < tracker.set.len()
                    invariant
                        0 <= k <= tracker.set@.len(),
                        present ==> tracker.set@.contains(pos),
                        !present ==> forall|j: int| 0 <= j < k ==> tracker.set@[j] != pos,
                    decreases tracker.set@.len() - k,
                {
                    if tracker.set[k] == pos {
                        present = true;
                    }
                    k += 1;
                }
                let ghost s0 = tracker.set@;
                if !present {
                    tracker.set.push(pos);
                }
                proof {
                    assert forall|x: usize| tracker.set@.contains(x) <==> (s0.contains(x) || x == pos) by {
                        if !present && x != pos && tracker.set@.contains(x) {
                            let j = choose|j: int| 0 <= j < tracker.set@.len() && tracker.set@[j] == x;
                            assert(j < s0.len());
                            assert(s0[j] == x);
                        }
                        if !present && s0.contains(x) {
                            let j = choose|j: int| 0 <= j < s0.len() && s0[j] == x;
                            assert(tracker.set@[j] == x);
                        }
                        if !present && x == pos {
                            assert(tracker.set@[s0.len() as int] == x);
                        }
                    }
                }
                let ghost ts = tracker.set@;
                self.dirty.set(t, tracker);
                proof {
                    assert(s0 == old(self).dirty@[t as int].set@);
                    assert(self.dirty@[t as int].set@ == ts);
                    assert forall|x: usize| #[trigger] self.assigned_in(t as int).contains(x)
                        <==> old(self).assigned_in(t as int).insert(pos).contains(x) by {
                        assert(self.assigned_in(t as int).contains(x) == ts.contains(x));
                        assert(old(self).assigned_in(t as int).contains(x) == s0.contains(x));
                    }
                    assert(self.assigned_in(t as int) =~= old(self).assigned_in(t as int).insert(pos));
                    assert forall|u: int| 0 <= u < t implies #[trigger] self.assigned_in(u)
                        == if pos < old(self).tracker_limit(u) { old(self).assigned_in(u).insert(pos) } else { old(self).assigned_in(u) } by {
                        assert(self.dirty@[u] == d0[u]);
                        assert(self.assigned_in(u) =~= vt0.assigned_in(u));
                    }
                }
            } else {
                proof {
                    assert(self.assigned_in(t as int) =~= old(self).assigned_in(t as int));
                }
            }
            t += 1;
        }
    }
}

impl Vartable {
    /// Only the trackers differ.
    pub closed spec fn same_except_trackers(&self, other: &Vartable) -> bool {
        &&& self.vars@ == other.vars@
        &&& self.names@ == other.names@
        &&& self.storage_vars@ == other.storage_vars@
        &&& self.returns@ == other.returns@
    }

    /// Only the scopes differ.
    pub closed spec fn same_except_scopes(&self, other: &Vartable) -> bool {
        &&& self.vars@ == other.vars@
        &&& self.storage_vars@ == other.storage_vars@
        &&& self.returns@ == other.returns@
        &&& self.dirty@ == other.dirty@
    }

    /// The scopes are the same.
    pub closed spec fn same_scopes(&self, other: &Vartable) -> bool {
        self.names@ == other.names@
    }

    /// `self` has the scopes of `outer` and one more inside.
    pub closed spec fn inner_scope_of(&self, outer: &Vartable) -> bool {
        self.names@.len() >= 1 && self.names@.drop_last() == outer.names@
    }

    /// Start tracking assignments to the variables that exist now.
    pub fn new_dirty_tracker(&mut self)
        requires
            old(self).wf_core(),
        ensures
            final(self).wf_core(),
            final(self).same_except_trackers(old(self)),
            final(self).tracker_count() == old(self).tracker_count() + 1,
            final(self).assigned_in(old(self).tracker_count() as int) == Set::<usize>::empty(),
            final(self).tracker_limit(old(self).tracker_count() as int) == old(self).len(),
            forall|t: int| 0 <= t < old(self).tracker_count() ==> #[trigger] final(self).assigned_in(t) == old(self).assigned_in(t)
                && final(self).tracker_limit(t) == old(self).tracker_limit(t),
            tracker_opened(*old(self), *final(self)),
            final(self).scopes() == old(self).scopes(),
            final(self).scope_count() == old(self).scope_count(),
            final(self).len() == old(self).len(),
            forall|i: int| 0 <= i < old(self).len() ==> final(self).var(i) == old(self).var(i),
            final(self).return_positions() == old(self).return_positions(),
            forall|c: Contract| old(self).types_wf(c) ==> #[trigger] final(self).types_wf(c),
    {
        let lim = self.vars.len();
        self.dirty.push(DirtyTracker { lim, set: Vec::new() });
        proof {
            assert(self.assigned_in(old(self).dirty@.len() as int) =~= Set::<usize>::empty());
            assert forall|u: int| 0 <= u < old(self).dirty@.len() implies #[trigger] self.assigned_in(u) == old(self).assigned_in(u) by {
                assert(self.dirty@[u] == old(self).dirty@[u]);
                assert(self.assigned_in(u) =~= old(self).assigned_in(u));
            }
        }
    }

    /// Stop the innermost tracker; the variables it saw assigned.
    pub fn pop_dirty_tracker(&mut self) -> (r: Vec<usize>)
        requires
            old(self).wf_core(),
            old(self).tracker_count() >= 1,
        ensures
            final(self).wf_core(),
            pos_set_wf(r@, old(self).len()),
            forall|x: usize| r@.contains(x) <==> #[trigger] old(self).assigned_in(old(self).tracker_count() - 1).contains(x),
            forall|t: int| 0 <= t < final(self).tracker_count() ==> #[trigger] final(self).assigned_in(t) == old(self).assigned_in(t)
                && final(self).tracker_limit(t) == old(self).tracker_limit(t),
            final(self).same_except_trackers(old(self)),
            final(self).tracker_count() == old(self).tracker_count() - 1,
            tracker_popped(*old(self), *final(self), r@),
            final(self).scopes() == old(self).scopes(),
            final(self).scope_count() == old(self).scope_count(),
            final(self).len() == old(self).len(),
            forall|i: int| 0 <= i < old(self).len() ==> final(self).var(i) == old(self).var(i),
            final(self).return_positions() == old(self).return_positions(),
            forall|c: Contract| old(self).types_wf(c) ==> #[trigger] final(self).types_wf(c),
    {
        let t = self.dirty.pop().unwrap();
        proof {
            assert forall|u: int| 0 <= u < self.dirty@.len() implies #[trigger] self.assigned_in(u) == old(self).assigned_in(u) by {
                assert(self.dirty@[u] == old(self).dirty@[u]);
                assert(self.assigned_in(u) =~= old(self).assigned_in(u));
            }
        }
        t.set
    }

    /// Open a new innermost scope.
    pub fn new_scope(&mut self)
        requires
            old(self).wf_core(),
        ensures
            final(self).wf_core(),
            final(self).same_except_scopes(old(self)),
            final(self).scope_count() == old(self).scope_count() + 1,
            final(self).inner_scope_of(old(self)),
            final(self).scopes().drop_last() == old(self).scopes(),
            final(self).len() == old(self).len(),
            forall|i: int| 0 <= i < old(self).len() ==> final(self).var(i) == old(self).var(i),
            final(self).return_positions() == old(self).return_positions(),
            final(self).tracker_count() == old(self).tracker_count(),
            forall|c: Contract| old(self).types_wf(c) ==> #[trigger] final(self).types_wf(c),
    {
        self.names.push(Vec::new());
        assert(self.names@.drop_last() =~= old(self).names@);
    }

    /// Close the innermost scope; its names are no longer visible.
    pub fn leave_scope(&mut self)
        requires
            old(self).wf_core(),
            old(self).scope_count() >= 2,
        ensures
            final(self).wf_core(),
            final(self).same_except_scopes(old(self)),
            final(self).scope_count() == old(self).scope_count() - 1,
            old(self).inner_scope_of(final(self)),
            final(self).scopes() == old(self).scopes().drop_last(),
            final(self).len() == old(self).len(),
            forall|i: int| 0 <= i < old(self).len() ==> final(self).var(i) == old(self).var(i),
            final(self).return_positions() == old(self).return_positions(),
            final(self).tracker_count() == old(self).tracker_count(),
            forall|c: Contract| old(self).types_wf(c) ==> #[trigger] final(self).types_wf(c),
    {
        self.names.pop();
        assert(self.names@ =~= old(self).names@.drop_last());
    }

    /// All the variables, in order of position.
    pub fn drain(self) -> (r: Vec<Variable>)
        ensures
            r@.len() == self.len(),
            forall|i: int| 0 <= i < r@.len() ==> r@[i] == self.var(i),
            self.wf_core() ==> forall|i: int| 0 <= i < r@.len() ==> (#[trigger] r@[i]).pos == i,
    {
        self.vars
    }

    /// Add a temporary variable, named after `id` with `.temp.` and its position.
    pub fn temp(&mut self, id: &ast::Identifier, ty: &Type) -> (r: usize)
        requires
            old(self).wf_core(),
        ensures
            final(self).wf_core(),
            r == old(self).len(),
            final(self).len() == old(self).len() + 1,
            final(self).var(r as int).id.name@ == id.name@ + ".temp."@ + nat_decimal(r as nat),
            final(self).var(r as int).id.loc == id.loc,
            final(self).var(r as int).ty@ == ty@,
            final(self).var(r as int).storage == Storage::Local,
            old(self).grows_to(final(self)),
            forall|c: Contract| old(self).types_wf(c) && type_wf(*ty, c.enums@.len(), c.structs@.len())
                ==> final(self).types_wf(c),
            final(self).same_scopes(old(self)),
    {
        let pos = self.vars.len();
        let name = id.name.clone().concat(".temp.").concat(u64_to_decimal(pos as u64).as_str());
        self.vars.push(Variable { id: ast::Identifier { loc: id.loc, name }, ty: ty.duplicate(), pos, storage: Storage::Local });
        pos
    }

    /// Is the name one of the contract variables already used here?
    pub closed spec fn storage_bound(&self, name: Seq<char>) -> bool {
        has_name(self.storage_vars@, name)
    }

    /// Find a variable by name: a local, then a contract variable already
    /// used in this function, then a contract variable that gets a new
    /// position here. Other names are errors.
    pub fn find(&mut self, id: &ast::Identifier, contract: &Contract, errors: &mut Vec<Output>) -> (r: Result<Variable, ()>)
        requires
            old(self).wf_core(),
            contract.wf(),
        ensures
            final(self).wf_core(),
            old(self).grows_to(final(self)),
            old(self).types_wf(*contract) ==> final(self).types_wf(*contract),
            final(self).same_scopes(old(self)),
            r matches Ok(v) ==> {
                &&& v.pos < final(self).len()
                &&& v.id.name@ == final(self).var(v.pos as int).id.name@
                &&& v.id.name@ == id.name@
                &&& v.ty@ == final(self).var(v.pos as int).ty@
                &&& v.storage == final(self).var(v.pos as int).storage
                &&& final(errors)@ == old(errors)@
            },
            old(self).declared(id.name@) ==> (r matches Ok(v) && old(self).local_binding(id.name@, v.pos)
                && final(self).len() == old(self).len()),
            !old(self).declared(id.name@) && old(self).storage_bound(id.name@) ==> (r is Ok
                && final(self).len() == old(self).len()),
            !old(self).declared(id.name@) && !old(self).storage_bound(id.name@) ==> match lookup(contract.symbols@, id.name@) {
                Some(Symbol::Variable(_, n)) => (r matches Ok(v) && v.ty@ == contract.variables@[n as int].ty@
                    && v.pos == old(self).len() && final(self).len() == old(self).len() + 1
                    && v.storage == match contract.variables@[n as int].var {
                        ContractVariableType::Storage(k) => Storage::Contract(k),
                        ContractVariableType::Constant(k) => Storage::Constant(k),
                    }),
                _ => r is Err && final(errors)@.len() == old(errors)@.len() + 1
                    && final(errors)@.drop_last() == old(errors)@ && final(errors)@.last().level == Level::Error
                    && final(self).len() == old(self).len(),
            },
    {
        if let Some(p) = self.find_local(&id.name) {
            proof {
                let s = choose|s: int| 0 <= s < self.names@.len() && binds((#[trigger] self.names@[s])@, id.name@, p);
                let k = choose|k: int| 0 <= k < self.names@[s]@.len() && (#[trigger] self.names@[s]@[k]).0@ == id.name@ && self.names@[s]@[k].1 == p;
                assert(self.names@[s]@[k].1 < self.vars@.len());
                assert(self.vars@[p as int].pos == p);
            }
            let v = self.vars[p].duplicate();
            assert(old(self).local_binding(id.name@, v.pos));
            return Ok(v);
        }
        let mut k: usize = 0;
        while k < self.storage_vars.len()
            invariant
                self.wf_core(),
                self == old(self),
                !old(self).declared(id.name@),
                0 <= k <= self.storage_vars@.len(),
                forall|j: int| 0 <= j < k ==> (#[trigger] self.storage_vars@[j]).0@ != id.name@,
            decreases self.storage_vars@.len() - k,
        {
            if self.storage_vars[k].0 == id.name {
                let p = self.storage_vars[k].1;
                return Ok(self.vars[p].duplicate());
            }
            k += 1;
        }
        let v = contract.resolve_var(id, errors)?;
        proof {
            lemma_symbol_index(contract.symbols@, id.name@);
            let i = symbol_index(contract.symbols@, id.name@).unwrap();
            assert(super::symbol_wf(contract.symbols@[i].1, *contract));
        }
        let var = &contract.variables[v];
        let pos = self.vars.len();
        self.vars.push(Variable {
            id: id.duplicate(),
            ty: var.ty.duplicate(),
            pos,
            storage: match var.var {
                ContractVariableType::Storage(n) => Storage::Contract(n),
                ContractVariableType::Constant(n) => Storage::Constant(n),
            },
        });
        self.storage_vars.push((id.name.clone(), pos));
        Ok(self.vars[pos].duplicate())
    }
}

/// One `set_dirty` of position `pos`: every tracker keeps its limit and gains
/// the position where it is below the limit.
pub open spec fn dirty_step(v0: Vartable, v1: Vartable, pos: usize) -> bool {
    &&& v1.tracker_count() == v0.tracker_count()
    &&& forall|t: int| 0 <= t < v0.tracker_count() ==> #[trigger] v1.tracker_limit(t) == v0.tracker_limit(t)
    &&& forall|t: int| 0 <= t < v0.tracker_count() ==> #[trigger] v1.assigned_in(t)
        == if pos < v0.tracker_limit(t) { v0.assigned_in(t).insert(pos) } else { v0.assigned_in(t) }
}

/// The positions of a list that are below a limit.
pub open spec fn marked_below(ps: Seq<usize>, lim: usize) -> Set<usize> {
    Set::new(|x: usize| x < lim && exists|i: int| 0 <= i < ps.len() && ps[i] == x)
}

/// One `new_dirty_tracker`: a new innermost tracker, empty, whose limit is
/// the length of the table; the others are kept.
pub open spec fn tracker_opened(v0: Vartable, v1: Vartable) -> bool {
    &&& v1.tracker_count() == v0.tracker_count() + 1
    &&& v1.assigned_in(v0.tracker_count() as int) == Set::<usize>::empty()
    &&& v1.tracker_limit(v0.tracker_count() as int) == v0.len()
    &&& forall|t: int| 0 <= t < v0.tracker_count() ==> #[trigger] v1.assigned_in(t) == v0.assigned_in(t)
        && v1.tracker_limit(t) == v0.tracker_limit(t)
}

/// One `pop_dirty_tracker` returning `r`: the positions of the innermost
/// tracker, which is removed; the others are kept.
pub open spec fn tracker_popped(v0: Vartable, v1: Vartable, r: Seq<usize>) -> bool {
    &&& v0.tracker_count() >= 1
    &&& v1.tracker_count() == v0.tracker_count() - 1
    &&& forall|x: usize| r.contains(x) <==> #[trigger] v0.assigned_in(v0.tracker_count() - 1).contains(x)
    &&& forall|t: int| 0 <= t < v1.tracker_count() ==> #[trigger] v1.assigned_in(t) == v0.assigned_in(t)
        && v1.tracker_limit(t) == v0.tracker_limit(t)
}

/// Opening a tracker on table `v`, marking positions `ps` one after another
/// and popping the tracker gives back exactly the marked positions below the
/// length `v` had, and leaves the trackers of `v` with what they held
/// together with the marked positions below their own limits.
pub proof fn lemma_tracker_round_trip(v: Vartable, vs: Seq<Vartable>, ps: Seq<usize>, w: Vartable, r: Seq<usize>)
    requires
        vs.len() == ps.len() + 1,
        tracker_opened(v, vs[0]),
        forall|i: int| 0 <= i < ps.len() ==> dirty_step(#[trigger] vs[i], vs[i + 1], ps[i]),
        tracker_popped(vs.last(), w, r),
    ensures
        forall|x: usize| r.contains(x) <==> #[trigger] marked_below(ps, vs[0].tracker_limit(v.tracker_count() as int)).contains(x),
        vs[0].tracker_limit(v.tracker_count() as int) == v.len(),
        w.tracker_count() == v.tracker_count(),
        forall|t: int| 0 <= t < v.tracker_count() ==> #[trigger] w.tracker_limit(t) == v.tracker_limit(t)
            && w.assigned_in(t) == v.assigned_in(t).union(marked_below(ps, v.tracker_limit(t))),
{
    lemma_trackers_collect(vs, ps);
    let top = v.tracker_count() as int;
    assert(vs[0].tracker_count() - 1 == top);
    assert forall|t: int| 0 <= t < v.tracker_count() implies #[trigger] w.tracker_limit(t) == v.tracker_limit(t)
        && w.assigned_in(t) == v.assigned_in(t).union(marked_below(ps, v.tracker_limit(t))) by {
        assert(vs[0].assigned_in(t) == v.assigned_in(t) && vs[0].tracker_limit(t) == v.tracker_limit(t));
        assert(vs.last().tracker_limit(t) == vs[0].tracker_limit(t)
            && vs.last().assigned_in(t) == vs[0].assigned_in(t).union(marked_below(ps, vs[0].tracker_limit(t))));
        assert(w.assigned_in(t) == vs.last().assigned_in(t) && w.tracker_limit(t) == vs.last().tracker_limit(t));
    }
}

/// Marking positions one after another with `set_dirty` leaves every tracker
/// with its limit and with what it held before together with exactly the
/// marked positions below its limit; so a tracker that `new_dirty_tracker`
/// opened empty holds, when `pop_dirty_tracker` returns it, just the
/// positions below its limit that were assigned since.
#[verifier::spinoff_prover]
#[verifier::rlimit(30)]
pub proof fn lemma_trackers_collect(vs: Seq<Vartable>, ps: Seq<usize>)
    requires
        vs.len() == ps.len() + 1,
        forall|i: int| 0 <= i < ps.len() ==> dirty_step(#[trigger] vs[i], vs[i + 1], ps[i]),
    ensures
        vs.last().tracker_count() == vs[0].tracker_count(),
        forall|t: int| 0 <= t < vs[0].tracker_count() ==> #[trigger] vs.last().tracker_limit(t) == vs[0].tracker_limit(t)
            && vs.last().assigned_in(t) == vs[0].assigned_in(t).union(marked_below(ps, vs[0].tracker_limit(t))),
        vs[0].tracker_count() > 0 && vs[0].assigned_in(vs[0].tracker_count() - 1) == Set::<usize>::empty()
            ==> vs.last().assigned_in(vs[0].tracker_count() - 1) == marked_below(ps, vs[0].tracker_limit(vs[0].tracker_count() - 1)),
    decreases ps.len(),
{
    if ps.len() == 0 {
        assert forall|t: int| 0 <= t < vs[0].tracker_count() implies vs.last().assigned_in(t)
            == vs[0].assigned_in(t).union(marked_below(ps, vs[0].tracker_limit(t))) by {
            assert(vs[0].assigned_in(t).union(marked_below(ps, vs[0].tracker_limit(t))) =~= vs[0].assigned_in(t));
        }
    } else {
        let n = ps.len() - 1;
        let vp = vs.drop_last();
        let pp = ps.drop_last();
        assert forall|i: int| 0 <= i < pp.len() implies dirty_step(#[trigger] vp[i], vp[i + 1], pp[i]) by {
            assert(dirty_step(vs[i], vs[i + 1], ps[i]));
        }
        lemma_trackers_collect(vp, pp);
        assert(dirty_step(vs[n], vs[n + 1], ps[n]));
        assert(vp.last() == vs[n]);
        assert forall|t: int| 0 <= t < vs[0].tracker_count() implies #[trigger] vs.last().tracker_limit(t) == vs[0].tracker_limit(t)
            && vs.last().assigned_in(t) == vs[0].assigned_in(t).union(marked_below(ps, vs[0].tracker_limit(t))) by {
            let lim = vs[0].tracker_limit(t);
            assert(vp.last().tracker_limit(t) == lim);
            assert forall|x: usize| marked_below(ps, lim).contains(x) <==> (#[trigger] marked_below(pp, lim).contains(x)
                || (x == ps[n] && ps[n] < lim)) by {
                if marked_below(ps, lim).contains(x) {
                    let i = choose|i: int| 0 <= i < ps.len() && ps[i] == x;
                    if i < n {
                        assert(pp[i] == x);
                    }
                }
                if marked_below(pp, lim).contains(x) {
                    let i = choose|i: int| 0 <= i < pp.len() && pp[i] == x;
                    assert(ps[i] == x);
                }
            }
            assert(vs.last().assigned_in(t) =~= vs[0].assigned_in(t).union(marked_below(ps, lim)));
        }
        if vs[0].tracker_count() > 0 && vs[0].assigned_in(vs[0].tracker_count() - 1) == Set::<usize>::empty() {
            let t = vs[0].tracker_count() - 1;
            assert(vs[0].assigned_in(t).union(marked_below(ps, vs[0].tracker_limit(t))) =~= marked_below(ps, vs[0].tracker_limit(t)));
        }
    }
}



/// `new` is `old` with `ins` appended to the current block.
pub open spec fn instr_added(old: ControlFlowGraph, new: ControlFlowGraph, ins: Instr) -> bool {
    &&& new.bb@.len() == old.bb@.len()
    &&& new.current == old.current
    &&& new.bb@[old.current as int].instr@ == old.bb@[old.current as int].instr@.push(ins)
    &&& new.bb@[old.current as int].phis == old.bb@[old.current as int].phis
    &&& new.bb@[old.current as int].name == old.bb@[old.current as int].name
    &&& forall|k: int| 0 <= k < old.bb@.len() && k != old.current ==> new.bb@[k] == old.bb@[k]
    &&& new.vars == old.vars
}

impl ControlFlowGraph {
    /// A graph with only its entry block.
    pub fn new() -> (r: ControlFlowGraph)
        ensures
            r.bb@.len() == 1,
            r.current == 0,
            r.vars@.len() == 0,
            r.bb@[0].name@ == "entry"@,
            r.bb@[0].instr@.len() == 0,
            r.bb@[0].phis is None,
            !r.writes_contract_storage,
            !r.reads_contract_storage,
            forall|n: nat, c: Contract| #[trigger] cfg_wf(r, n, c),
    {
        let mut cfg = ControlFlowGraph {
            vars: Vec::new(),
            bb: Vec::new(),
            current: 0,
            reads_contract_storage: false,
            writes_contract_storage: false,
        };
        cfg.new_basic_block(String::from_str("entry"));
        cfg
    }

    /// Add an empty block; its position is returned. The current block stays.
    pub fn new_basic_block(&mut self, name: String) -> (r: usize)
        ensures
            r == old(self).bb@.len(),
            final(self).bb@.len() == old(self).bb@.len() + 1,
            forall|k: int| 0 <= k < r ==> final(self).bb@[k] == old(self).bb@[k],
            final(self).bb@[r as int].name@ == name@,
            final(self).bb@[r as int].instr@.len() == 0,
            final(self).bb@[r as int].phis is None,
            final(self).current == old(self).current,
            final(self).vars == old(self).vars,
            final(self).writes_contract_storage == old(self).writes_contract_storage,
            final(self).reads_contract_storage == old(self).reads_contract_storage,
            forall|n: nat, c: Contract| cfg_wf(*old(self), n, c) ==> #[trigger] cfg_wf(*final(self), n, c),
    {
        let pos = self.bb.len();
        self.bb.push(BasicBlock { name, instr: Vec::new(), phis: None });
        proof {
            assert forall|n: nat, c: Contract| cfg_wf(*old(self), n, c) implies #[trigger] cfg_wf(*self, n, c) by {
                assert forall|k: int| 0 <= k < self.bb@.len() implies block_wf(#[trigger] self.bb@[k], n, self.bb@.len(), c) by {
                    if k < pos {
                        lemma_block_wf_grow(old(self).bb@[k], n, n, old(self).bb@.len(), self.bb@.len(), c);
                    }
                }
            }
        }
        pos
    }

    /// Record the variables that need a phi node at the start of a block;
    /// an empty set records nothing.
    pub fn set_phis(&mut self, bb: usize, phis: Vec<usize>)
        requires
            bb < old(self).bb@.len(),
        ensures
            final(self).bb@.len() == old(self).bb@.len(),
            phis@.len() > 0 ==> final(self).bb@[bb as int].phis == Some(phis),
            phis@.len() == 0 ==> final(self).bb@[bb as int].phis == old(self).bb@[bb as int].phis,
            final(self).bb@[bb as int].instr == old(self).bb@[bb as int].instr,
            final(self).bb@[bb as int].name == old(self).bb@[bb as int].name,
            forall|k: int| 0 <= k < old(self).bb@.len() && k != bb ==> final(self).bb@[k] == old(self).bb@[k],
            final(self).current == old(self).current,
            final(self).vars == old(self).vars,
            final(self).writes_contract_storage == old(self).writes_contract_storage,
            final(self).reads_contract_storage == old(self).reads_contract_storage,
            forall|n: nat, c: Contract| cfg_wf(*old(self), n, c) && pos_set_wf(phis@, n)
                ==> #[trigger] cfg_wf(*final(self), n, c),
    {
        if phis.len() > 0 {
            self.bb[bb].phis = Some(phis);
        }
    }

    /// Make `pos` the block that instructions are added to.
    pub fn set_basic_block(&mut self, pos: usize)
        ensures
            final(self).current == pos,
            final(self).bb == old(self).bb,
            final(self).vars == old(self).vars,
            final(self).writes_contract_storage == old(self).writes_contract_storage,
            final(self).reads_contract_storage == old(self).reads_contract_storage,
    {
        self.current = pos;
    }

    /// Append an instruction to the current block. An assignment marks its
    /// variable as assigned in the active dirty trackers.
    pub fn add(&mut self, vartab: &mut Vartable, ins: Instr)
        requires
            old(self).current < old(self).bb@.len(),
            old(vartab).wf_core(),
            ins matches Instr::Assign { res, .. } ==> res < old(vartab).len(),
        ensures
            instr_added(*old(self), *final(self), ins),
            final(self).writes_contract_storage == old(self).writes_contract_storage,
            final(self).reads_contract_storage == old(self).reads_contract_storage,
            final(vartab).wf_core(),
            final(vartab).same_vars(old(vartab)),
            final(vartab).len() == old(vartab).len(),
            old(vartab).grows_to(final(vartab)),
            final(vartab).same_scopes(old(vartab)),
            forall|c: Contract| old(vartab).types_wf(c) ==> #[trigger] final(vartab).types_wf(c),
            forall|c: Contract| cfg_wf(*old(self), old(vartab).len(), c)
                && instr_wf(ins, old(vartab).len(), old(self).bb@.len(), c)
                ==> #[trigger] cfg_wf(*final(self), final(vartab).len(), c),
            final(vartab).tracker_count() == old(vartab).tracker_count(),
            forall|t: int| 0 <= t < old(vartab).tracker_count() ==> #[trigger] final(vartab).tracker_limit(t) == old(vartab).tracker_limit(t),
            forall|t: int| 0 <= t < old(vartab).tracker_count() ==> #[trigger] final(vartab).assigned_in(t)
                == match ins {
                    Instr::Assign { res, .. } => if res < old(vartab).tracker_limit(t) {
                        old(vartab).assigned_in(t).insert(res)
                    } else {
                        old(vartab).assigned_in(t)
                    },
                    _ => old(vartab).assigned_in(t),
                },
    {
        if let Instr::Assign { res, .. } = &ins {
            vartab.set_dirty(*res);
        }
        let cur = self.current;
        self.bb[cur].instr.push(ins);
        proof {
            assert(self.bb@[cur as int].instr@ == old(self).bb@[cur as int].instr@.push(ins));
        }
    }
}


/// Are the two expressions the same number or bytes literal (by value), or
/// is neither such a literal?
pub open spec fn same_literal(a: Expression, b: Expression) -> bool {
    match (a, b) {
        (Expression::NumberLiteral(w1, n1), Expression::NumberLiteral(w2, n2)) => w1 == w2 && n1@ == n2@,
        (Expression::BytesLiteral(x), Expression::BytesLiteral(y)) => x@ == y@,
        _ => !(a is NumberLiteral) && !(b is NumberLiteral) && !(a is BytesLiteral) && !(b is BytesLiteral),
    }
}

/// Two expressions of the same form throughout, with the same variables,
/// literals of the same values and types of the same meaning.
pub open spec fn same_expr(x: Expression, y: Expression) -> bool
    decreases y,
{
    match (x, y) {
        (Expression::BoolLiteral(a), Expression::BoolLiteral(b)) => a == b,
        (Expression::BytesLiteral(a), Expression::BytesLiteral(b)) => a@ == b@,
        (Expression::NumberLiteral(w1, n1), Expression::NumberLiteral(w2, n2)) => w1 == w2 && n1@ == n2@,
        (Expression::Variable(l1, p1), Expression::Variable(l2, p2)) => l1 == l2 && p1 == p2,
        (Expression::Poison, Expression::Poison) => true,
        (Expression::Add(a1, b1), Expression::Add(a2, b2)) => same_expr(*a1, *a2) && same_expr(*b1, *b2),
        (Expression::Subtract(a1, b1), Expression::Subtract(a2, b2)) => same_expr(*a1, *a2) && same_expr(*b1, *b2),
        (Expression::Multiply(a1, b1), Expression::Multiply(a2, b2)) => same_expr(*a1, *a2) && same_expr(*b1, *b2),
        (Expression::UDivide(a1, b1), Expression::UDivide(a2, b2)) => same_expr(*a1, *a2) && same_expr(*b1, *b2),
        (Expression::SDivide(a1, b1), Expression::SDivide(a2, b2)) => same_expr(*a1, *a2) && same_expr(*b1, *b2),
        (Expression::UModulo(a1, b1), Expression::UModulo(a2, b2)) => same_expr(*a1, *a2) && same_expr(*b1, *b2),
        (Expression::SModulo(a1, b1), Expression::SModulo(a2, b2)) => same_expr(*a1, *a2) && same_expr(*b1, *b2),
        (Expression::Power(a1, b1), Expression::Power(a2, b2)) => same_expr(*a1, *a2) && same_expr(*b1, *b2),
        (Expression::BitwiseOr(a1, b1), Expression::BitwiseOr(a2, b2)) => same_expr(*a1, *a2) && same_expr(*b1, *b2),
        (Expression::BitwiseAnd(a1, b1), Expression::BitwiseAnd(a2, b2)) => same_expr(*a1, *a2) && same_expr(*b1, *b2),
        (Expression::BitwiseXor(a1, b1), Expression::BitwiseXor(a2, b2)) => same_expr(*a1, *a2) && same_expr(*b1, *b2),
        (Expression::ShiftLeft(a1, b1), Expression::ShiftLeft(a2, b2)) => same_expr(*a1, *a2) && same_expr(*b1, *b2),
        (Expression::UMore(a1, b1), Expression::UMore(a2, b2)) => same_expr(*a1, *a2) && same_expr(*b1, *b2),
        (Expression::ULess(a1, b1), Expression::ULess(a2, b2)) => same_expr(*a1, *a2) && same_expr(*b1, *b2),
        (Expression::UMoreEqual(a1, b1), Expression::UMoreEqual(a2, b2)) => same_expr(*a1, *a2) && same_expr(*b1, *b2),
        (Expression::ULessEqual(a1, b1), Expression::ULessEqual(a2, b2)) => same_expr(*a1, *a2) && same_expr(*b1, *b2),
        (Expression::SMore(a1, b1), Expression::SMore(a2, b2)) => same_expr(*a1, *a2) && same_expr(*b1, *b2),
        (Expression::SLess(a1, b1), Expression::SLess(a2, b2)) => same_expr(*a1, *a2) && same_expr(*b1, *b2),
        (Expression::SMoreEqual(a1, b1), Expression::SMoreEqual(a2, b2)) => same_expr(*a1, *a2) && same_expr(*b1, *b2),
        (Expression::SLessEqual(a1, b1), Expression::SLessEqual(a2, b2)) => same_expr(*a1, *a2) && same_expr(*b1, *b2),
        (Expression::Equal(a1, b1), Expression::Equal(a2, b2)) => same_expr(*a1, *a2) && same_expr(*b1, *b2),
        (Expression::NotEqual(a1, b1), Expression::NotEqual(a2, b2)) => same_expr(*a1, *a2) && same_expr(*b1, *b2),
        (Expression::IndexAccess(a1, b1), Expression::IndexAccess(a2, b2)) => same_expr(*a1, *a2) && same_expr(*b1, *b2),
        (Expression::Or(a1, b1), Expression::Or(a2, b2)) => same_expr(*a1, *a2) && same_expr(*b1, *b2),
        (Expression::And(a1, b1), Expression::And(a2, b2)) => same_expr(*a1, *a2) && same_expr(*b1, *b2),
        (Expression::ShiftRight(a1, b1, s1), Expression::ShiftRight(a2, b2, s2)) => s1 == s2 && same_expr(*a1, *a2) && same_expr(*b1, *b2),
        (Expression::ZeroExt(t1, a1), Expression::ZeroExt(t2, a2)) => t1@ == t2@ && same_expr(*a1, *a2),
        (Expression::SignExt(t1, a1), Expression::SignExt(t2, a2)) => t1@ == t2@ && same_expr(*a1, *a2),
        (Expression::Trunc(t1, a1), Expression::Trunc(t2, a2)) => t1@ == t2@ && same_expr(*a1, *a2),
        (Expression::Not(a1), Expression::Not(a2)) => same_expr(*a1, *a2),
        (Expression::Complement(a1), Expression::Complement(a2)) => same_expr(*a1, *a2),
        (Expression::UnaryMinus(a1), Expression::UnaryMinus(a2)) => same_expr(*a1, *a2),
        (Expression::Ternary(a1, b1, c1), Expression::Ternary(a2, b2, c2)) => same_expr(*a1, *a2) && same_expr(*b1, *b2) && same_expr(*c1, *c2),
        _ => false,
    }
}

/// A copy of an expression: the same number or bytes literal by value, the
/// very same variable, and of the same form throughout.
pub open spec fn copy_of(x: Expression, y: Expression) -> bool {
    same_literal(x, y) && (y is Variable ==> x == y) && same_expr(x, y)
}

impl Expression {
    /// A copy of the expression.
    #[verifier::spinoff_prover]
    #[verifier::rlimit(50)]
    pub fn duplicate(&self) -> (r: Expression)
        ensures
            forall|n: nat, c: Contract| expression_wf(*self, n, c) ==> #[trigger] expression_wf(r, n, c),
            same_literal(r, *self),
            copy_of(r, *self),
        decreases self,
    {
        let r = match self {
            Expression::BoolLiteral(b) => Expression::BoolLiteral(*b),
            Expression::BytesLiteral(v) => {
                let w = v.clone();
                assert(w@ =~= v@);
                Expression::BytesLiteral(w)
            },
            Expression::NumberLiteral(w, n) => Expression::NumberLiteral(*w, n.duplicate()),
            Expression::Variable(loc, p) => Expression::Variable(*loc, *p),
            Expression::Poison => Expression::Poison,
            Expression::Add(l, r) => {
                let a = l.duplicate();
                let b = r.duplicate();
                let e = Expression::Add(Box::new(a), Box::new(b));
                assert forall|n: nat, c: Contract| expression_wf(*self, n, c) implies #[trigger] expression_wf(e, n, c) by {
                    assert(expression_wf(a, n, c));
                    assert(expression_wf(b, n, c));
                }
                e
            },
            Expression::Subtract(l, r) => {
                let a = l.duplicate();
                let b = r.duplicate();
                let e = Expression::Subtract(Box::new(a), Box::new(b));
                assert forall|n: nat, c: Contract| expression_wf(*self, n, c) implies #[trigger] expression_wf(e, n, c) by {
                    assert(expression_wf(a, n, c));
                    assert(expression_wf(b, n, c));
                }
                e
            },
            Expression::Multiply(l, r) => {
                let a = l.duplicate();
                let b = r.duplicate();
                let e = Expression::Multiply(Box::new(a), Box::new(b));
                assert forall|n: nat, c: Contract| expression_wf(*self, n, c) implies #[trigger] expression_wf(e, n, c) by {
                    assert(expression_wf(a, n, c));
                    assert(expression_wf(b, n, c));
                }
                e
            },
            Expression::UDivide(l, r) => {
                let a = l.duplicate();
                let b = r.duplicate();
                let e = Expression::UDivide(Box::new(a), Box::new(b));
                assert forall|n: nat, c: Contract| expression_wf(*self, n, c) implies #[trigger] expression_wf(e, n, c) by {
                    assert(expression_wf(a, n, c));
                    assert(expression_wf(b, n, c));
                }
                e
            },
            Expression::SDivide(l, r) => {
                let a = l.duplicate();
                let b = r.duplicate();
                let e = Expression::SDivide(Box::new(a), Box::new(b));
                assert forall|n: nat, c: Contract| expression_wf(*self, n, c) implies #[trigger] expression_wf(e, n, c) by {
                    assert(expression_wf(a, n, c));
                    assert(expression_wf(b, n, c));
                }
                e
            },
            Expression::UModulo(l, r) => {
                let a = l.duplicate();
                let b = r.duplicate();
                let e = Expression::UModulo(Box::new(a), Box::new(b));
                assert forall|n: nat, c: Contract| expression_wf(*self, n, c) implies #[trigger] expression_wf(e, n, c) by {
                    assert(expression_wf(a, n, c));
                    assert(expression_wf(b, n, c));
                }
                e
            },
            Expression::SModulo(l, r) => {
                let a = l.duplicate();
                let b = r.duplicate();
                let e = Expression::SModulo(Box::new(a), Box::new(b));
                assert forall|n: nat, c: Contract| expression_wf(*self, n, c) implies #[trigger] expression_wf(e, n, c) by {
                    assert(expression_wf(a, n, c));
                    assert(expression_wf(b, n, c));
                }
                e
            },
            Expression::Power(l, r) => {
                let a = l.duplicate();
                let b = r.duplicate();
                let e = Expression::Power(Box::new(a), Box::new(b));
                assert forall|n: nat, c: Contract| expression_wf(*self, n, c) implies #[trigger] expression_wf(e, n, c) by {
                    assert(expression_wf(a, n, c));
                    assert(expression_wf(b, n, c));
                }
                e
            },
            Expression::BitwiseOr(l, r) => {
                let a = l.duplicate();
                let b = r.duplicate();
                let e = Expression::BitwiseOr(Box::new(a), Box::new(b));
                assert forall|n: nat, c: Contract| expression_wf(*self, n, c) implies #[trigger] expression_wf(e, n, c) by {
                    assert(expression_wf(a, n, c));
                    assert(expression_wf(b, n, c));
                }
                e
            },
            Expression::BitwiseAnd(l, r) => {
                let a = l.duplicate();
                let b = r.duplicate();
                let e = Expression::BitwiseAnd(Box::new(a), Box::new(b));
                assert forall|n: nat, c: Contract| expression_wf(*self, n, c) implies #[trigger] expression_wf(e, n, c) by {
                    assert(expression_wf(a, n, c));
                    assert(expression_wf(b, n, c));
                }
                e
            },
            Expression::BitwiseXor(l, r) => {
                let a = l.duplicate();
                let b = r.duplicate();
                let e = Expression::BitwiseXor(Box::new(a), Box::new(b));
                assert forall|n: nat, c: Contract| expression_wf(*self, n, c) implies #[trigger] expression_wf(e, n, c) by {
                    assert(expression_wf(a, n, c));
                    assert(expression_wf(b, n, c));
                }
                e
            },
            Expression::ShiftLeft(l, r) => {
                let a = l.duplicate();
                let b = r.duplicate();
                let e = Expression::ShiftLeft(Box::new(a), Box::new(b));
                assert forall|n: nat, c: Contract| expression_wf(*self, n, c) implies #[trigger] expression_wf(e, n, c) by {
                    assert(expression_wf(a, n, c));
                    assert(expression_wf(b, n, c));
                }
                e
            },
            Expression::UMore(l, r) => {
                let a = l.duplicate();
                let b = r.duplicate();
                let e = Expression::UMore(Box::new(a), Box::new(b));
                assert forall|n: nat, c: Contract| expression_wf(*self, n, c) implies #[trigger] expression_wf(e, n, c) by {
                    assert(expression_wf(a, n, c));
                    assert(expression_wf(b, n, c));
                }
                e
            },
            Expression::ULess(l, r) => {
                let a = l.duplicate();
                let b = r.duplicate();
                let e = Expression::ULess(Box::new(a), Box::new(b));
                assert forall|n: nat, c: Contract| expression_wf(*self, n, c) implies #[trigger] expression_wf(e, n, c) by {
                    assert(expression_wf(a, n, c));
                    assert(expression_wf(b, n, c));
                }
                e
            },
            Expression::UMoreEqual(l, r) => {
                let a = l.duplicate();
                let b = r.duplicate();
                let e = Expression::UMoreEqual(Box::new(a), Box::new(b));
                assert forall|n: nat, c: Contract| expression_wf(*self, n, c) implies #[trigger] expression_wf(e, n, c) by {
                    assert(expression_wf(a, n, c));
                    assert(expression_wf(b, n, c));
                }
                e
            },
            Expression::ULessEqual(l, r) => {
                let a = l.duplicate();
                let b = r.duplicate();
                let e = Expression::ULessEqual(Box::new(a), Box::new(b));
                assert forall|n: nat, c: Contract| expression_wf(*self, n, c) implies #[trigger] expression_wf(e, n, c) by {
                    assert(expression_wf(a, n, c));
                    assert(expression_wf(b, n, c));
                }
                e
            },
            Expression::SMore(l, r) => {
                let a = l.duplicate();
                let b = r.duplicate();
                let e = Expression::SMore(Box::new(a), Box::new(b));
                assert forall|n: nat, c: Contract| expression_wf(*self, n, c) implies #[trigger] expression_wf(e, n, c) by {
                    assert(expression_wf(a, n, c));
                    assert(expression_wf(b, n, c));
                }
                e
            },
            Expression::SLess(l, r) => {
                let a = l.duplicate();
                let b = r.duplicate();
                let e = Expression::SLess(Box::new(a), Box::new(b));
                assert forall|n: nat, c: Contract| expression_wf(*self, n, c) implies #[trigger] expression_wf(e, n, c) by {
                    assert(expression_wf(a, n, c));
                    assert(expression_wf(b, n, c));
                }
                e
            },
            Expression::SMoreEqual(l, r) => {
                let a = l.duplicate();
                let b = r.duplicate();
                let e = Expression::SMoreEqual(Box::new(a), Box::new(b));
                assert forall|n: nat, c: Contract| expression_wf(*self, n, c) implies #[trigger] expression_wf(e, n, c) by {
                    assert(expression_wf(a, n, c));
                    assert(expression_wf(b, n, c));
                }
                e
            },
            Expression::SLessEqual(l, r) => {
                let a = l.duplicate();
                let b = r.duplicate();
                let e = Expression::SLessEqual(Box::new(a), Box::new(b));
                assert forall|n: nat, c: Contract| expression_wf(*self, n, c) implies #[trigger] expression_wf(e, n, c) by {
                    assert(expression_wf(a, n, c));
                    assert(expression_wf(b, n, c));
                }
                e
            },
            Expression::Equal(l, r) => {
                let a = l.duplicate();
                let b = r.duplicate();
                let e = Expression::Equal(Box::new(a), Box::new(b));
                assert forall|n: nat, c: Contract| expression_wf(*self, n, c) implies #[trigger] expression_wf(e, n, c) by {
                    assert(expression_wf(a, n, c));
                    assert(expression_wf(b, n, c));
                }
                e
            },
            Expression::NotEqual(l, r) => {
                let a = l.duplicate();
                let b = r.duplicate();
                let e = Expression::NotEqual(Box::new(a), Box::new(b));
                assert forall|n: nat, c: Contract| expression_wf(*self, n, c) implies #[trigger] expression_wf(e, n, c) by {
                    assert(expression_wf(a, n, c));
                    assert(expression_wf(b, n, c));
                }
                e
            },
            Expression::IndexAccess(l, r) => {
                let a = l.duplicate();
                let b = r.duplicate();
                let e = Expression::IndexAccess(Box::new(a), Box::new(b));
                assert forall|n: nat, c: Contract| expression_wf(*self, n, c) implies #[trigger] expression_wf(e, n, c) by {
                    assert(expression_wf(a, n, c));
                    assert(expression_wf(b, n, c));
                }
                e
            },
            Expression::Or(l, r) => {
                let a = l.duplicate();
                let b = r.duplicate();
                let e = Expression::Or(Box::new(a), Box::new(b));
                assert forall|n: nat, c: Contract| expression_wf(*self, n, c) implies #[trigger] expression_wf(e, n, c) by {
                    assert(expression_wf(a, n, c));
                    assert(expression_wf(b, n, c));
                }
                e
            },
            Expression::And(l, r) => {
                let a = l.duplicate();
                let b = r.duplicate();
                let e = Expression::And(Box::new(a), Box::new(b));
                assert forall|n: nat, c: Contract| expression_wf(*self, n, c) implies #[trigger] expression_wf(e, n, c) by {
                    assert(expression_wf(a, n, c));
                    assert(expression_wf(b, n, c));
                }
                e
            },
            Expression::ShiftRight(l, r, s) => {
                let a = l.duplicate();
                let b = r.duplicate();
                let e = Expression::ShiftRight(Box::new(a), Box::new(b), *s);
                assert forall|n: nat, c: Contract| expression_wf(*self, n, c) implies #[trigger] expression_wf(e, n, c) by {
                    assert(expression_wf(a, n, c));
                    assert(expression_wf(b, n, c));
                }
                e
            },
            Expression::Not(x) => {
                let a = x.duplicate();
                let e = Expression::Not(Box::new(a));
                assert forall|n: nat, c: Contract| expression_wf(*self, n, c) implies #[trigger] expression_wf(e, n, c) by {
                    assert(expression_wf(a, n, c));
                }
                e
            },
            Expression::Complement(x) => {
                let a = x.duplicate();
                let e = Expression::Complement(Box::new(a));
                assert forall|n: nat, c: Contract| expression_wf(*self, n, c) implies #[trigger] expression_wf(e, n, c) by {
                    assert(expression_wf(a, n, c));
                }
                e
            },
            Expression::UnaryMinus(x) => {
                let a = x.duplicate();
                let e = Expression::UnaryMinus(Box::new(a));
                assert forall|n: nat, c: Contract| expression_wf(*self, n, c) implies #[trigger] expression_wf(e, n, c) by {
                    assert(expression_wf(a, n, c));
                }
                e
            },
            Expression::ZeroExt(t, x) => {
                let a = x.duplicate();
                let e = Expression::ZeroExt(t.duplicate(), Box::new(a));
                assert forall|n: nat, c: Contract| expression_wf(*self, n, c) implies #[trigger] expression_wf(e, n, c) by {
                    assert(type_wf(*t, c.enums@.len(), c.structs@.len()));
                    assert(expression_wf(a, n, c));
                }
                e
            },
            Expression::SignExt(t, x) => {
                let a = x.duplicate();
                let e = Expression::SignExt(t.duplicate(), Box::new(a));
                assert forall|n: nat, c: Contract| expression_wf(*self, n, c) implies #[trigger] expression_wf(e, n, c) by {
                    assert(type_wf(*t, c.enums@.len(), c.structs@.len()));
                    assert(expression_wf(a, n, c));
                }
                e
            },
            Expression::Trunc(t, x) => {
                let a = x.duplicate();
                let e = Expression::Trunc(t.duplicate(), Box::new(a));
                assert forall|n: nat, c: Contract| expression_wf(*self, n, c) implies #[trigger] expression_wf(e, n, c) by {
                    assert(type_wf(*t, c.enums@.len(), c.structs@.len()));
                    assert(expression_wf(a, n, c));
                }
                e
            },
            Expression::Ternary(x, y, z) => {
                let a = x.duplicate();
                let b = y.duplicate();
                let d = z.duplicate();
                let e = Expression::Ternary(Box::new(a), Box::new(b), Box::new(d));
                assert forall|n: nat, c: Contract| expression_wf(*self, n, c) implies #[trigger] expression_wf(e, n, c) by {
                    assert(expression_wf(a, n, c));
                    assert(expression_wf(b, n, c));
                    assert(expression_wf(d, n, c));
                }
                e
            },
        };
        r
    }
}

/// Does the type have a zero value? Fixed width primitives and enums do.
pub open spec fn has_default(t: Type) -> bool {
    match t {
        Type::Primitive(p) => is_fixed_width(p),
        Type::Enum(_) => true,
        _ => false,
    }
}

impl PrimitiveType {
    /// The zero value of the type: `0` of its width, `false`, or zero bytes.
    pub fn default(self) -> (r: Expression)
        requires
            is_fixed_width(self),
        ensures
            match self {
                PrimitiveType::Uint(b) | PrimitiveType::Int(b) => r matches Expression::NumberLiteral(w, n) && w == b && n@ == 0,
                PrimitiveType::Address => r matches Expression::NumberLiteral(w, n) && w == 160 && n@ == 0,
                PrimitiveType::Bool => r matches Expression::BoolLiteral(false),
                PrimitiveType::Bytes(k) => r matches Expression::BytesLiteral(v) && v@ == Seq::new(k as nat, |i: int| 0u8),
                _ => false,
            },
            forall|n: nat, c: Contract| #[trigger] expression_wf(r, n, c),
    {
        match self {
            PrimitiveType::Uint(b) | PrimitiveType::Int(b) => Expression::NumberLiteral(b, BigNum::zero()),
            PrimitiveType::Bool => Expression::BoolLiteral(false),
            PrimitiveType::Address => Expression::NumberLiteral(160, BigNum::zero()),
            PrimitiveType::Bytes(n) => {
                let mut l: Vec<u8> = Vec::new();
                let mut i: u8 = 0;
                while i < n
                    invariant
                        i <= n,
                        l@ == Seq::new(i as nat, |k: int| 0u8),
                    decreases n - i,
                {
                    l.push(0);
                    i += 1;
                    assert(l@ =~= Seq::new(i as nat, |k: int| 0u8));
                }
                Expression::BytesLiteral(l)
            }
            _ => Expression::Poison,
        }
    }
}

impl Type {
    /// The zero value of a primitive or enum type; an enum is zero of its
    /// integer type.
    pub fn default(&self, ns: &Contract) -> (r: Expression)
        requires
            ns.wf(),
            has_default(*self),
            type_wf(*self, ns.enums@.len(), ns.structs@.len()),
        ensures
            forall|n: nat, c: Contract| #[trigger] expression_wf(r, n, c),
            match *self {
                Type::Primitive(p) => r matches Expression::NumberLiteral(w, n) ==> w == primitive_bits(p),
                Type::Enum(e) => r matches Expression::NumberLiteral(w, n) && w == primitive_bits(ns.enums@[e as int].ty) && n@ == 0,
                _ => false,
            },
    {
        match self {
            Type::Primitive(e) => e.default(),
            Type::Enum(e) => ns.enums[*e].ty.default(),
            _ => Expression::Poison,
        }
    }
}

/// Make the shift amount as wide as the value shifted: sign or zero extend,
/// or truncate, to the type of the left operand.
pub fn cast_shift_arg(expr: Expression, from_width: u16, ty: &Type) -> (r: Expression)
    requires
        is_fixed_primitive(*ty),
    ensures
        from_width == ty_bits(*ty) ==> r == expr,
        from_width < ty_bits(*ty) && type_signed(ty@) ==> (r matches Expression::SignExt(t, e) && t@ == ty@ && *e == expr),
        from_width < ty_bits(*ty) && !type_signed(ty@) ==> (r matches Expression::ZeroExt(t, e) && t@ == ty@ && *e == expr),
        from_width > ty_bits(*ty) ==> (r matches Expression::Trunc(t, e) && t@ == ty@ && *e == expr),
        forall|n: nat, c: Contract| expression_wf(expr, n, c) && type_wf(*ty, c.enums@.len(), c.structs@.len())
            ==> #[trigger] expression_wf(r, n, c),
{
    let to_width = ty.bits();
    if from_width == to_width {
        expr
    } else if from_width < to_width && ty.signed() {
        Expression::SignExt(ty.duplicate(), Box::new(expr))
    } else if from_width < to_width && !ty.signed() {
        Expression::ZeroExt(ty.duplicate(), Box::new(expr))
    } else {
        Expression::Trunc(ty.duplicate(), Box::new(expr))
    }
}

/// Width of a fixed width primitive type.
pub open spec fn ty_bits(t: Type) -> u16 {
    match t {
        Type::Primitive(p) => primitive_bits(p),
        _ => 0,
    }
}

/// A loop being lowered: where `break` and `continue` go, and how often
/// each was seen.
#[derive(Debug)]
pub struct LoopScope {
    pub break_bb: usize,
    pub continue_bb: usize,
    pub no_breaks: usize,
    pub no_continues: usize,
}

/// The loops around the statement being lowered, the innermost last.
#[derive(Debug)]
pub struct LoopScopes(pub Vec<LoopScope>);

/// Every loop's targets are blocks below `nbb`.
pub open spec fn loops_wf(l: LoopScopes, nbb: nat) -> bool {
    forall|i: int| 0 <= i < l.0@.len() ==> (#[trigger] l.0@[i]).break_bb < nbb && l.0@[i].continue_bb < nbb
}

impl LoopScopes {
    /// No loop.
    pub fn new() -> (r: LoopScopes)
        ensures
            r.0@.len() == 0,
    {
        LoopScopes(Vec::new())
    }

    /// Enter a loop.
    pub fn new_scope(&mut self, break_bb: usize, continue_bb: usize)
        ensures
            final(self).0@.len() == old(self).0@.len() + 1,
            final(self).0@.drop_last() == old(self).0@,
            final(self).0@.last() == (LoopScope { break_bb, continue_bb, no_breaks: 0, no_continues: 0 }),
            forall|i: int| 0 <= i < old(self).0@.len() ==> #[trigger] final(self).0@[i] == old(self).0@[i],
            forall|nbb: nat| loops_wf(*old(self), nbb) && break_bb < nbb && continue_bb < nbb ==> #[trigger] loops_wf(*final(self), nbb),
    {
        self.0.push(LoopScope { break_bb, continue_bb, no_breaks: 0, no_continues: 0 });
        assert(self.0@.drop_last() =~= old(self).0@);
    }

    /// Leave the innermost loop; it is returned with its counts.
    pub fn leave_scope(&mut self) -> (r: LoopScope)
        requires
            old(self).0@.len() > 0,
        ensures
            final(self).0@ == old(self).0@.drop_last(),
            r == old(self).0@.last(),
            forall|i: int| 0 <= i < final(self).0@.len() ==> #[trigger] final(self).0@[i] == old(self).0@[i],
            forall|nbb: nat| loops_wf(*old(self), nbb) ==> #[trigger] loops_wf(*final(self), nbb),
    {
        self.0.pop().unwrap()
    }

    /// A `break`: the block to branch to, if inside a loop. The count of
    /// breaks of the innermost loop goes up (it stops at the largest `usize`).
    pub fn do_break(&mut self) -> (r: Option<usize>)
        ensures
            final(self).0@.len() == old(self).0@.len(),
            forall|i: int| 0 <= i < old(self).0@.len() ==> (#[trigger] final(self).0@[i]).break_bb == old(self).0@[i].break_bb
                && final(self).0@[i].continue_bb == old(self).0@[i].continue_bb,
            forall|nbb: nat| loops_wf(*old(self), nbb) ==> #[trigger] loops_wf(*final(self), nbb),
            r matches Some(bb) ==> forall|nbb: nat| loops_wf(*old(self), nbb) ==> bb < nbb,
            old(self).0@.len() == 0 ==> r is None && final(self).0@ == old(self).0@,
            old(self).0@.len() > 0 ==> {
                let top = old(self).0@.last();
                &&& r == Some(top.break_bb)
                &&& final(self).0@.len() == old(self).0@.len()
                &&& final(self).0@.drop_last() == old(self).0@.drop_last()
                &&& final(self).0@.last().break_bb == top.break_bb
                &&& final(self).0@.last().continue_bb == top.continue_bb
                &&& final(self).0@.last().no_continues == top.no_continues
                &&& final(self).0@.last().no_breaks == if top.no_breaks < usize::MAX { (top.no_breaks + 1) as usize } else { usize::MAX }
            },
    {
        let n = self.0.len();
        if n == 0 {
            return None;
        }
        let bb = self.0[n - 1].break_bb;
        self.0[n - 1].no_breaks = self.0[n - 1].no_breaks.saturating_add(1);
        proof {
            assert(self.0@.drop_last() =~= old(self).0@.drop_last());
        }
        Some(bb)
    }

    /// A `continue`: the block to branch to, if inside a loop. The count of
    /// continues of the innermost loop goes up (it stops at the largest `usize`).
    pub fn do_continue(&mut self) -> (r: Option<usize>)
        ensures
            final(self).0@.len() == old(self).0@.len(),
            forall|i: int| 0 <= i < old(self).0@.len() ==> (#[trigger] final(self).0@[i]).break_bb == old(self).0@[i].break_bb
                && final(self).0@[i].continue_bb == old(self).0@[i].continue_bb,
            forall|nbb: nat| loops_wf(*old(self), nbb) ==> #[trigger] loops_wf(*final(self), nbb),
            r matches Some(bb) ==> forall|nbb: nat| loops_wf(*old(self), nbb) ==> bb < nbb,
            old(self).0@.len() == 0 ==> r is None && final(self).0@ == old(self).0@,
            old(self).0@.len() > 0 ==> {
                let top = old(self).0@.last();
                &&& r == Some(top.continue_bb)
                &&& final(self).0@.len() == old(self).0@.len()
                &&& final(self).0@.drop_last() == old(self).0@.drop_last()
                &&& final(self).0@.last().break_bb == top.break_bb
                &&& final(self).0@.last().continue_bb == top.continue_bb
                &&& final(self).0@.last().no_breaks == top.no_breaks
                &&& final(self).0@.last().no_continues == if top.no_continues < usize::MAX { (top.no_continues + 1) as usize } else { usize::MAX }
            },
    {
        let n = self.0.len();
        if n == 0 {
            return None;
        }
        let bb = self.0[n - 1].continue_bb;
        self.0[n - 1].no_continues = self.0[n - 1].no_continues.saturating_add(1);
        proof {
            assert(self.0@.drop_last() =~= old(self).0@.drop_last());
        }
        Some(bb)
    }
}


/// The graph and the variable table fit together: every instruction refers to
/// existing variables, and the variables have types of the contract.
pub open spec fn state_wf(g: ControlFlowGraph, vt: Vartable, c: Contract) -> bool {
    cfg_wf(g, vt.len(), c) && vt.wf(c)
}

/// Before reading a contract variable, copy it into its local: a storage
/// variable is loaded, a constant is set from the contract constants.
pub fn get_contract_storage(var: &Variable, cfg: &mut ControlFlowGraph, vartab: &mut Vartable)
    requires
        old(cfg).current < old(cfg).bb@.len(),
        old(vartab).wf_core(),
        var.pos < old(vartab).len(),
    ensures
        var.storage matches Storage::Contract(offset) ==> instr_added(*old(cfg), *final(cfg), Instr::GetStorage { local: var.pos, storage: offset })
            && final(cfg).reads_contract_storage == true,
        var.storage matches Storage::Constant(n) ==> instr_added(*old(cfg), *final(cfg), Instr::Constant { res: var.pos, constant: n })
            && final(cfg).reads_contract_storage == old(cfg).reads_contract_storage,
        var.storage == Storage::Local ==> *final(cfg) == *old(cfg),
        instrs_kept(*old(cfg), *final(cfg)),
        final(cfg).bb@.len() == old(cfg).bb@.len(),
        final(cfg).current == old(cfg).current,
        final(cfg).writes_contract_storage == old(cfg).writes_contract_storage,
        final(vartab).wf_core(),
        final(vartab).len() == old(vartab).len(),
        old(vartab).grows_to(final(vartab)),
        final(vartab).same_scopes(old(vartab)),
        forall|c: Contract| old(vartab).types_wf(c) ==> #[trigger] final(vartab).types_wf(c),
        forall|c: Contract| cfg_wf(*old(cfg), old(vartab).len(), c)
            && (var.storage matches Storage::Constant(n) ==> n < c.constants@.len())
            ==> #[trigger] cfg_wf(*final(cfg), final(vartab).len(), c),
{
    match var.storage {
        Storage::Contract(offset) => {
            cfg.reads_contract_storage = true;
            cfg.add(vartab, Instr::GetStorage { local: var.pos, storage: offset });
        },
        Storage::Constant(n) => {
            cfg.add(vartab, Instr::Constant { res: var.pos, constant: n });
        },
        Storage::Local => {},
    }
}

/// After assigning a contract variable through its local, store it. A
/// constant cannot be assigned: that is a type error.
pub fn set_contract_storage(
    id: &ast::Identifier,
    var: &Variable,
    cfg: &mut ControlFlowGraph,
    vartab: &mut Vartable,
    errors: &mut Vec<Output>,
) -> (r: Result<(), ()>)
    requires
        old(cfg).current < old(cfg).bb@.len(),
        old(vartab).wf_core(),
        var.pos < old(vartab).len(),
    ensures
        var.storage matches Storage::Contract(offset) ==> r is Ok
            && instr_added(*old(cfg), *final(cfg), Instr::SetStorage { local: var.pos, storage: offset })
            && final(cfg).writes_contract_storage == true
            && final(errors)@ == old(errors)@,
        var.storage matches Storage::Constant(_) ==> r is Err && *final(cfg) == *old(cfg)
            && final(errors)@ == old(errors)@.push(final(errors)@.last())
            && is_diag(final(errors)@.last(), Level::Error, ErrorType::TypeError, id.loc, "cannot assign to constant "@ + id.name@),
        var.storage == Storage::Local ==> r is Ok && *final(cfg) == *old(cfg) && final(errors)@ == old(errors)@,
        instrs_kept(*old(cfg), *final(cfg)),
        final(cfg).bb@.len() == old(cfg).bb@.len(),
        final(cfg).current == old(cfg).current,
        final(cfg).reads_contract_storage == old(cfg).reads_contract_storage,
        final(vartab).wf_core(),
        final(vartab).len() == old(vartab).len(),
        old(vartab).grows_to(final(vartab)),
        final(vartab).same_scopes(old(vartab)),
        forall|c: Contract| old(vartab).types_wf(c) ==> #[trigger] final(vartab).types_wf(c),
        forall|c: Contract| cfg_wf(*old(cfg), old(vartab).len(), c) ==> #[trigger] cfg_wf(*final(cfg), final(vartab).len(), c),
{
    match var.storage {
        Storage::Contract(offset) => {
            cfg.writes_contract_storage = true;
            cfg.add(vartab, Instr::SetStorage { local: var.pos, storage: offset });
            Ok(())
        },
        Storage::Constant(_) => {
            errors.push(Output::type_error(id.loc, join2("cannot assign to constant ", id.name.as_str())));
            Err(())
        },
        Storage::Local => Ok(()),
    }
}


/// The graph and table after a step of lowering: still well formed, the
/// table grew with its scopes unchanged, and blocks were only added.
pub open spec fn progressed(g0: ControlFlowGraph, g1: ControlFlowGraph, v0: Vartable, v1: Vartable, c: Contract) -> bool {
    &&& state_wf(g1, v1, c)
    &&& v0.grows_to(&v1)
    &&& v1.same_scopes(&v0)
    &&& v0.len() <= v1.len()
    &&& g0.bb@.len() <= g1.bb@.len()
    &&& instrs_kept(g0, g1)
}

/// The number of instructions of block `b`.
pub open spec fn instr_count(g: ControlFlowGraph, b: int) -> int {
    g.bb@[b].instr@.len() as int
}

/// The instruction at position `i` of block `b`.
pub open spec fn instr_at(g: ControlFlowGraph, b: int, i: int) -> Instr {
    g.bb@[b].instr@[i]
}

/// Instructions are only ever appended to blocks: every instruction of `g0`
/// is still in its place in `g1`.
pub open spec fn instrs_kept(g0: ControlFlowGraph, g1: ControlFlowGraph) -> bool {
    &&& forall|b: int| 0 <= b < g0.bb@.len() ==> instr_count(g0, b) <= #[trigger] instr_count(g1, b)
    &&& forall|b: int, i: int| 0 <= b < g0.bb@.len() && 0 <= i < instr_count(g0, b)
        ==> #[trigger] instr_at(g1, b, i) == instr_at(g0, b, i)
}

impl Vartable {
    /// A table that grew has at least as many variables, the same trackers
    /// and return positions, and keeps its bindings.
    pub proof fn lemma_grows_len(a: &Vartable, b: &Vartable)
        requires
            a.grows_to(b),
        ensures
            a.len() <= b.len(),
            a.tracker_count() == b.tracker_count(),
            a.scope_count() == b.scope_count(),
            a.return_positions() == b.return_positions(),
            forall|i: int| 0 <= i < a.len() ==> b.var(i) == a.var(i),
            forall|n: Seq<char>, p: usize| a.local_binding(n, p) ==> b.local_binding(n, p),
    {
    }

    /// Sameness of scopes is transitive.
    pub proof fn lemma_same_scopes_trans(a: &Vartable, b: &Vartable, c: &Vartable)
        requires
            a.same_scopes(b),
            b.same_scopes(c),
        ensures
            a.same_scopes(c),
    {
    }

    /// The scopes of `a` are those of `b`; both declare the same names.
    pub proof fn lemma_same_scopes(a: &Vartable, b: &Vartable)
        requires
            a.same_scopes(b),
        ensures
            b.same_scopes(a),
            forall|n: Seq<char>| a.declared(n) == b.declared(n),
            forall|n: Seq<char>, p: usize| a.local_binding(n, p) == b.local_binding(n, p),
            a.scope_count() == b.scope_count(),
            a.scopes() == b.scopes(),
    {
    }
}

/// Two steps of lowering are one.
pub proof fn lemma_progressed_trans(
    g0: ControlFlowGraph, g1: ControlFlowGraph, g2: ControlFlowGraph,
    v0: Vartable, v1: Vartable, v2: Vartable, c: Contract,
)
    requires
        progressed(g0, g1, v0, v1, c),
        progressed(g1, g2, v1, v2, c),
    ensures
        progressed(g0, g2, v0, v2, c),
{
    Vartable::lemma_grows_trans(&v0, &v1, &v2);
}

/// No step is a step.
pub proof fn lemma_progressed_refl(g: ControlFlowGraph, v: Vartable, c: Contract)
    requires
        state_wf(g, v, c),
    ensures
        progressed(g, g, v, v, c),
{
    Vartable::lemma_grows_refl(&v);
}


impl Vartable {
    /// A variable of a table whose types are those of the contract.
    pub proof fn lemma_types_wf_var(&self, c: Contract, i: int)
        requires
            self.types_wf(c),
            0 <= i < self.len(),
        ensures
            type_wf(self.var(i).ty, c.enums@.len(), c.structs@.len()),
            self.var(i).storage matches Storage::Constant(k) ==> k < c.constants@.len(),
    {
    }
}

/// A graph stays well formed when the table grows.
pub proof fn lemma_table_grew(g: ControlFlowGraph, v0: Vartable, v1: Vartable, c: Contract)
    requires
        cfg_wf(g, v0.len(), c),
        v0.grows_to(&v1),
    ensures
        cfg_wf(g, v1.len(), c),
        v0.len() <= v1.len(),
{
    lemma_cfg_wf_grow(g, v0.len(), v1.len(), c);
}


/// An instruction stays well formed in a contract with as many enums and
/// structs and at least as many functions and constants.
proof fn lemma_instr_wf_contract(i: Instr, n: nat, b: nat, c1: Contract, c2: Contract)
    requires
        instr_wf(i, n, b, c1),
        c1.enums@.len() == c2.enums@.len(),
        c1.structs@.len() == c2.structs@.len(),
        c1.functions@.len() <= c2.functions@.len(),
        c1.constants@.len() <= c2.constants@.len(),
    ensures
        instr_wf(i, n, b, c2),
{
    match i {
        Instr::Assign { expr, .. } => lemma_expression_wf_decls(expr, n, c1, c2),
        Instr::Call { args, .. } => {
            assert forall|k: int| 0 <= k < args@.len() implies expression_wf(#[trigger] args@[k], n, c2) by {
                lemma_expression_wf_decls(args@[k], n, c1, c2);
            }
        },
        Instr::Return { value } => {
            assert forall|k: int| 0 <= k < value@.len() implies expression_wf(#[trigger] value@[k], n, c2) by {
                lemma_expression_wf_decls(value@[k], n, c1, c2);
            }
        },
        Instr::BranchCond { cond, .. } => lemma_expression_wf_decls(cond, n, c1, c2),
        _ => {},
    }
}

/// A graph and its table stay well formed in a contract with as many enums
/// and structs and at least as many functions and constants.
pub proof fn lemma_state_wf_contract(g: ControlFlowGraph, vt: Vartable, c1: Contract, c2: Contract)
    requires
        state_wf(g, vt, c1),
        c1.enums@.len() == c2.enums@.len(),
        c1.structs@.len() == c2.structs@.len(),
        c1.functions@.len() <= c2.functions@.len(),
        c1.constants@.len() <= c2.constants@.len(),
    ensures
        state_wf(g, vt, c2),
{
    assert forall|k: int| 0 <= k < g.bb@.len() implies block_wf(#[trigger] g.bb@[k], vt.len(), g.bb@.len(), c2) by {
        let bl = g.bb@[k];
        assert forall|j: int| 0 <= j < bl.instr@.len() implies instr_wf(#[trigger] bl.instr@[j], vt.len(), g.bb@.len(), c2) by {
            lemma_instr_wf_contract(bl.instr@[j], vt.len(), g.bb@.len(), c1, c2);
        }
    }
}

/// A graph stays well formed in a contract with as many enums and structs
/// and at least as many functions and constants.
pub proof fn lemma_cfg_wf_contract(g: ControlFlowGraph, n: nat, c1: Contract, c2: Contract)
    requires
        cfg_wf(g, n, c1),
        c1.enums@.len() == c2.enums@.len(),
        c1.structs@.len() == c2.structs@.len(),
        c1.functions@.len() <= c2.functions@.len(),
        c1.constants@.len() <= c2.constants@.len(),
    ensures
        cfg_wf(g, n, c2),
{
    assert forall|k: int| 0 <= k < g.bb@.len() implies block_wf(#[trigger] g.bb@[k], n, g.bb@.len(), c2) by {
        let bl = g.bb@[k];
        assert forall|j: int| 0 <= j < bl.instr@.len() implies instr_wf(#[trigger] bl.instr@[j], n, g.bb@.len(), c2) by {
            lemma_instr_wf_contract(bl.instr@[j], n, g.bb@.len(), c1, c2);
        }
    }
}

/// Append a well formed instruction to the current block.
pub fn emit(cfg: &mut ControlFlowGraph, vartab: &mut Vartable, ns: &Contract, ins: Instr)
    requires
        state_wf(*old(cfg), *old(vartab), *ns),
        instr_wf(ins, old(vartab).len(), old(cfg).bb@.len(), *ns),
    ensures
        progressed(*old(cfg), *final(cfg), *old(vartab), *final(vartab), *ns),
        instr_added(*old(cfg), *final(cfg), ins),
        final(vartab).len() == old(vartab).len(),
        final(cfg).writes_contract_storage == old(cfg).writes_contract_storage,
        final(cfg).reads_contract_storage == old(cfg).reads_contract_storage,
{
    cfg.add(vartab, ins);
}


/// Add an empty block with this name; the current block stays.
pub fn open_block(cfg: &mut ControlFlowGraph, vartab: &Vartable, ns: &Contract, name: &str) -> (r: usize)
    requires
        state_wf(*old(cfg), *vartab, *ns),
    ensures
        progressed(*old(cfg), *final(cfg), *vartab, *vartab, *ns),
        r == old(cfg).bb@.len(),
        final(cfg).bb@.len() == r + 1,
        final(cfg).bb@[r as int].name@ == name@,
        final(cfg).bb@[r as int].instr@.len() == 0,
        forall|k: int| 0 <= k < r ==> final(cfg).bb@[k] == old(cfg).bb@[k],
        final(cfg).current == old(cfg).current,
        final(cfg).writes_contract_storage == old(cfg).writes_contract_storage,
        final(cfg).reads_contract_storage == old(cfg).reads_contract_storage,
{
    let r = cfg.new_basic_block(String::from_str(name));
    proof { Vartable::lemma_grows_refl(vartab); }
    r
}

/// Make an existing block the current one.
pub fn switch_block(cfg: &mut ControlFlowGraph, vartab: &Vartable, ns: &Contract, pos: usize)
    requires
        state_wf(*old(cfg), *vartab, *ns),
        pos < old(cfg).bb@.len(),
    ensures
        progressed(*old(cfg), *final(cfg), *vartab, *vartab, *ns),
        final(cfg).bb == old(cfg).bb,
        final(cfg).current == pos,
        final(cfg).writes_contract_storage == old(cfg).writes_contract_storage,
        final(cfg).reads_contract_storage == old(cfg).reads_contract_storage,
{
    cfg.set_basic_block(pos);
    proof { Vartable::lemma_grows_refl(vartab); }
}


impl Vartable {
    /// The positions of the named return values.
    pub fn return_vars(&self) -> (r: &Vec<usize>)
        ensures
            r@ == self.return_positions(),
    {
        &self.returns
    }

    /// Record the positions of the return values.
    pub fn set_return_vars(&mut self, positions: Vec<usize>)
        requires
            old(self).wf_core(),
            forall|k: int| 0 <= k < positions@.len() ==> (#[trigger] positions@[k]) < old(self).len(),
        ensures
            final(self).wf_core(),
            final(self).return_positions() == positions@,
            final(self).scopes() == old(self).scopes(),
            final(self).scope_count() == old(self).scope_count(),
            final(self).len() == old(self).len(),
            forall|i: int| 0 <= i < old(self).len() ==> final(self).var(i) == old(self).var(i),
            final(self).tracker_count() == old(self).tracker_count(),
            forall|c: Contract| old(self).types_wf(c) ==> #[trigger] final(self).types_wf(c),
    {
        self.returns = positions;
    }

    /// What growing says of the parts of a table.
    pub proof fn lemma_grows_parts(a: &Vartable, b: &Vartable)
        requires
            a.grows_to(b),
        ensures
            a.len() <= b.len(),
            forall|i: int| 0 <= i < a.len() ==> b.var(i) == a.var(i),
            b.return_positions() == a.return_positions(),
            b.tracker_count() == a.tracker_count(),
            b.scope_count() == a.scope_count(),
    {
    }
}


impl Vartable {
    /// The return positions of a well formed table are variables; it has a scope.
    pub proof fn lemma_wf_parts(&self)
        requires
            self.wf_core(),
        ensures
            forall|k: int| 0 <= k < self.return_positions().len() ==> (#[trigger] self.return_positions()[k]) < self.len(),
            self.scope_count() >= 1,
    {
    }
}


impl Vartable {
    /// A name is declared only in a table that has variables.
    pub proof fn lemma_declared_nonempty(&self, name: Seq<char>)
        requires
            self.wf_core(),
            self.declared(name),
        ensures
            self.len() > 0,
    {
        let s = choose|s: int| 0 <= s < self.names@.len() && has_name((#[trigger] self.names@[s])@, name);
        let k = choose|k: int| 0 <= k < self.names@[s]@.len() && (#[trigger] self.names@[s]@[k]).0@ == name;
        assert(self.names@[s]@[k].1 < self.vars@.len());
    }
}

} // verus!
