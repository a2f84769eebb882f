//! The parse tree of a Solidity source unit, as the resolver consumes it.
//!
//! The tree only holds the constructs that the resolver knows how to handle:
//! increments, assignments and index accesses have a plain variable as their
//! target, and array dimensions are fixed.
use crate::bignum::{BigNum, nat_decimal, u64_to_decimal};
use vstd::prelude::*;

verus! {

/// A location in the source file: start and end offset.
#[derive(PartialEq, Eq, Structural, Clone, Copy, Debug)]
pub struct Loc(pub usize, pub usize);

/// A name and where it was written.
#[derive(Debug)]
pub struct Identifier {
    pub loc: Loc,
    pub name: String,
}

impl Identifier {
    /// Build an identifier.
    pub fn new(loc: Loc, name: &str) -> (r: Identifier)
        ensures
            r.loc == loc,
            r.name@ == name@,
    {
        Identifier { loc, name: name.to_owned() }
    }

    /// A copy with the same location and name.
    pub fn duplicate(&self) -> (r: Identifier)
        ensures
            r.loc == self.loc,
            r.name@ == self.name@,
    {
        Identifier { loc: self.loc, name: self.name.clone() }
    }
}

/// The built-in value types of Solidity.
#[derive(PartialEq, Eq, Structural, Clone, Copy, Debug)]
pub enum PrimitiveType {
    Address,
    Bool,
    String,
    Int(u16),
    Uint(u16),
    Bytes(u8),
    DynamicBytes,
}

/// The Solidity spelling of a primitive type.
pub open spec fn primitive_name(p: PrimitiveType) -> Seq<char> {
    match p {
        PrimitiveType::Address => seq!['a', 'd', 'd', 'r', 'e', 's', 's'],
        PrimitiveType::Bool => seq!['b', 'o', 'o', 'l'],
        PrimitiveType::String => seq!['s', 't', 'r', 'i', 'n', 'g'],
        PrimitiveType::Int(n) => seq!['i', 'n', 't'] + nat_decimal(n as nat),
        PrimitiveType::Uint(n) => seq!['u', 'i', 'n', 't'] + nat_decimal(n as nat),
        PrimitiveType::Bytes(n) => seq!['b', 'y', 't', 'e', 's'] + nat_decimal(n as nat),
        PrimitiveType::DynamicBytes => seq!['b', 'y', 't', 'e', 's'],
    }
}

/// A primitive type that has a fixed width in bits.
pub open spec fn is_fixed_width(p: PrimitiveType) -> bool {
    p !is String && p !is DynamicBytes
}

/// Width in bits of a fixed width primitive type.
pub open spec fn primitive_bits(p: PrimitiveType) -> u16 {
    match p {
        PrimitiveType::Address => 160,
        PrimitiveType::Bool => 1,
        PrimitiveType::Int(n) => n,
        PrimitiveType::Uint(n) => n,
        PrimitiveType::Bytes(n) => (n as int * 8) as u16,
        _ => 0,
    }
}

impl PrimitiveType {
    /// The Solidity spelling of the type.
    pub fn to_string(&self) -> (r: String)
        ensures
            r@ == primitive_name(*self),
    {
        match self {
            PrimitiveType::Address => {
                let r = String::from_str("address");
                proof { reveal_strlit("address"); }
                assert(r@ =~= primitive_name(*self));
                r
            }
            PrimitiveType::Bool => {
                let r = String::from_str("bool");
                proof { reveal_strlit("bool"); }
                assert(r@ =~= primitive_name(*self));
                r
            }
            PrimitiveType::String => {
                let r = String::from_str("string");
                proof { reveal_strlit("string"); }
                assert(r@ =~= primitive_name(*self));
                r
            }
            PrimitiveType::Int(n) => {
                let r = String::from_str("int");
                proof { reveal_strlit("int"); }
                let r = r.concat(u64_to_decimal(*n as u64).as_str());
                assert(r@ =~= primitive_name(*self));
                r
            }
            PrimitiveType::Uint(n) => {
                let r = String::from_str("uint");
                proof { reveal_strlit("uint"); }
                let r = r.concat(u64_to_decimal(*n as u64).as_str());
                assert(r@ =~= primitive_name(*self));
                r
            }
            PrimitiveType::Bytes(n) => {
                let r = String::from_str("bytes");
                proof { reveal_strlit("bytes"); }
                let r = r.concat(u64_to_decimal(*n as u64).as_str());
                assert(r@ =~= primitive_name(*self));
                r
            }
            PrimitiveType::DynamicBytes => {
                let r = String::from_str("bytes");
                proof { reveal_strlit("bytes"); }
                assert(r@ =~= primitive_name(*self));
                r
            }
        }
    }

    /// Width in bits; only fixed width types have one.
    pub fn bits(&self) -> (r: u16)
        requires
            is_fixed_width(*self),
        ensures
            r == primitive_bits(*self),
    {
        match self {
            PrimitiveType::Address => 160,
            PrimitiveType::Bool => 1,
            PrimitiveType::Int(n) => *n,
            PrimitiveType::Uint(n) => *n,
            PrimitiveType::Bytes(n) => *n as u16 * 8,
            _ => 0,
        }
    }

    /// Is this a signed integer type?
    pub fn signed(&self) -> (r: bool)
        ensures
            r == (*self is Int),
    {
        match self {
            PrimitiveType::Int(_) => true,
            _ => false,
        }
    }

    /// Can values of this type be compared with `<`?
    pub fn ordered(&self) -> (r: bool)
        ensures
            r == (*self is Int || *self is Uint),
    {
        match self {
            PrimitiveType::Int(_) | PrimitiveType::Uint(_) => true,
            _ => false,
        }
    }
}

/// One fixed array dimension with its location.
#[derive(Debug)]
pub struct Dimension {
    pub loc: Loc,
    pub size: BigNum,
}

/// A type as written in the source.
#[derive(Debug)]
pub enum Type {
    Primitive(PrimitiveType, Vec<Dimension>),
    Unresolved(Identifier, Vec<Dimension>),
}

/// Where a reference type lives.
#[derive(PartialEq, Eq, Structural, Clone, Copy, Debug)]
pub enum StorageLocation {
    Memory(Loc),
    Storage(Loc),
    Calldata(Loc),
}

impl StorageLocation {
    /// Where the attribute was written.
    pub fn loc(&self) -> (r: Loc)
        ensures
            r == storage_location_loc(*self),
    {
        match self {
            StorageLocation::Memory(l) | StorageLocation::Storage(l) | StorageLocation::Calldata(
                l,
            ) => *l,
        }
    }
}

/// Where a storage location attribute was written.
pub open spec fn storage_location_loc(s: StorageLocation) -> Loc {
    match s {
        StorageLocation::Memory(l) => l,
        StorageLocation::Storage(l) => l,
        StorageLocation::Calldata(l) => l,
    }
}

/// The keyword of a storage location.
pub open spec fn storage_location_name(s: StorageLocation) -> Seq<char> {
    match s {
        StorageLocation::Memory(_) => "memory"@,
        StorageLocation::Storage(_) => "storage"@,
        StorageLocation::Calldata(_) => "calldata"@,
    }
}

impl StorageLocation {
    /// The keyword as written.
    pub fn to_string(&self) -> (r: String)
        ensures
            r@ == storage_location_name(*self),
    {
        proof { reveal_strlit("memory"); reveal_strlit("storage"); reveal_strlit("calldata"); }
        match self {
            StorageLocation::Memory(_) => String::from_str("memory"),
            StorageLocation::Storage(_) => String::from_str("storage"),
            StorageLocation::Calldata(_) => String::from_str("calldata"),
        }
    }
}

/// Function or variable visibility.
#[derive(PartialEq, Eq, Structural, Clone, Copy, Debug)]
pub enum Visibility {
    External(Loc),
    Public(Loc),
    Internal(Loc),
    Private(Loc),
}

impl Visibility {
    /// Where the attribute was written.
    pub fn loc(&self) -> (r: Loc)
        ensures
            r == visibility_loc(*self),
    {
        match self {
            Visibility::External(l) | Visibility::Public(l) | Visibility::Internal(l)
            | Visibility::Private(l) => *l,
        }
    }
}

/// Where a visibility attribute was written.
pub open spec fn visibility_loc(v: Visibility) -> Loc {
    match v {
        Visibility::External(l) => l,
        Visibility::Public(l) => l,
        Visibility::Internal(l) => l,
        Visibility::Private(l) => l,
    }
}

/// The keyword of a visibility.
pub open spec fn visibility_name(v: Visibility) -> Seq<char> {
    match v {
        Visibility::External(_) => "external"@,
        Visibility::Public(_) => "public"@,
        Visibility::Internal(_) => "internal"@,
        Visibility::Private(_) => "private"@,
    }
}

impl Visibility {
    /// The keyword as written.
    pub fn to_string(&self) -> (r: String)
        ensures
            r@ == visibility_name(*self),
    {
        proof { reveal_strlit("external"); reveal_strlit("public"); reveal_strlit("internal"); reveal_strlit("private"); }
        match self {
            Visibility::External(_) => String::from_str("external"),
            Visibility::Public(_) => String::from_str("public"),
            Visibility::Internal(_) => String::from_str("internal"),
            Visibility::Private(_) => String::from_str("private"),
        }
    }
}

/// Whether a function reads or writes contract state.
#[derive(PartialEq, Eq, Structural, Clone, Copy, Debug)]
pub enum StateMutability {
    Pure(Loc),
    View(Loc),
    Payable(Loc),
}

impl StateMutability {
    /// Where the attribute was written.
    pub fn loc(&self) -> (r: Loc)
        ensures
            r == mutability_loc(*self),
    {
        match self {
            StateMutability::Pure(l) | StateMutability::View(l) | StateMutability::Payable(l) => *l,
        }
    }
}

/// Where a mutability attribute was written.
pub open spec fn mutability_loc(m: StateMutability) -> Loc {
    match m {
        StateMutability::Pure(l) => l,
        StateMutability::View(l) => l,
        StateMutability::Payable(l) => l,
    }
}

/// The keyword of a state mutability.
pub open spec fn mutability_name(m: StateMutability) -> Seq<char> {
    match m {
        StateMutability::Pure(_) => "pure"@,
        StateMutability::View(_) => "view"@,
        StateMutability::Payable(_) => "payable"@,
    }
}

impl StateMutability {
    /// The keyword as written.
    pub fn to_string(&self) -> (r: String)
        ensures
            r@ == mutability_name(*self),
    {
        proof { reveal_strlit("pure"); reveal_strlit("view"); reveal_strlit("payable"); }
        match self {
            StateMutability::Pure(_) => String::from_str("pure"),
            StateMutability::View(_) => String::from_str("view"),
            StateMutability::Payable(_) => String::from_str("payable"),
        }
    }
}

/// An attribute on a function declaration.
#[derive(PartialEq, Eq, Structural, Clone, Copy, Debug)]
pub enum FunctionAttribute {
    StateMutability(StateMutability),
    Visibility(Visibility),
}

/// Constructor or ordinary function (a function without a name is the fallback).
#[derive(PartialEq, Eq, Structural, Clone, Copy, Debug)]
pub enum FunctionTy {
    Constructor,
    Function,
}

/// An attribute on a state variable declaration.
#[derive(PartialEq, Eq, Structural, Clone, Copy, Debug)]
pub enum VariableAttribute {
    Visibility(Visibility),
    Constant(Loc),
}

/// A string literal exactly as written, escapes included.
#[derive(Debug)]
pub struct StringLiteral {
    pub loc: Loc,
    pub string: String,
}

/// A hex literal `hex"..."`, the digits as written.
#[derive(Debug)]
pub struct HexLiteral {
    pub loc: Loc,
    pub hex: String,
}

/// Operators with two operands.
#[derive(PartialEq, Eq, Structural, Clone, Copy, Debug)]
pub enum BinaryOp {
    Add,
    Subtract,
    Multiply,
    Divide,
    Modulo,
    Power,
    BitwiseOr,
    BitwiseAnd,
    BitwiseXor,
    ShiftLeft,
    ShiftRight,
    More,
    Less,
    MoreEqual,
    LessEqual,
    Equal,
    NotEqual,
    Or,
    And,
}

/// Operators with one operand.
#[derive(PartialEq, Eq, Structural, Clone, Copy, Debug)]
pub enum UnaryOp {
    Not,
    Complement,
    UnaryMinus,
    UnaryPlus,
}

/// Increment and decrement, prefix and postfix.
#[derive(PartialEq, Eq, Structural, Clone, Copy, Debug)]
pub enum IncDecOp {
    PostIncrement,
    PreIncrement,
    PostDecrement,
    PreDecrement,
}

/// Assignment operators; `Assign` is plain `=`.
#[derive(PartialEq, Eq, Structural, Clone, Copy, Debug)]
pub enum AssignOp {
    Assign,
    AssignAdd,
    AssignSubtract,
    AssignMultiply,
    AssignDivide,
    AssignModulo,
    AssignOr,
    AssignAnd,
    AssignXor,
    AssignShiftLeft,
    AssignShiftRight,
}

/// An expression as written in the source.
#[derive(Debug)]
pub enum Expression {
    BoolLiteral(Loc, bool),
    StringLiteral(Vec<StringLiteral>),
    HexLiteral(Vec<HexLiteral>),
    NumberLiteral(Loc, BigNum),
    AddressLiteral(Loc, String),
    Variable(Identifier),
    Binary(Loc, BinaryOp, Box<Expression>, Box<Expression>),
    Unary(Loc, UnaryOp, Box<Expression>),
    Ternary(Loc, Box<Expression>, Box<Expression>, Box<Expression>),
    IncDec(Loc, IncDecOp, Identifier),
    Assign(Loc, AssignOp, Identifier, Box<Expression>),
    FunctionCall(Loc, Type, Vec<Expression>),
    IndexAccess(Loc, Identifier, Box<Expression>),
    MemberAccess(Loc, Identifier, Identifier),
}

/// Where an expression was written: a string or hex literal is where its
/// first piece is.
pub open spec fn expression_loc(e: Expression) -> Loc {
    match e {
        Expression::BoolLiteral(l, _) => l,
        Expression::StringLiteral(v) => if v@.len() > 0 { v@[0].loc } else { Loc(0, 0) },
        Expression::HexLiteral(v) => if v@.len() > 0 { v@[0].loc } else { Loc(0, 0) },
        Expression::NumberLiteral(l, _) => l,
        Expression::AddressLiteral(l, _) => l,
        Expression::Variable(id) => id.loc,
        Expression::Binary(l, _, _, _) => l,
        Expression::Unary(l, _, _) => l,
        Expression::Ternary(l, _, _, _) => l,
        Expression::IncDec(l, _, _) => l,
        Expression::Assign(l, _, _, _) => l,
        Expression::FunctionCall(l, _, _) => l,
        Expression::IndexAccess(l, _, _) => l,
        Expression::MemberAccess(l, _, _) => l,
    }
}

impl Expression {
    /// Where the expression was written.
    pub fn loc(&self) -> (r: Loc)
        ensures
            r == expression_loc(*self),
    {
        match self {
            Expression::BoolLiteral(l, _) => *l,
            Expression::StringLiteral(v) => {
                if v.len() > 0 {
                    v[0].loc
                } else {
                    Loc(0, 0)
                }
            }
            Expression::HexLiteral(v) => {
                if v.len() > 0 {
                    v[0].loc
                } else {
                    Loc(0, 0)
                }
            }
            Expression::NumberLiteral(l, _) => *l,
            Expression::AddressLiteral(l, _) => *l,
            Expression::Variable(id) => id.loc,
            Expression::Binary(l, _, _, _) => *l,
            Expression::Unary(l, _, _) => *l,
            Expression::Ternary(l, _, _, _) => *l,
            Expression::IncDec(l, _, _) => *l,
            Expression::Assign(l, _, _, _) => *l,
            Expression::FunctionCall(l, _, _) => *l,
            Expression::IndexAccess(l, _, _) => *l,
            Expression::MemberAccess(l, _, _) => *l,
        }
    }
}

/// A local variable declaration.
#[derive(Debug)]
pub struct VariableDeclaration {
    pub typ: Type,
    pub storage: Option<StorageLocation>,
    pub name: Identifier,
}

/// A statement as written in the source.
#[derive(Debug)]
pub enum Statement {
    VariableDefinition(Loc, VariableDeclaration, Option<Expression>),
    Block(Loc, Vec<Statement>),
    Return(Loc, Vec<Expression>),
    Expression(Loc, Expression),
    If(Loc, Expression, Box<Statement>, Option<Box<Statement>>),
    Break(Loc),
    Continue(Loc),
    DoWhile(Loc, Box<Statement>, Expression),
    While(Loc, Expression, Box<Statement>),
    For(Loc, Option<Box<Statement>>, Option<Expression>, Option<Box<Statement>>, Option<Box<Statement>>),
}

/// Where a statement was written.
pub open spec fn statement_loc(s: Statement) -> Loc {
    match s {
        Statement::VariableDefinition(l, _, _) => l,
        Statement::Block(l, _) => l,
        Statement::Return(l, _) => l,
        Statement::Expression(l, _) => l,
        Statement::If(l, _, _, _) => l,
        Statement::Break(l) => l,
        Statement::Continue(l) => l,
        Statement::DoWhile(l, _, _) => l,
        Statement::While(l, _, _) => l,
        Statement::For(l, _, _, _, _) => l,
    }
}

impl Statement {
    /// Where the statement was written.
    pub fn loc(&self) -> (r: Loc)
        ensures
            r == statement_loc(*self),
    {
        match self {
            Statement::VariableDefinition(l, _, _) => *l,
            Statement::Block(l, _) => *l,
            Statement::Return(l, _) => *l,
            Statement::Expression(l, _) => *l,
            Statement::If(l, _, _, _) => *l,
            Statement::Break(l) => *l,
            Statement::Continue(l) => *l,
            Statement::DoWhile(l, _, _) => *l,
            Statement::While(l, _, _) => *l,
            Statement::For(l, _, _, _, _) => *l,
        }
    }
}

/// A function parameter or return value.
#[derive(Debug)]
pub struct Parameter {
    pub loc: Loc,
    pub ty: Type,
    pub storage: Option<StorageLocation>,
    pub name: Option<Identifier>,
}

/// A function, constructor or fallback function definition.
#[derive(Debug)]
pub struct FunctionDefinition {
    pub doc: Vec<String>,
    pub loc: Loc,
    pub ty: FunctionTy,
    pub name: Option<Identifier>,
    pub params: Vec<(Loc, Option<Parameter>)>,
    pub attributes: Vec<FunctionAttribute>,
    pub returns: Vec<(Loc, Option<Parameter>)>,
    pub body: Statement,
}

/// An enum definition.
#[derive(Debug)]
pub struct EnumDefinition {
    pub doc: Vec<String>,
    pub name: Identifier,
    pub values: Vec<Identifier>,
}

/// A struct definition.
#[derive(Debug)]
pub struct StructDefinition {
    pub doc: Vec<String>,
    pub name: Identifier,
    pub fields: Vec<VariableDeclaration>,
}

/// A state variable (or constant) definition.
#[derive(Debug)]
pub struct ContractVariableDefinition {
    pub doc: Vec<String>,
    pub loc: Loc,
    pub ty: Type,
    pub attrs: Vec<VariableAttribute>,
    pub name: Identifier,
    pub initializer: Option<Expression>,
}

/// A part of a contract body.
#[derive(Debug)]
pub enum ContractPart {
    StructDefinition(StructDefinition),
    EnumDefinition(EnumDefinition),
    ContractVariableDefinition(ContractVariableDefinition),
    FunctionDefinition(FunctionDefinition),
}

/// A contract definition.
#[derive(Debug)]
pub struct ContractDefinition {
    pub doc: Vec<String>,
    pub loc: Loc,
    pub name: Identifier,
    pub parts: Vec<ContractPart>,
}

/// A top level item of a source file.
#[derive(Debug)]
pub enum SourceUnitPart {
    ContractDefinition(ContractDefinition),
    PragmaDirective(Identifier, StringLiteral),
}

/// A whole source file.
#[derive(Debug)]
pub struct SourceUnit(pub Vec<SourceUnitPart>);

} // verus!
