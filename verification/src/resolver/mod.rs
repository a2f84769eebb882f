//! Resolved contracts: types, declarations and the per-contract symbol table.
use crate::ast;
use crate::ast::{Loc, PrimitiveType, primitive_name, primitive_bits, is_fixed_width};
use crate::bignum::{BigNum, big_mul, big_add, big_equal, big_to_decimal, int_decimal, big_is_zero, big_is_negative, bit_length};
use crate::output::{Output, Note, Level, ErrorType, is_diag, is_diag_note, extends, error_added, join2, join3, joined, push_error};
use crate::Target;
use vstd::prelude::*;

pub mod address;
pub mod cast;
pub mod checks;
pub mod cfg;
pub mod contract;
pub mod expression;
pub mod functions;
pub mod printer;
pub mod statement;
pub mod structs;
pub mod variables;

use self::cfg::{ControlFlowGraph, Expression, expression_wf};
use self::address::{keccak_256, keccak256};
pub use self::contract::{resolver, resolve_contract};

verus! {

/// A resolved type.
#[derive(Debug)]
pub enum Type {
    Primitive(PrimitiveType),
    FixedArray(Box<Type>, Vec<BigNum>),
    Enum(usize),
    Struct(usize),
    Ref(Box<Type>),
    StorageRef(Box<Type>),
    /// The type of an expression that has no value, such as a call of a
    /// function without return values.
    Undef,
}

/// The mathematical form of a type: array dimensions become integers.
pub enum TypeV {
    Primitive(PrimitiveType),
    FixedArray(Box<TypeV>, Seq<int>),
    Enum(usize),
    Struct(usize),
    Ref(Box<TypeV>),
    StorageRef(Box<TypeV>),
    Undef,
}

/// The values of a list of dimensions.
pub open spec fn dims_view(dims: Seq<BigNum>) -> Seq<int> {
    dims.map_values(|d: BigNum| d@)
}

/// The mathematical form of a type.
pub open spec fn type_view(t: Type) -> TypeV
    decreases t,
{
    match t {
        Type::Primitive(p) => TypeV::Primitive(p),
        Type::FixedArray(ty, dims) => TypeV::FixedArray(Box::new(type_view(*ty)), dims_view(dims@)),
        Type::Enum(n) => TypeV::Enum(n),
        Type::Struct(n) => TypeV::Struct(n),
        Type::Ref(ty) => TypeV::Ref(Box::new(type_view(*ty))),
        Type::StorageRef(ty) => TypeV::StorageRef(Box::new(type_view(*ty))),
        Type::Undef => TypeV::Undef,
    }
}

impl View for Type {
    type V = TypeV;

    open spec fn view(&self) -> TypeV {
        type_view(*self)
    }
}

/// No enum at or beyond `n_enums` and no struct at or beyond `limit` is referred to,
/// and every array has a dimension.
pub open spec fn type_view_wf(t: TypeV, n_enums: nat, limit: nat) -> bool
    decreases t,
{
    match t {
        TypeV::FixedArray(ty, dims) => dims.len() > 0 && type_view_wf(*ty, n_enums, limit),
        TypeV::Enum(n) => n < n_enums,
        TypeV::Struct(n) => n < limit,
        TypeV::Ref(ty) => type_view_wf(*ty, n_enums, limit),
        TypeV::StorageRef(ty) => type_view_wf(*ty, n_enums, limit),
        _ => true,
    }
}

/// The type refers only to the first `n_enums` enums and the first `limit` structs.
pub open spec fn type_wf(t: Type, n_enums: nat, limit: nat) -> bool {
    type_view_wf(t@, n_enums, limit)
}

/// A type that refers only to existing enums and structs still does when
/// there are more of them.
pub proof fn lemma_type_wf_grow(t: TypeV, e1: nat, s1: nat, e2: nat, s2: nat)
    requires
        type_view_wf(t, e1, s1),
        e1 <= e2,
        s1 <= s2,
    ensures
        type_view_wf(t, e2, s2),
    decreases t,
{
    match t {
        TypeV::FixedArray(ty, _) => lemma_type_wf_grow(*ty, e1, s1, e2, s2),
        TypeV::Ref(ty) => lemma_type_wf_grow(*ty, e1, s1, e2, s2),
        TypeV::StorageRef(ty) => lemma_type_wf_grow(*ty, e1, s1, e2, s2),
        _ => {},
    }
}

/// A type that is fixed width primitive, the kind that `bits` accepts.
pub open spec fn is_fixed_primitive(t: Type) -> bool {
    t matches Type::Primitive(p) && is_fixed_width(p)
}

/// Is the type signed? Only signed integers, and references to them, are.
pub open spec fn type_signed(t: TypeV) -> bool
    decreases t,
{
    match t {
        TypeV::Primitive(p) => p is Int,
        TypeV::Ref(r) => type_signed(*r),
        TypeV::StorageRef(r) => type_signed(*r),
        _ => false,
    }
}

/// Can the type be compared with `<`? Integers, and references to them.
pub open spec fn type_ordered(t: TypeV) -> bool
    decreases t,
{
    match t {
        TypeV::Primitive(p) => p is Int || p is Uint,
        TypeV::Ref(r) => type_ordered(*r),
        TypeV::StorageRef(r) => type_ordered(*r),
        _ => false,
    }
}

/// `[d1][d2]...` for the given dimensions.
pub open spec fn dims_text(dims: Seq<int>) -> Seq<char>
    decreases dims.len(),
{
    if dims.len() == 0 {
        Seq::empty()
    } else {
        dims_text(dims.drop_last()) + seq!['['] + int_decimal(dims.last()) + seq![']']
    }
}

/// `:d1:d2...` for the given dimensions.
pub open spec fn dims_symbol(dims: Seq<int>) -> Seq<char>
    decreases dims.len(),
{
    if dims.len() == 0 {
        Seq::empty()
    } else {
        dims_symbol(dims.drop_last()) + seq![':'] + int_decimal(dims.last())
    }
}

/// The text `enum C.E` or `struct C.S`.
pub open spec fn qualified(kind: Seq<char>, contract: Seq<char>, name: Seq<char>) -> Seq<char> {
    kind + seq![' '] + contract + seq!['.'] + name
}

/// How a type is written in messages.
pub open spec fn type_text(t: Type, c: Contract) -> Seq<char>
    decreases t,
{
    match t {
        Type::Primitive(p) => primitive_name(p),
        Type::Enum(n) => qualified(seq!['e', 'n', 'u', 'm'], c.name@, c.enums@[n as int].name@),
        Type::Struct(n) => qualified(seq!['s', 't', 'r', 'u', 'c', 't'], c.name@, c.structs@[n as int].name@),
        Type::FixedArray(ty, dims) => type_text(*ty, c) + dims_text(dims_view(dims@)),
        Type::Ref(r) => type_text(*r, c),
        Type::StorageRef(r) => seq!['s', 't', 'o', 'r', 'a', 'g', 'e', ' '] + type_text(*r, c),
        Type::Undef => seq!['u', 'n', 'd', 'e', 'f', 'i', 'n', 'e', 'd'],
    }
}

/// How a type is written in a function signature.
pub open spec fn signature_text(t: Type, c: Contract) -> Seq<char>
    decreases t,
{
    match t {
        Type::Primitive(p) => primitive_name(p),
        Type::Enum(n) => primitive_name(c.enums@[n as int].ty),
        Type::FixedArray(ty, dims) => signature_text(*ty, c) + dims_text(dims_view(dims@)),
        Type::Ref(r) => type_text(*r, c),
        Type::StorageRef(r) => type_text(*r, c),
        Type::Struct(_) => seq!['t', 'y', 'p', 'l', 'e'],
        Type::Undef => seq!['u', 'n', 'd', 'e', 'f', 'i', 'n', 'e', 'd'],
    }
}

/// `type_text` on the mathematical form of a type.
pub open spec fn type_text_v(t: TypeV, c: Contract) -> Seq<char>
    decreases t,
{
    match t {
        TypeV::Primitive(p) => primitive_name(p),
        TypeV::Enum(n) => qualified(seq!['e', 'n', 'u', 'm'], c.name@, c.enums@[n as int].name@),
        TypeV::Struct(n) => qualified(seq!['s', 't', 'r', 'u', 'c', 't'], c.name@, c.structs@[n as int].name@),
        TypeV::FixedArray(ty, dims) => type_text_v(*ty, c) + dims_text(dims),
        TypeV::Ref(r) => type_text_v(*r, c),
        TypeV::StorageRef(r) => seq!['s', 't', 'o', 'r', 'a', 'g', 'e', ' '] + type_text_v(*r, c),
        TypeV::Undef => seq!['u', 'n', 'd', 'e', 'f', 'i', 'n', 'e', 'd'],
    }
}

/// `signature_text` on the mathematical form of a type.
pub open spec fn signature_text_v(t: TypeV, c: Contract) -> Seq<char>
    decreases t,
{
    match t {
        TypeV::Primitive(p) => primitive_name(p),
        TypeV::Enum(n) => primitive_name(c.enums@[n as int].ty),
        TypeV::FixedArray(ty, dims) => signature_text_v(*ty, c) + dims_text(dims),
        TypeV::Ref(r) => type_text_v(*r, c),
        TypeV::StorageRef(r) => type_text_v(*r, c),
        TypeV::Struct(_) => seq!['t', 'y', 'p', 'l', 'e'],
        TypeV::Undef => seq!['u', 'n', 'd', 'e', 'f', 'i', 'n', 'e', 'd'],
    }
}

/// The texts of a type and of its mathematical form agree.
pub proof fn lemma_type_text_v(t: Type, c: Contract)
    ensures
        type_text(t, c) == type_text_v(t@, c),
        signature_text(t, c) == signature_text_v(t@, c),
    decreases t,
{
    match t {
        Type::FixedArray(ty, _) => lemma_type_text_v(*ty, c),
        Type::Ref(r) => lemma_type_text_v(*r, c),
        Type::StorageRef(r) => lemma_type_text_v(*r, c),
        _ => {},
    }
}

/// Append the decimal dimensions `[d]...` to `s`.
fn push_dims(s: &mut String, dims: &Vec<BigNum>)
    ensures
        final(s)@ == old(s)@ + dims_text(dims_view(dims@)),
{
    let mut i: usize = 0;
    while i < dims.len()
        invariant
            0 <= i <= dims@.len(),
            s@ == old(s)@ + dims_text(dims_view(dims@.take(i as int))),
        decreases dims@.len() - i,
    {
        let ghost before = s@;
        s.append("[");
        let d = big_to_decimal(&dims[i]);
        s.append(d.as_str());
        s.append("]");
        proof {
            reveal_strlit("[");
            reveal_strlit("]");
            let t = dims_view(dims@.take(i + 1));
            assert(t.drop_last() =~= dims_view(dims@.take(i as int)));
            assert(t.last() == dims@[i as int]@);
            assert(s@ =~= old(s)@ + dims_text(t));
        }
        i += 1;
    }
    assert(dims@.take(dims@.len() as int) =~= dims@);
}

impl Type {
    /// A copy of the type.
    pub fn duplicate(&self) -> (r: Type)
        ensures
            r@ == self@,
        decreases self,
    {
        match self {
            Type::Primitive(p) => Type::Primitive(*p),
            Type::FixedArray(ty, dims) => {
                let inner = ty.duplicate();
                let mut nd: Vec<BigNum> = Vec::new();
                let mut i: usize = 0;
                while i < dims.len()
                    invariant
                        0 <= i <= dims@.len(),
                        nd@.len() == i,
                        forall|j: int| 0 <= j < i ==> (#[trigger] nd@[j])@ == dims@[j]@,
                    decreases dims@.len() - i,
                {
                    nd.push(dims[i].duplicate());
                    i += 1;
                }
                assert(dims_view(nd@) =~= dims_view(dims@));
                Type::FixedArray(Box::new(inner), nd)
            }
            Type::Enum(n) => Type::Enum(*n),
            Type::Struct(n) => Type::Struct(*n),
            Type::Ref(ty) => Type::Ref(Box::new(ty.duplicate())),
            Type::StorageRef(ty) => Type::StorageRef(Box::new(ty.duplicate())),
            Type::Undef => Type::Undef,
        }
    }

    /// Are the two types the same?
    pub fn same(&self, other: &Type) -> (r: bool)
        ensures
            r == (self@ == other@),
        decreases self,
    {
        match (self, other) {
            (Type::Primitive(a), Type::Primitive(b)) => *a == *b,
            (Type::Enum(a), Type::Enum(b)) => *a == *b,
            (Type::Struct(a), Type::Struct(b)) => *a == *b,
            (Type::Undef, Type::Undef) => true,
            (Type::Ref(a), Type::Ref(b)) => a.same(b),
            (Type::StorageRef(a), Type::StorageRef(b)) => a.same(b),
            (Type::FixedArray(a, da), Type::FixedArray(b, db)) => {
                if !a.same(b) {
                    return false;
                }
                assert(self@ == TypeV::FixedArray(Box::new(a@), dims_view(da@)));
                assert(other@ == TypeV::FixedArray(Box::new(b@), dims_view(db@)));
                if da.len() != db.len() {
                    assert(dims_view(da@).len() != dims_view(db@).len());
                    return false;
                }
                let mut i: usize = 0;
                while i < da.len()
                    invariant
                        0 <= i <= da@.len(),
                        da@.len() == db@.len(),
                        a@ == b@,
                        self@ == TypeV::FixedArray(Box::new(a@), dims_view(da@)),
                        other@ == TypeV::FixedArray(Box::new(b@), dims_view(db@)),
                        forall|j: int| 0 <= j < i ==> (#[trigger] da@[j])@ == db@[j]@,
                    decreases da@.len() - i,
                {
                    if !big_equal(&da[i], &db[i]) {
                        assert(dims_view(da@)[i as int] != dims_view(db@)[i as int]);
                        return false;
                    }
                    i += 1;
                }
                assert(dims_view(da@) =~= dims_view(db@));
                true
            }
            _ => false,
        }
    }

    /// The type as it is written in messages.
    pub fn to_string(&self, ns: &Contract) -> (r: String)
        requires
            ns.wf(),
            type_wf(*self, ns.enums@.len(), ns.structs@.len()),
        ensures
            r@ == type_text(*self, *ns),
        decreases self,
    {
        match self {
            Type::Primitive(e) => {
                let r = e.to_string();
                assert(r@ == type_text(*self, *ns));
                r
            }
            Type::Enum(n) => {
                proof { reveal_strlit("enum"); }
                let r = qualified_name("enum", &ns.name, &ns.enums[*n].name);
                assert("enum"@ =~= seq!['e', 'n', 'u', 'm']);
                r
            }
            Type::Struct(n) => {
                proof { reveal_strlit("struct"); }
                let r = qualified_name("struct", &ns.name, &ns.structs[*n].name);
                assert("struct"@ =~= seq!['s', 't', 'r', 'u', 'c', 't']);
                r
            }
            Type::FixedArray(ty, dims) => {
                let mut s = ty.to_string(ns);
                push_dims(&mut s, dims);
                s
            }
            Type::Ref(r) => r.to_string(ns),
            Type::StorageRef(ty) => {
                let s = String::from_str("storage ");
                proof { reveal_strlit("storage "); }
                let t = ty.to_string(ns);
                let r = s.concat(t.as_str());
                assert(r@ =~= type_text(*self, *ns));
                r
            }
            Type::Undef => {
                let r = String::from_str("undefined");
                proof { reveal_strlit("undefined"); }
                assert(r@ =~= type_text(*self, *ns));
                r
            }
        }
    }

    /// The type as it is written in a function signature.
    pub fn to_signature_string(&self, ns: &Contract) -> (r: String)
        requires
            ns.wf(),
            type_wf(*self, ns.enums@.len(), ns.structs@.len()),
        ensures
            r@ == signature_text(*self, *ns),
        decreases self,
    {
        match self {
            Type::Primitive(e) => e.to_string(),
            Type::Enum(n) => ns.enums[*n].ty.to_string(),
            Type::FixedArray(ty, dims) => {
                let mut s = ty.to_signature_string(ns);
                push_dims(&mut s, dims);
                s
            }
            Type::Ref(r) => r.to_string(ns),
            Type::StorageRef(r) => r.to_string(ns),
            Type::Struct(_) => {
                let r = String::from_str("typle");
                proof { reveal_strlit("typle"); }
                assert(r@ =~= signature_text(*self, *ns));
                r
            }
            Type::Undef => {
                let r = String::from_str("undefined");
                proof { reveal_strlit("undefined"); }
                assert(r@ =~= signature_text(*self, *ns));
                r
            }
        }
    }

    /// The type of an element of an array: the last dimension is dropped, or,
    /// for a one dimensional array, a reference to the element type.
    pub fn deref(&self) -> (r: Type)
        requires
            *self matches Type::FixedArray(_, dims) && dims@.len() >= 1,
        ensures
            *self matches Type::FixedArray(ty, dims) && (if dims@.len() > 1 {
                r@ == TypeV::FixedArray(Box::new(ty@), dims_view(dims@).drop_last())
            } else {
                r@ == TypeV::Ref(Box::new(ty@))
            }),
    {
        match self {
            Type::FixedArray(ty, dim) => {
                if dim.len() > 1 {
                    let mut nd: Vec<BigNum> = Vec::new();
                    let mut i: usize = 0;
                    while i < dim.len() - 1
                        invariant
                            dim@.len() > 1,
                            0 <= i <= dim@.len() - 1,
                            nd@.len() == i,
                            forall|j: int| 0 <= j < i ==> (#[trigger] nd@[j])@ == dim@[j]@,
                        decreases dim@.len() - 1 - i,
                    {
                        nd.push(dim[i].duplicate());
                        i += 1;
                    }
                    assert(dims_view(nd@) =~= dims_view(dim@).drop_last());
                    Type::FixedArray(Box::new(ty.duplicate()), nd)
                } else {
                    Type::Ref(Box::new(ty.duplicate()))
                }
            }
            _ => Type::Undef,
        }
    }

    /// Like `deref`, but for an array in contract storage: the result is a
    /// reference to storage.
    pub fn storage_deref(&self) -> (r: Type)
        requires
            *self matches Type::FixedArray(_, dims) && dims@.len() >= 1,
        ensures
            *self matches Type::FixedArray(ty, dims) && (if dims@.len() > 1 {
                r@ == TypeV::StorageRef(Box::new(TypeV::FixedArray(Box::new(ty@), dims_view(dims@).drop_last())))
            } else {
                r@ == TypeV::StorageRef(Box::new(ty@))
            }),
    {
        match self {
            Type::FixedArray(ty, dim) => {
                if dim.len() > 1 {
                    Type::StorageRef(Box::new(self.deref()))
                } else {
                    Type::StorageRef(Box::new(ty.duplicate()))
                }
            }
            _ => Type::Undef,
        }
    }

    /// The length of the outer (last written) dimension of an array, also
    /// through a storage reference.
    pub fn array_length(&self) -> (r: &BigNum)
        requires
            array_type(*self),
        ensures
            r@ == array_length_spec(*self),
        decreases self,
    {
        match self {
            Type::StorageRef(ty) => ty.array_length(),
            Type::FixedArray(_, dim) => &dim[dim.len() - 1],
            _ => vstd::pervasive::unreached(),
        }
    }

    /// Width in bits of a fixed width primitive type.
    pub fn bits(&self) -> (r: u16)
        requires
            is_fixed_primitive(*self),
        ensures
            *self matches Type::Primitive(p) && r == primitive_bits(p),
    {
        match self {
            Type::Primitive(e) => e.bits(),
            _ => 0,
        }
    }

    /// Is this a signed integer type (or a reference to one)?
    pub fn signed(&self) -> (r: bool)
        ensures
            r == type_signed(self@),
        decreases self,
    {
        match self {
            Type::Primitive(e) => e.signed(),
            Type::Ref(r) => r.signed(),
            Type::StorageRef(r) => r.signed(),
            _ => false,
        }
    }

    /// Can values of this type be ordered with `<`?
    pub fn ordered(&self) -> (r: bool)
        ensures
            r == type_ordered(self@),
        decreases self,
    {
        match self {
            Type::Primitive(e) => e.ordered(),
            Type::Ref(r) => r.ordered(),
            Type::StorageRef(r) => r.ordered(),
            _ => false,
        }
    }

    /// The `bool` type.
    pub fn bool() -> (r: Type)
        ensures
            r@ == TypeV::Primitive(PrimitiveType::Bool),
    {
        Type::Primitive(PrimitiveType::Bool)
    }

    /// The `bool` type.
    pub fn new_bool() -> (r: Type)
        ensures
            r == Type::Primitive(PrimitiveType::Bool),
    {
        Type::Primitive(PrimitiveType::Bool)
    }

    /// Can a data location (memory, storage, calldata) be given for this type?
    /// Only for arrays.
    pub fn can_have_data_location(&self) -> (r: bool)
        ensures
            r == (*self is FixedArray),
    {
        match self {
            Type::FixedArray(_, _) => true,
            _ => false,
        }
    }

    /// Is this a reference to contract storage?
    pub fn is_contract_storage(&self) -> (r: bool)
        ensures
            r == (*self is StorageRef),
    {
        match self {
            Type::StorageRef(_) => true,
            _ => false,
        }
    }
}

/// An array, possibly behind storage references.
pub open spec fn array_type(t: Type) -> bool
    decreases t,
{
    match t {
        Type::StorageRef(ty) => array_type(*ty),
        Type::FixedArray(_, dims) => dims@.len() >= 1,
        _ => false,
    }
}

/// The value of the outer dimension of an array.
pub open spec fn array_length_spec(t: Type) -> int
    decreases t,
{
    match t {
        Type::StorageRef(ty) => array_length_spec(*ty),
        Type::FixedArray(_, dims) => dims@.last()@,
        _ => 0,
    }
}

/// `kind C.N`
fn qualified_name(kind: &str, contract: &String, name: &String) -> (r: String)
    ensures
        r@ == qualified(kind@, contract@, name@),
{
    let s = String::from_str(kind);
    let s = s.concat(" ");
    let s = s.concat(contract.as_str());
    let s = s.concat(".");
    let s = s.concat(name.as_str());
    proof {
        reveal_strlit(" ");
        reveal_strlit(".");
    }
    assert(s@ =~= qualified(kind@, contract@, name@));
    s
}

/// A field of a struct.
#[derive(Debug)]
pub struct StructField {
    pub name: String,
    pub loc: Loc,
    pub ty: Type,
}

/// A struct declaration.
#[derive(Debug)]
pub struct StructDecl {
    pub name: String,
    pub fields: Vec<StructField>,
}

/// An enum declaration: its name, the integer type that holds its values and
/// the values with their positions.
#[derive(Debug)]
pub struct EnumDecl {
    pub name: String,
    pub ty: PrimitiveType,
    pub values: Vec<(String, Loc, usize)>,
}

/// A function parameter or return value.
#[derive(Debug)]
pub struct Parameter {
    pub name: String,
    pub ty: Type,
}

/// A resolved function, constructor or fallback function.
#[derive(Debug)]
pub struct FunctionDecl {
    pub doc: Vec<String>,
    pub loc: Loc,
    pub name: String,
    pub fallback: bool,
    pub signature: String,
    pub ast_index: Option<usize>,
    pub mutability: Option<ast::StateMutability>,
    pub visibility: ast::Visibility,
    pub params: Vec<Parameter>,
    pub returns: Vec<Parameter>,
    pub wasm_return: bool,
    pub cfg: Option<Box<ControlFlowGraph>>,
}

/// Where a contract variable lives.
#[derive(PartialEq, Eq, Structural, Clone, Copy, Debug)]
pub enum ContractVariableType {
    /// In contract storage, at the given slot.
    Storage(usize),
    /// A constant; its value is the contract constant with this index.
    Constant(usize),
}

/// A state variable or constant.
#[derive(Debug)]
pub struct ContractVariable {
    pub doc: Vec<String>,
    pub name: String,
    pub ty: Type,
    pub visibility: ast::Visibility,
    pub var: ContractVariableType,
}

impl ContractVariable {
    /// Does the variable live in contract storage?
    pub fn is_storage(&self) -> (r: bool)
        ensures
            r == (self.var is Storage),
    {
        if let ContractVariableType::Storage(_) = self.var {
            true
        } else {
            false
        }
    }
}

/// What a name in the contract scope refers to.
#[derive(Debug)]
pub enum Symbol {
    Enum(Loc, usize),
    Function(Vec<(Loc, usize)>),
    Variable(Loc, usize),
    Struct(Loc, usize),
}

/// A resolved contract.
#[derive(Debug)]
pub struct Contract {
    pub doc: Vec<String>,
    pub name: String,
    pub enums: Vec<EnumDecl>,
    pub structs: Vec<StructDecl>,
    pub constructors: Vec<FunctionDecl>,
    pub functions: Vec<FunctionDecl>,
    pub variables: Vec<ContractVariable>,
    pub constants: Vec<Expression>,
    pub initializer: ControlFlowGraph,
    pub target: Target,
    pub top_of_contract_storage: usize,
    pub symbols: Vec<(String, Symbol)>,
}

/// The position of the first entry with this name in a symbol table.
pub open spec fn symbol_index<S>(syms: Seq<(String, S)>, name: Seq<char>) -> Option<int>
    decreases syms.len(),
{
    if syms.len() == 0 {
        None
    } else if syms.last().0@ == name {
        match symbol_index(syms.drop_last(), name) {
            Some(i) => Some(i),
            None => Some(syms.len() - 1),
        }
    } else {
        symbol_index(syms.drop_last(), name)
    }
}

/// What a name refers to, if anything.
pub open spec fn lookup<S>(syms: Seq<(String, S)>, name: Seq<char>) -> Option<S> {
    match symbol_index(syms, name) {
        Some(i) => Some(syms[i].1),
        None => None,
    }
}

/// A symbol refers to a declaration that exists.
pub open spec fn symbol_wf(s: Symbol, c: Contract) -> bool {
    match s {
        Symbol::Enum(_, n) => n < c.enums@.len(),
        Symbol::Struct(_, n) => n < c.structs@.len(),
        Symbol::Variable(_, n) => n < c.variables@.len(),
        Symbol::Function(v) => forall|i: int| 0 <= i < v@.len() ==> (#[trigger] v@[i]).1 < c.functions@.len(),
    }
}

/// The types of a parameter list are well formed.
pub open spec fn params_wf(ps: Seq<Parameter>, c: Contract) -> bool {
    forall|i: int| 0 <= i < ps.len() ==> type_wf((#[trigger] ps[i]).ty, c.enums@.len(), c.structs@.len())
}

/// A function declaration refers only to types that exist.
pub open spec fn function_wf(f: FunctionDecl, c: Contract) -> bool {
    &&& params_wf(f.params@, c)
    &&& params_wf(f.returns@, c)
}

impl Contract {
    /// Everything the contract refers to exists: enums, structs (each struct only
    /// uses structs declared before it), variables, constants and functions.
    pub open spec fn wf(&self) -> bool {
        &&& forall|n: int| 0 <= n < self.structs@.len() ==>
            forall|i: int| 0 <= i < (#[trigger] self.structs@[n]).fields@.len() ==>
                type_wf((#[trigger] self.structs@[n].fields@[i]).ty, self.enums@.len(), n as nat)
        &&& forall|i: int| 0 <= i < self.variables@.len() ==> {
            &&& type_wf((#[trigger] self.variables@[i]).ty, self.enums@.len(), self.structs@.len())
            &&& (self.variables@[i].var matches ContractVariableType::Constant(k) ==> k < self.constants@.len())
        }
        &&& forall|i: int| 0 <= i < self.constants@.len() ==>
            expression_wf(#[trigger] self.constants@[i], 0, *self)
        &&& forall|i: int| 0 <= i < self.functions@.len() ==> function_wf(#[trigger] self.functions@[i], *self)
        &&& forall|i: int| 0 <= i < self.constructors@.len() ==> function_wf(#[trigger] self.constructors@[i], *self)
        &&& forall|i: int| 0 <= i < self.symbols@.len() ==> symbol_wf((#[trigger] self.symbols@[i]).1, *self)
        &&& forall|i: int, j: int| 0 <= i < j < self.symbols@.len() ==>
            (#[trigger] self.symbols@[i]).0@ != (#[trigger] self.symbols@[j]).0@
        &&& forall|n: int| 0 <= n < self.enums@.len() ==> (#[trigger] self.enums@[n]).ty is Uint
    }

    /// The position of a name in the symbol table.
    pub fn find_symbol(&self, name: &String) -> (r: Option<usize>)
        ensures
            r matches Some(i) ==> i < self.symbols@.len() && symbol_index(self.symbols@, name@) == Some(i as int),
            r is None ==> symbol_index(self.symbols@, name@) is None,
    {
        find_in_symbols(&self.symbols, name)
    }
}

/// A well formed contract stays well formed when structs are added whose
/// fields use only the structs before them, and the symbol table changes into
/// one whose entries refer to what exists and whose names are distinct.
pub proof fn lemma_wf_structs(c1: Contract, c2: Contract)
    requires
        c1.wf(),
        c2.enums == c1.enums,
        c2.functions == c1.functions,
        c2.constructors == c1.constructors,
        c2.variables == c1.variables,
        c2.constants == c1.constants,
        c1.structs@.len() <= c2.structs@.len(),
        forall|n: int| 0 <= n < c1.structs@.len() ==> #[trigger] c2.structs@[n] == c1.structs@[n],
        forall|n: int| c1.structs@.len() <= n < c2.structs@.len() ==>
            forall|i: int| 0 <= i < (#[trigger] c2.structs@[n]).fields@.len() ==>
                type_wf((#[trigger] c2.structs@[n].fields@[i]).ty, c2.enums@.len(), n as nat),
        forall|i: int| 0 <= i < c2.symbols@.len() ==> symbol_wf((#[trigger] c2.symbols@[i]).1, c2),
        forall|i: int, j: int| 0 <= i < j < c2.symbols@.len() ==>
            (#[trigger] c2.symbols@[i]).0@ != (#[trigger] c2.symbols@[j]).0@,
    ensures
        c2.wf(),
{
    let e = c1.enums@.len();
    let s1 = c1.structs@.len();
    let s2 = c2.structs@.len();
    assert forall|n: int| 0 <= n < c2.structs@.len() implies
        forall|i: int| 0 <= i < (#[trigger] c2.structs@[n]).fields@.len() ==>
            type_wf((#[trigger] c2.structs@[n].fields@[i]).ty, c2.enums@.len(), n as nat) by {
        if n < s1 {
            assert(c2.structs@[n] == c1.structs@[n]);
        }
    }
    assert forall|i: int| 0 <= i < c2.variables@.len() implies
        type_wf((#[trigger] c2.variables@[i]).ty, c2.enums@.len(), c2.structs@.len()) by {
        lemma_type_wf_grow(c1.variables@[i].ty@, e, s1, e, s2);
    }
    assert forall|i: int| 0 <= i < c2.constants@.len() implies expression_wf(#[trigger] c2.constants@[i], 0, c2) by {
        self::cfg::lemma_expression_wf_decls(c1.constants@[i], 0, c1, c2);
    }
    assert forall|i: int| 0 <= i < c2.functions@.len() implies function_wf(#[trigger] c2.functions@[i], c2) by {
        let f = c1.functions@[i];
        assert(function_wf(f, c1));
        assert forall|k: int| 0 <= k < f.params@.len() implies type_wf((#[trigger] f.params@[k]).ty, e, s2) by {
            lemma_type_wf_grow(f.params@[k].ty@, e, s1, e, s2);
        }
        assert forall|k: int| 0 <= k < f.returns@.len() implies type_wf((#[trigger] f.returns@[k]).ty, e, s2) by {
            lemma_type_wf_grow(f.returns@[k].ty@, e, s1, e, s2);
        }
    }
    assert forall|i: int| 0 <= i < c2.constructors@.len() implies function_wf(#[trigger] c2.constructors@[i], c2) by {
        let f = c1.constructors@[i];
        assert(function_wf(f, c1));
        assert forall|k: int| 0 <= k < f.params@.len() implies type_wf((#[trigger] f.params@[k]).ty, e, s2) by {
            lemma_type_wf_grow(f.params@[k].ty@, e, s1, e, s2);
        }
        assert forall|k: int| 0 <= k < f.returns@.len() implies type_wf((#[trigger] f.returns@[k]).ty, e, s2) by {
            lemma_type_wf_grow(f.returns@[k].ty@, e, s1, e, s2);
        }
    }
}

/// A well formed contract stays well formed when variables and constants are
/// added whose types and expressions exist, and the symbol table changes into
/// one whose entries refer to what exists and whose names are distinct.
pub proof fn lemma_wf_vars(c1: Contract, c2: Contract)
    requires
        c1.wf(),
        c2.enums == c1.enums,
        c2.structs == c1.structs,
        c2.functions == c1.functions,
        c2.constructors == c1.constructors,
        c1.constants@.len() <= c2.constants@.len(),
        forall|i: int| 0 <= i < c1.constants@.len() ==> #[trigger] c2.constants@[i] == c1.constants@[i],
        forall|i: int| c1.constants@.len() <= i < c2.constants@.len() ==> expression_wf(#[trigger] c2.constants@[i], 0, c2),
        c1.variables@.len() <= c2.variables@.len(),
        forall|i: int| 0 <= i < c1.variables@.len() ==> #[trigger] c2.variables@[i] == c1.variables@[i],
        forall|i: int| c1.variables@.len() <= i < c2.variables@.len() ==> {
            &&& type_wf((#[trigger] c2.variables@[i]).ty, c2.enums@.len(), c2.structs@.len())
            &&& (c2.variables@[i].var matches ContractVariableType::Constant(k) ==> k < c2.constants@.len())
        },
        forall|i: int| 0 <= i < c2.symbols@.len() ==> symbol_wf((#[trigger] c2.symbols@[i]).1, c2),
        forall|i: int, j: int| 0 <= i < j < c2.symbols@.len() ==>
            (#[trigger] c2.symbols@[i]).0@ != (#[trigger] c2.symbols@[j]).0@,
    ensures
        c2.wf(),
{
    assert forall|i: int| 0 <= i < c2.constants@.len() implies expression_wf(#[trigger] c2.constants@[i], 0, c2) by {
        if i < c1.constants@.len() {
            assert(expression_wf(c1.constants@[i], 0, c1));
            self::cfg::lemma_expression_wf_decls(c1.constants@[i], 0, c1, c2);
        }
    }
    assert forall|i: int| 0 <= i < c2.variables@.len() implies {
        &&& type_wf((#[trigger] c2.variables@[i]).ty, c2.enums@.len(), c2.structs@.len())
        &&& (c2.variables@[i].var matches ContractVariableType::Constant(k) ==> k < c2.constants@.len())
    } by {
        if i < c1.variables@.len() {
            assert(c2.variables@[i] == c1.variables@[i]);
        }
    }
}

/// A well formed contract stays well formed when functions or constructors
/// whose types exist are added or replaced, and the symbol table changes into
/// one whose entries refer to what exists and whose names are distinct.
pub proof fn lemma_wf_extend(c1: Contract, c2: Contract)
    requires
        c1.wf(),
        c2.enums == c1.enums,
        c2.structs == c1.structs,
        c2.variables == c1.variables,
        c2.constants == c1.constants,
        forall|i: int| 0 <= i < c2.functions@.len() ==> function_wf(#[trigger] c2.functions@[i], c2),
        forall|i: int| 0 <= i < c2.constructors@.len() ==> function_wf(#[trigger] c2.constructors@[i], c2),
        forall|i: int| 0 <= i < c2.symbols@.len() ==> symbol_wf((#[trigger] c2.symbols@[i]).1, c2),
        forall|i: int, j: int| 0 <= i < j < c2.symbols@.len() ==>
            (#[trigger] c2.symbols@[i]).0@ != (#[trigger] c2.symbols@[j]).0@,
    ensures
        c2.wf(),
{
    assert forall|i: int| 0 <= i < c2.constants@.len() implies expression_wf(#[trigger] c2.constants@[i], 0, c2) by {
        self::cfg::lemma_expression_wf_decls(c1.constants@[i], 0, c1, c2);
    }
}

/// The position of a name in a symbol table.
pub fn find_in_symbols<S>(symbols: &Vec<(String, S)>, name: &String) -> (r: Option<usize>)
    ensures
        r matches Some(i) ==> i < symbols@.len() && symbol_index(symbols@, name@) == Some(i as int),
        r is None ==> symbol_index(symbols@, name@) is None,
{
    let mut i: usize = 0;
    let mut found: Option<usize> = None;
    while i < symbols.len()
        invariant
            0 <= i <= symbols@.len(),
            found matches Some(k) ==> k < i && symbol_index(symbols@.take(i as int), name@) == Some(k as int),
            found is None ==> symbol_index(symbols@.take(i as int), name@) is None,
        decreases symbols@.len() - i,
    {
        proof {
            assert(symbols@.take(i + 1).drop_last() =~= symbols@.take(i as int));
        }
        if found.is_none() && symbols[i].0 == *name {
            found = Some(i);
        }
        i += 1;
    }
    assert(symbols@.take(symbols@.len() as int) =~= symbols@);
    found
}

/// The end of the message that says what a name is already defined as.
pub open spec fn already_defined_text(s: Symbol) -> Seq<char> {
    match s {
        Symbol::Enum(_, _) => " is already defined as enum"@,
        Symbol::Function(_) => " is already defined as function"@,
        Symbol::Variable(_, _) => " is already defined as state variable"@,
        Symbol::Struct(_, _) => " is already defined as struct definition"@,
    }
}

/// A name that `symbol_index` does not find occurs nowhere in the table; one it
/// finds is there.
pub proof fn lemma_symbol_index<S>(syms: Seq<(String, S)>, name: Seq<char>)
    ensures
        symbol_index(syms, name) is None ==> forall|i: int| 0 <= i < syms.len() ==> (#[trigger] syms[i]).0@ != name,
        symbol_index(syms, name) matches Some(i) ==> 0 <= i < syms.len() && syms[i].0@ == name,
    decreases syms.len(),
{
    if syms.len() > 0 {
        lemma_symbol_index(syms.drop_last(), name);
        if symbol_index(syms, name) is None {
            assert forall|i: int| 0 <= i < syms.len() implies (#[trigger] syms[i]).0@ != name by {
                if i < syms.len() - 1 {
                    assert(syms.drop_last()[i] == syms[i]);
                }
            }
        }
    }
}

/// A symbol table with one more entry has the same lookup for other names and
/// the new entry for its name, when that name was not yet there.
pub proof fn lemma_lookup_push<S>(syms: Seq<(String, S)>, entry: (String, S), name: Seq<char>)
    requires
        symbol_index(syms, entry.0@) is None,
    ensures
        lookup(syms.push(entry), name) == (if name == entry.0@ { Some(entry.1) } else { lookup(syms, name) }),
{
    let s2 = syms.push(entry);
    assert(s2.drop_last() =~= syms);
    lemma_symbol_index(syms, name);
}

/// Put a new name in the symbol table. If the name is taken, an error that
/// points at the earlier definition is added and the table is unchanged.
pub fn add_symbol(
    symbols: &mut Vec<(String, Symbol)>,
    id: &ast::Identifier,
    symbol: Symbol,
    errors: &mut Vec<Output>,
) -> (r: bool)
    ensures
        r == (lookup(old(symbols)@, id.name@) is None),
        r ==> {
            &&& final(symbols)@.len() == old(symbols)@.len() + 1
            &&& final(symbols)@.drop_last() == old(symbols)@
            &&& final(symbols)@.last().0@ == id.name@
            &&& final(symbols)@.last().1 == symbol
            &&& final(errors)@ == old(errors)@
        },
        !r ==> {
            &&& final(symbols)@ == old(symbols)@
            &&& final(errors)@.len() == old(errors)@.len() + 1
            &&& final(errors)@.drop_last() == old(errors)@
            &&& final(errors)@.last().level == Level::Error
            &&& final(errors)@.last().pos == id.loc
            &&& final(errors)@.last().message@ == id.name@ + already_defined_text(lookup(old(symbols)@, id.name@).unwrap())
        },
{
    let found = find_in_symbols(symbols, &id.name);
    match found {
        Some(k) => {
            let msg = match &symbols[k].1 {
                Symbol::Enum(e, _) => Output::error_with_note(
                    id.loc,
                    join2(id.name.as_str(), " is already defined as enum"),
                    *e,
                    String::from_str("location of previous definition"),
                ),
                Symbol::Function(v) => {
                    let mut notes: Vec<Note> = Vec::new();
                    let mut j: usize = 0;
                    while j < v.len()
                        invariant
                            0 <= j <= v@.len(),
                        decreases v@.len() - j,
                    {
                        notes.push(Note { pos: v[j].0, message: String::from_str("location of previous definition") });
                        j += 1;
                    }
                    Output::error_with_notes(id.loc, join2(id.name.as_str(), " is already defined as function"), notes)
                }
                Symbol::Variable(e, _) => Output::error_with_note(
                    id.loc,
                    join2(id.name.as_str(), " is already defined as state variable"),
                    *e,
                    String::from_str("location of previous definition"),
                ),
                Symbol::Struct(e, _) => Output::error_with_note(
                    id.loc,
                    join2(id.name.as_str(), " is already defined as struct definition"),
                    *e,
                    String::from_str("location of previous definition"),
                ),
            };
            errors.push(msg);
            false
        }
        None => {
            let ghost old_syms = symbols@;
            symbols.push((id.name.clone(), symbol));
            assert(symbols@.drop_last() =~= old_syms);
            true
        }
    }
}

impl Contract {
    /// The enum a name refers to, if it is an enum.
    pub fn resolve_enum(&self, id: &ast::Identifier) -> (r: Option<usize>)
        ensures
            match lookup(self.symbols@, id.name@) {
                Some(Symbol::Enum(_, n)) => r == Some(n),
                _ => r is None,
            },
    {
        match self.find_symbol(&id.name) {
            Some(i) => match &self.symbols[i].1 {
                Symbol::Enum(_, n) => Some(*n),
                _ => None,
            },
            None => None,
        }
    }

    /// The overloads of the function a name refers to. Another kind of name,
    /// or an unknown one, is an error.
    pub fn resolve_func(&self, id: &ast::Identifier, errors: &mut Vec<Output>) -> (r: Result<
        &Vec<(Loc, usize)>,
        (),
    >)
        requires
            self.wf(),
        ensures
            match lookup(self.symbols@, id.name@) {
                Some(Symbol::Function(v)) => r == Ok::<&Vec<(Loc, usize)>, ()>(&v) && final(errors)@ == old(errors)@,
                _ => r is Err && final(errors)@ == old(errors)@.push(final(errors)@.last())
                    && is_diag(final(errors)@.last(), Level::Error, ErrorType::SyntaxError, id.loc, "unknown function or type"@),
            },
            extends(old(errors)@, final(errors)@),
            r is Err ==> error_added(old(errors)@, final(errors)@),
            r is Ok ==> forall|i: int| 0 <= i < r.unwrap()@.len() ==> (#[trigger] r.unwrap()@[i]).1 < self.functions@.len(),
    {
        match self.find_symbol(&id.name) {
            Some(i) => match &self.symbols[i].1 {
                Symbol::Function(v) => {
                    assert(symbol_wf(self.symbols@[i as int].1, *self));
                    return Ok(v);
                }
                _ => {},
            },
            None => {},
        }
        crate::output::push_error(errors, Output::error(id.loc, String::from_str("unknown function or type")));
        Err(())
    }

    /// The state variable a name refers to. Another kind of name, or an
    /// unknown one, is a declaration error.
    pub fn resolve_var(&self, id: &ast::Identifier, errors: &mut Vec<Output>) -> (r: Result<usize, ()>)
        ensures
            match lookup(self.symbols@, id.name@) {
                Some(Symbol::Variable(_, n)) => r == Ok::<usize, ()>(n) && final(errors)@ == old(errors)@,
                other => r is Err && final(errors)@ == old(errors)@.push(final(errors)@.last())
                    && is_diag(final(errors)@.last(), Level::Error, ErrorType::DeclarationError, id.loc,
                        "`"@ + id.name@ + match other {
                            None => "' is not declared"@,
                            Some(Symbol::Enum(_, _)) => "' is an enum"@,
                            Some(Symbol::Struct(_, _)) => "' is a struct"@,
                            _ => "' is a function"@,
                        }),
            },
    {
        match self.find_symbol(&id.name) {
            None => {
                errors.push(Output::decl_error(id.loc, join3("`", id.name.as_str(), "' is not declared")));
                Err(())
            }
            Some(i) => match &self.symbols[i].1 {
                Symbol::Enum(_, _) => {
                    errors.push(Output::decl_error(id.loc, join3("`", id.name.as_str(), "' is an enum")));
                    Err(())
                }
                Symbol::Struct(_, _) => {
                    errors.push(Output::decl_error(id.loc, join3("`", id.name.as_str(), "' is a struct")));
                    Err(())
                }
                Symbol::Function(_) => {
                    errors.push(Output::decl_error(id.loc, join3("`", id.name.as_str(), "' is a function")));
                    Err(())
                }
                Symbol::Variable(_, n) => Ok(*n),
            },
        }
    }

    /// Warn when a local declaration hides a name of the contract scope.
    pub fn check_shadowing(&self, id: &ast::Identifier, errors: &mut Vec<Output>)
        ensures
            lookup(self.symbols@, id.name@) is None ==> final(errors)@ == old(errors)@,
            lookup(self.symbols@, id.name@) is Some ==> {
                &&& final(errors)@.len() == old(errors)@.len() + 1
                &&& final(errors)@.drop_last() == old(errors)@
                &&& final(errors)@.last().level == Level::Warning
                &&& final(errors)@.last().pos == id.loc
                &&& final(errors)@.last().message@ == "declaration of `"@ + id.name@ + shadow_text(lookup(self.symbols@, id.name@).unwrap())
            },
    {
        match self.find_symbol(&id.name) {
            None => {},
            Some(i) => {
                let o = match &self.symbols[i].1 {
                    Symbol::Enum(loc, _) => Output::warning_with_note(
                        id.loc,
                        join3("declaration of `", id.name.as_str(), "' shadows enum definition"),
                        *loc,
                        String::from_str("previous definition of enum"),
                    ),
                    Symbol::Struct(loc, _) => Output::warning_with_note(
                        id.loc,
                        join3("declaration of `", id.name.as_str(), "' shadows struct definition"),
                        *loc,
                        String::from_str("previous definition of struct"),
                    ),
                    Symbol::Function(v) => {
                        let mut notes: Vec<Note> = Vec::new();
                        let mut j: usize = 0;
                        while j < v.len()
                            invariant
                                0 <= j <= v@.len(),
                            decreases v@.len() - j,
                        {
                            notes.push(Note { pos: v[j].0, message: String::from_str("previous declaration of function") });
                            j += 1;
                        }
                        Output::warning_with_notes(
                            id.loc,
                            join3("declaration of `", id.name.as_str(), "' shadows function"),
                            notes,
                        )
                    }
                    Symbol::Variable(loc, _) => Output::warning_with_note(
                        id.loc,
                        join3("declaration of `", id.name.as_str(), "' shadows state variable"),
                        *loc,
                        String::from_str("previous declaration of state variable"),
                    ),
                };
                errors.push(o);
            },
        }
    }

    /// The index of the fallback function, if there is one.
    pub fn fallback_function(&self) -> (r: Option<usize>)
        ensures
            r matches Some(i) ==> i < self.functions@.len() && self.functions@[i as int].fallback
                && forall|j: int| 0 <= j < i ==> !(#[trigger] self.functions@[j]).fallback,
            r is None ==> forall|j: int| 0 <= j < self.functions@.len() ==> !(#[trigger] self.functions@[j]).fallback,
    {
        let mut i: usize = 0;
        while i < self.functions.len()
            invariant
                0 <= i <= self.functions@.len(),
                forall|j: int| 0 <= j < i ==> !(#[trigger] self.functions@[j]).fallback,
            decreases self.functions@.len() - i,
        {
            if self.functions[i].fallback {
                return Some(i);
            }
            i += 1;
        }
        None
    }
}

/// The end of the warning about a declaration hiding a contract name.
pub open spec fn shadow_text(s: Symbol) -> Seq<char> {
    match s {
        Symbol::Enum(_, _) => "' shadows enum definition"@,
        Symbol::Struct(_, _) => "' shadows struct definition"@,
        Symbol::Function(_) => "' shadows function"@,
        Symbol::Variable(_, _) => "' shadows state variable"@,
    }
}


/// The first dimension that is not positive is at `k`.
pub open spec fn first_bad_dim(dims: Seq<ast::Dimension>, k: int) -> bool {
    &&& 0 <= k < dims.len()
    &&& dims[k].size@ <= 0
    &&& forall|j: int| 0 <= j < k ==> (#[trigger] dims[j]).size@ > 0
}

/// All dimensions are positive.
pub open spec fn dims_positive(dims: Seq<ast::Dimension>) -> bool {
    forall|j: int| 0 <= j < dims.len() ==> (#[trigger] dims[j]).size@ > 0
}

/// The message for a dimension that is not positive.
pub open spec fn bad_dim_text(d: ast::Dimension) -> Seq<char> {
    if d.size@ == 0 { "zero size of array declared"@ } else { "negative size of array declared"@ }
}

/// The values of the dimensions as written.
pub open spec fn ast_dims_view(dims: Seq<ast::Dimension>) -> Seq<int> {
    dims.map_values(|d: ast::Dimension| d.size@)
}

/// The sizes of array dimensions; a size that is not positive is a
/// declaration error.
fn resolve_dimensions(dims: &Vec<ast::Dimension>, errors: &mut Vec<Output>) -> (r: Result<Vec<BigNum>, ()>)
    ensures
        dims_positive(dims@) ==> (r matches Ok(v) && dims_view(v@) == ast_dims_view(dims@)) && final(errors)@ == old(errors)@,
        !dims_positive(dims@) ==> r is Err && exists|k: int| first_bad_dim(dims@, k) && {
            &&& final(errors)@ == old(errors)@.push(final(errors)@.last())
            &&& is_diag(final(errors)@.last(), Level::Error, ErrorType::DeclarationError, dims@[k].loc, bad_dim_text(dims@[k]))
        },
{
    let mut v: Vec<BigNum> = Vec::new();
    let mut i: usize = 0;
    while i < dims.len()
        invariant
            0 <= i <= dims@.len(),
            v@.len() == i,
            forall|j: int| 0 <= j < i ==> (#[trigger] dims@[j]).size@ > 0 && v@[j]@ == dims@[j].size@,
            errors@ == old(errors)@,
        decreases dims@.len() - i,
    {
        if big_is_zero(&dims[i].size) {
            errors.push(Output::decl_error(dims[i].loc, String::from_str("zero size of array declared")));
            assert(first_bad_dim(dims@, i as int));
            return Err(());
        } else if big_is_negative(&dims[i].size) {
            errors.push(Output::decl_error(dims[i].loc, String::from_str("negative size of array declared")));
            assert(first_bad_dim(dims@, i as int));
            return Err(());
        }
        v.push(dims[i].size.duplicate());
        i += 1;
    }
    assert(dims_view(v@) =~= ast_dims_view(dims@));
    Ok(v)
}

/// What a type as written resolves to in the contract, if anything: its
/// mathematical form, or the message and place of the error.
pub open spec fn resolve_type_spec(c: Contract, t: ast::Type) -> Result<TypeV, (Loc, Seq<char>)> {
    let base_dims = |base: TypeV, dims: Seq<ast::Dimension>| if dims.len() == 0 {
        Ok(base)
    } else if dims_positive(dims) {
        Ok(TypeV::FixedArray(Box::new(base), ast_dims_view(dims)))
    } else {
        let k = choose|k: int| first_bad_dim(dims, k);
        Err((dims[k].loc, bad_dim_text(dims[k])))
    };
    match t {
        ast::Type::Primitive(p, dims) => base_dims(TypeV::Primitive(p), dims@),
        ast::Type::Unresolved(id, dims) => match lookup(c.symbols@, id.name@) {
            None => Err((id.loc, "type ‘"@ + id.name@ + "’ not found"@)),
            Some(Symbol::Enum(_, n)) => base_dims(TypeV::Enum(n), dims@),
            Some(Symbol::Struct(_, n)) => base_dims(TypeV::Struct(n), dims@),
            Some(Symbol::Function(_)) => Err((id.loc, "‘"@ + id.name@ + "’ is a function"@)),
            Some(Symbol::Variable(_, _)) => Err((id.loc, "‘"@ + id.name@ + "’ is a contract variable"@)),
        },
    }
}

/// At most one non-positive dimension is the first.
proof fn lemma_first_bad_unique(dims: Seq<ast::Dimension>, k: int)
    requires
        first_bad_dim(dims, k),
    ensures
        (choose|j: int| first_bad_dim(dims, j)) == k,
{
    let j = choose|j: int| first_bad_dim(dims, j);
    assert(first_bad_dim(dims, j));
    if j < k {
        assert(dims[j].size@ > 0);
    } else if j > k {
        assert(dims[k].size@ > 0);
    }
}

impl Contract {
    /// Resolve a type as written: a primitive, an enum or a struct of the
    /// contract, possibly as a fixed size array. An unknown name, a name of
    /// something else, or an array size that is not positive is a declaration
    /// error.
    pub fn resolve_type(&self, id: &ast::Type, errors: &mut Vec<Output>) -> (r: Result<Type, ()>)
        requires
            self.wf(),
        ensures
            resolve_type_spec(*self, *id) matches Ok(t) ==> (r matches Ok(x) && x@ == t) && final(errors)@ == old(errors)@,
            resolve_type_spec(*self, *id) matches Err((loc, msg)) ==> {
                &&& r is Err
                &&& final(errors)@ == old(errors)@.push(final(errors)@.last())
                &&& is_diag(final(errors)@.last(), Level::Error, ErrorType::DeclarationError, loc, msg)
            },
            r is Ok ==> type_wf(r.unwrap(), self.enums@.len(), self.structs@.len()),
    {
        let (base, dims) = match id {
            ast::Type::Primitive(p, dims) => (Type::Primitive(*p), dims),
            ast::Type::Unresolved(name, dims) => {
                let found = self.find_symbol(&name.name);
                proof { lemma_symbol_index(self.symbols@, name.name@); }
                match found {
                    None => {
                        errors.push(Output::decl_error(name.loc, join3("type ‘", name.name.as_str(), "’ not found")));
                        return Err(());
                    },
                    Some(i) => {
                        proof { assert(symbol_wf(self.symbols@[i as int].1, *self)); }
                        match &self.symbols[i].1 {
                            Symbol::Enum(_, n) => (Type::Enum(*n), dims),
                            Symbol::Struct(_, n) => (Type::Struct(*n), dims),
                            Symbol::Function(_) => {
                                errors.push(Output::decl_error(name.loc, join3("‘", name.name.as_str(), "’ is a function")));
                                return Err(());
                            },
                            Symbol::Variable(_, _) => {
                                errors.push(Output::decl_error(name.loc, join3("‘", name.name.as_str(), "’ is a contract variable")));
                                return Err(());
                            },
                        }
                    },
                }
            },
        };
        assert(type_wf(base, self.enums@.len(), self.structs@.len()));
        if dims.len() == 0 {
            return Ok(base);
        }
        let ghost old_errors = errors@;
        let d = resolve_dimensions(dims, errors);
        proof {
            if !dims_positive(dims@) {
                let k = choose|k: int| first_bad_dim(dims@, k) && {
                    &&& errors@ == old_errors.push(errors@.last())
                    &&& is_diag(errors@.last(), Level::Error, ErrorType::DeclarationError, dims@[k].loc, bad_dim_text(dims@[k]))
                };
                lemma_first_bad_unique(dims@, k);
            }
        }
        match d {
            Ok(v) => {
                let ghost bv = base@;
                let t = Type::FixedArray(Box::new(base), v);
                assert(t@ == TypeV::FixedArray(Box::new(bv), dims_view(v@)));
                Ok(t)
            },
            Err(()) => Err(()),
        }
    }
}


/// How many bytes a value of the type takes, by the sizes of its parts:
/// arrays multiply, structs add up their fields. Only structs before `limit`
/// are counted. Strings, dynamic bytes, references and the undefined type
/// have no size of their own here and count as zero.
pub open spec fn type_size(t: TypeV, c: Contract, limit: nat) -> int
    decreases limit, 0nat, type_depth(t),
{
    match t {
        TypeV::Enum(_) => 1,
        TypeV::Primitive(PrimitiveType::Bool) => 1,
        TypeV::Primitive(PrimitiveType::Address) => 20,
        TypeV::Primitive(PrimitiveType::Bytes(n)) => n as int,
        TypeV::Primitive(PrimitiveType::Uint(n)) => n as int / 8,
        TypeV::Primitive(PrimitiveType::Int(n)) => n as int / 8,
        TypeV::FixedArray(ty, dims) => type_size(*ty, c, limit) * dims_product(dims),
        TypeV::Struct(n) => if n < limit && n < c.structs@.len() {
            fields_size(c, n as nat, c.structs@[n as int].fields@.len())
        } else {
            0
        },
        _ => 0,
    }
}

/// How deeply arrays are nested in the type.
pub open spec fn type_depth(t: TypeV) -> nat
    decreases t,
{
    match t {
        TypeV::FixedArray(ty, _) => type_depth(*ty) + 1,
        _ => 0,
    }
}

/// The sizes of the first `k` fields of struct `n`, added up.
pub open spec fn fields_size(c: Contract, n: nat, k: nat) -> int
    decreases n, 1nat, k,
{
    if k == 0 || n >= c.structs@.len() || k > c.structs@[n as int].fields@.len() {
        0
    } else {
        fields_size(c, n, (k - 1) as nat) + type_size(c.structs@[n as int].fields@[k - 1].ty@, c, n)
    }
}

/// The product of the dimensions.
pub open spec fn dims_product(dims: Seq<int>) -> int
    decreases dims.len(),
{
    if dims.len() == 0 { 1 } else { dims_product(dims.drop_last()) * dims.last() }
}

impl Type {
    /// How many bytes a value of the type takes (see `type_size`).
    pub fn size_hint(&self, ns: &Contract) -> (r: BigNum)
        requires
            ns.wf(),
            type_wf(*self, ns.enums@.len(), ns.structs@.len()),
        ensures
            r@ == type_size(self@, *ns, ns.structs@.len()),
    {
        self.size_bounded(ns, ns.structs.len())
    }

    /// `size_hint` counting only the structs before `limit`.
    fn size_bounded(&self, ns: &Contract, limit: usize) -> (r: BigNum)
        requires
            ns.wf(),
            limit <= ns.structs@.len(),
            type_wf(*self, ns.enums@.len(), limit as nat),
        ensures
            r@ == type_size(self@, *ns, limit as nat),
        decreases limit, 0nat, type_depth(self@),
    {
        match self {
            Type::Enum(_) => BigNum::from_u64(1),
            Type::Primitive(PrimitiveType::Bool) => BigNum::from_u64(1),
            Type::Primitive(PrimitiveType::Address) => BigNum::from_u64(20),
            Type::Primitive(PrimitiveType::Bytes(n)) => BigNum::from_u64(*n as u64),
            Type::Primitive(PrimitiveType::Uint(n)) | Type::Primitive(PrimitiveType::Int(n)) => BigNum::from_u64((*n / 8) as u64),
            Type::FixedArray(ty, dims) => {
                let mut size = ty.size_bounded(ns, limit);
                let mut i: usize = 0;
                while i < dims.len()
                    invariant
                        0 <= i <= dims@.len(),
                        size@ == type_size(ty@, *ns, limit as nat) * dims_product(dims_view(dims@).take(i as int)),
                    decreases dims@.len() - i,
                {
                    let ghost before = size@;
                    size = big_mul(&size, &dims[i]);
                    proof {
                        let t = dims_view(dims@).take(i + 1);
                        assert(t.drop_last() =~= dims_view(dims@).take(i as int));
                        assert(t.last() == dims@[i as int]@);
                        vstd::arithmetic::mul::lemma_mul_is_associative(
                            type_size(ty@, *ns, limit as nat), dims_product(t.drop_last()), t.last());
                    }
                    i += 1;
                }
                assert(dims_view(dims@).take(dims@.len() as int) =~= dims_view(dims@));
                size
            },
            Type::Struct(n) => {
                let fields = &ns.structs[*n].fields;
                let mut total = BigNum::zero();
                let mut k: usize = 0;
                while k < fields.len()
                    invariant
                        ns.wf(),
                        *n < limit <= ns.structs@.len(),
                        fields == ns.structs@[*n as int].fields,
                        0 <= k <= fields@.len(),
                        total@ == fields_size(*ns, *n as nat, k as nat),
                    decreases fields@.len() - k,
                {
                    assert(type_wf(ns.structs@[*n as int].fields@[k as int].ty, ns.enums@.len(), *n as nat));
                    let f = fields[k].ty.size_bounded(ns, *n);
                    total = big_add(&total, &f);
                    k += 1;
                }
                total
            },
            _ => BigNum::zero(),
        }
    }
}


/// How many storage slots a value of the type takes: one for a primitive or
/// an enum, the sum over the fields for a struct, the element's slots times
/// the product of the dimensions for an array. Only structs before `limit`
/// are counted; the undefined type takes none.
pub open spec fn type_slots(t: TypeV, c: Contract, limit: nat) -> int
    decreases limit, 0nat, crate::emit::nesting(t),
{
    match t {
        TypeV::Primitive(_) => 1,
        TypeV::Enum(_) => 1,
        TypeV::Struct(n) => if n < limit && n < c.structs@.len() {
            fields_slots(c, n as nat, c.structs@[n as int].fields@.len())
        } else {
            0
        },
        TypeV::FixedArray(ty, dims) => type_slots(*ty, c, limit) * dims_product(dims),
        TypeV::Ref(r) => type_slots(*r, c, limit),
        TypeV::StorageRef(r) => type_slots(*r, c, limit),
        TypeV::Undef => 0,
    }
}

/// The storage slots of the first `k` fields of struct `n`, added up.
pub open spec fn fields_slots(c: Contract, n: nat, k: nat) -> int
    decreases n, 1nat, k,
{
    if k == 0 || n >= c.structs@.len() || k > c.structs@[n as int].fields@.len() {
        0
    } else {
        fields_slots(c, n, (k - 1) as nat) + type_slots(c.structs@[n as int].fields@[k - 1].ty@, c, n)
    }
}

impl Type {
    /// How many storage slots a value of the type takes (see `type_slots`);
    /// storage arrays can be very large.
    pub fn storage_slots(&self, ns: &Contract) -> (r: BigNum)
        requires
            ns.wf(),
            type_wf(*self, ns.enums@.len(), ns.structs@.len()),
            defined(self@),
        ensures
            r@ == type_slots(self@, *ns, ns.structs@.len()),
    {
        self.slots_bounded(ns, ns.structs.len())
    }

    /// `storage_slots` counting only the structs before `limit`.
    fn slots_bounded(&self, ns: &Contract, limit: usize) -> (r: BigNum)
        requires
            ns.wf(),
            limit <= ns.structs@.len(),
            type_wf(*self, ns.enums@.len(), limit as nat),
        ensures
            r@ == type_slots(self@, *ns, limit as nat),
        decreases limit, 0nat, crate::emit::nesting(self@),
    {
        match self {
            Type::Primitive(_) | Type::Enum(_) => BigNum::from_u64(1),
            Type::Struct(n) => {
                let fields = &ns.structs[*n].fields;
                let mut total = BigNum::zero();
                let mut k: usize = 0;
                while k < fields.len()
                    invariant
                        ns.wf(),
                        *n < limit <= ns.structs@.len(),
                        fields == ns.structs@[*n as int].fields,
                        0 <= k <= fields@.len(),
                        total@ == fields_slots(*ns, *n as nat, k as nat),
                    decreases fields@.len() - k,
                {
                    assert(type_wf(ns.structs@[*n as int].fields@[k as int].ty, ns.enums@.len(), *n as nat));
                    let f = fields[k].ty.slots_bounded(ns, *n);
                    total = big_add(&total, &f);
                    k += 1;
                }
                total
            },
            Type::FixedArray(ty, dims) => {
                let mut slots = ty.slots_bounded(ns, limit);
                let mut i: usize = 0;
                while i < dims.len()
                    invariant
                        0 <= i <= dims@.len(),
                        slots@ == type_slots(ty@, *ns, limit as nat) * dims_product(dims_view(dims@).take(i as int)),
                    decreases dims@.len() - i,
                {
                    slots = big_mul(&slots, &dims[i]);
                    proof {
                        let t = dims_view(dims@).take(i + 1);
                        assert(t.drop_last() =~= dims_view(dims@).take(i as int));
                        vstd::arithmetic::mul::lemma_mul_is_associative(
                            type_slots(ty@, *ns, limit as nat), dims_product(t.drop_last()), t.last());
                    }
                    i += 1;
                }
                assert(dims_view(dims@).take(dims@.len() as int) =~= dims_view(dims@));
                slots
            },
            Type::Ref(r) => r.slots_bounded(ns, limit),
            Type::StorageRef(r) => r.slots_bounded(ns, limit),
            Type::Undef => BigNum::zero(),
        }
    }
}

/// The width of the unsigned integer that holds the values of an enum with
/// `n` values: the bits that `n - 1` needs, rounded up to whole bytes, and at
/// least 8.
pub open spec fn enum_width(n: nat) -> nat {
    let bits = bit_length((n - 1) as nat);
    if bits <= 8 { 8 } else { ((bits + 7) / 8) * 8 }
}

/// The values of an enum as declared: each name with its location and
/// position, where it is written first; a repeated name is left out.
pub open spec fn enum_entries(vs: Seq<ast::Identifier>) -> Seq<(Seq<char>, Loc, nat)>
    decreases vs.len(),
{
    if vs.len() == 0 {
        Seq::empty()
    } else {
        let prev = enum_entries(vs.drop_last());
        if exists|k: int| 0 <= k < prev.len() && (#[trigger] prev[k]).0 == vs.last().name@ {
            prev
        } else {
            prev.push((vs.last().name@, vs.last().loc, (vs.len() - 1) as nat))
        }
    }
}

/// The first value kept so far that has the name.
pub open spec fn first_named(prev: Seq<(Seq<char>, Loc, nat)>, name: Seq<char>) -> int {
    choose|k: int| 0 <= k < prev.len() && (#[trigger] prev[k]).0 == name
        && forall|j: int| 0 <= j < k ==> (#[trigger] prev[j]).0 != name
}

/// The errors for repeated value names, in order: where each repeat was
/// written, its message, and where the first value of that name was.
pub open spec fn enum_dups(vs: Seq<ast::Identifier>) -> Seq<(Loc, Seq<char>, Loc)>
    decreases vs.len(),
{
    if vs.len() == 0 {
        Seq::empty()
    } else {
        let prev = enum_entries(vs.drop_last());
        let d = enum_dups(vs.drop_last());
        if exists|k: int| 0 <= k < prev.len() && (#[trigger] prev[k]).0 == vs.last().name@ {
            d.push((vs.last().loc, "duplicate enum value "@ + vs.last().name@, prev[first_named(prev, vs.last().name@)].1))
        } else {
            d
        }
    }
}

/// The values of an enum declaration, as mathematical values.
pub open spec fn entries_view(values: Seq<(String, Loc, usize)>) -> Seq<(Seq<char>, Loc, nat)> {
    values.map_values(|e: (String, Loc, usize)| (e.0@, e.1, e.2 as nat))
}

/// Resolve an enum definition: its type is the narrowest unsigned integer of
/// whole bytes, at least `uint8`, that holds its values; each value name that
/// is repeated is an error "duplicate enum value" with a note at the first.
pub fn enum_decl(enum_: &ast::EnumDefinition, errors: &mut Vec<Output>) -> (r: EnumDecl)
    requires
        enum_.values@.len() >= 1,
    ensures
        r.name@ == enum_.name.name@,
        r.ty == PrimitiveType::Uint(enum_width(enum_.values@.len()) as u16),
        entries_view(r.values@) == enum_entries(enum_.values@),
        extends(old(errors)@, final(errors)@),
        final(errors)@.len() == old(errors)@.len() + enum_.values@.len() - r.values@.len(),
        forall|i: int| old(errors)@.len() <= i < final(errors)@.len() ==> (#[trigger] final(errors)@[i]).level == Level::Error,
        final(errors)@.len() == old(errors)@.len() + enum_dups(enum_.values@).len(),
        forall|t: int| 0 <= t < enum_dups(enum_.values@).len() ==> is_diag_note(#[trigger] final(errors)@[old(errors)@.len() + t],
            Level::Error, ErrorType::SyntaxError, enum_dups(enum_.values@)[t].0, enum_dups(enum_.values@)[t].1,
            enum_dups(enum_.values@)[t].2, "location of previous definition"@),
{
    let n = enum_.values.len();
    let mut v: u64 = (n - 1) as u64;
    let mut bits: u64 = 0;
    proof {
        if v > 0 {
            lemma_bit_length_u64(v as nat);
        }
    }
    while v > 0
        invariant
            bits + bit_length(v as nat) == bit_length((n - 1) as nat),
            bits <= 64 - bit_length(v as nat),
            bit_length(v as nat) <= 64,
        decreases v,
    {
        proof {
            lemma_bit_length_u64(v as nat);
            if v / 2 > 0 {
                lemma_bit_length_u64((v / 2) as nat);
            }
        }
        v = v / 2;
        bits += 1;
    }
    let width: u64 = if bits <= 8 { 8 } else { ((bits + 7) / 8) * 8 };
    let mut entries: Vec<(String, Loc, usize)> = Vec::new();
    let mut i: usize = 0;
    while i < n
        invariant
            0 <= i <= n,
            n == enum_.values@.len(),
            entries_view(entries@) == enum_entries(enum_.values@.take(i as int)),
            entries@.len() <= i,
            extends(old(errors)@, errors@),
            errors@.len() == old(errors)@.len() + i - entries@.len(),
            forall|j: int| old(errors)@.len() <= j < errors@.len() ==> (#[trigger] errors@[j]).level == Level::Error,
            errors@.len() == old(errors)@.len() + enum_dups(enum_.values@.take(i as int)).len(),
            forall|t: int| 0 <= t < enum_dups(enum_.values@.take(i as int)).len() ==> is_diag_note(#[trigger] errors@[old(errors)@.len() + t],
                Level::Error, ErrorType::SyntaxError, enum_dups(enum_.values@.take(i as int))[t].0,
                enum_dups(enum_.values@.take(i as int))[t].1, enum_dups(enum_.values@.take(i as int))[t].2,
                "location of previous definition"@),
        decreases n - i,
    {
        let e = &enum_.values[i];
        proof {
            assert(enum_.values@.take(i + 1).drop_last() =~= enum_.values@.take(i as int));
            assert(enum_.values@.take(i + 1).last() == enum_.values@[i as int]);
        }
        let mut k: usize = 0;
        let mut found: Option<usize> = None;
        while k < entries.len()
            invariant
                0 <= k <= entries@.len(),
                found matches Some(f) ==> f < entries@.len() && entries@[f as int].0@ == e.name@
                    && forall|j: int| 0 <= j < f ==> (#[trigger] entries@[j]).0@ != e.name@,
                found is None ==> forall|j: int| 0 <= j < k ==> (#[trigger] entries@[j]).0@ != e.name@,
            decreases entries@.len() - k,
        {
            if found.is_none() && entries[k].0 == e.name {
                found = Some(k);
            }
            k += 1;
        }
        let ghost prev = entries_view(entries@);
        match found {
            Some(f) => {
                assert(prev[f as int].0 == e.name@);
                assert forall|j: int| 0 <= j < f implies (#[trigger] prev[j]).0 != e.name@ by {
                    assert(entries@[j].0@ != e.name@);
                }
                let ghost k = first_named(prev, e.name@);
                assert(k == f as int);
                proof { reveal_strlit("duplicate enum value "); }
                let msg = join2("duplicate enum value ", e.name.as_str());
                let ghost eb = errors@;
                push_error(errors, Output::error_with_note(e.loc, msg, entries[f].1, String::from_str("location of previous definition")));
                assert(enum_dups(enum_.values@.take(i + 1)) == enum_dups(enum_.values@.take(i as int)).push(
                    (e.loc, "duplicate enum value "@ + e.name@, prev[f as int].1)));
                assert forall|t: int| 0 <= t < enum_dups(enum_.values@.take(i + 1)).len() implies is_diag_note(#[trigger] errors@[old(errors)@.len() + t],
                    Level::Error, ErrorType::SyntaxError, enum_dups(enum_.values@.take(i + 1))[t].0,
                    enum_dups(enum_.values@.take(i + 1))[t].1, enum_dups(enum_.values@.take(i + 1))[t].2,
                    "location of previous definition"@) by {
                    if t < enum_dups(enum_.values@.take(i as int)).len() {
                        assert(errors@[old(errors)@.len() + t] == eb[old(errors)@.len() + t]);
                    }
                }
            },
            None => {
                assert(!exists|j: int| 0 <= j < prev.len() && (#[trigger] prev[j]).0 == e.name@) by {
                    assert forall|j: int| 0 <= j < prev.len() implies (#[trigger] prev[j]).0 != e.name@ by {
                        assert(entries@[j].0@ != e.name@);
                    }
                }
                entries.push((e.name.clone(), e.loc, i));
                assert(entries_view(entries@) =~= prev.push((e.name@, e.loc, i as nat)));
                assert(enum_dups(enum_.values@.take(i + 1)) == enum_dups(enum_.values@.take(i as int)));
            },
        }
        i += 1;
    }
    assert(enum_.values@.take(n as int) =~= enum_.values@);
    EnumDecl { name: enum_.name.name.clone(), ty: PrimitiveType::Uint(width as u16), values: entries }
}

/// Arrays and structs are passed by reference, not on the stack.
pub open spec fn stack_based(t: Type) -> bool {
    t is FixedArray || t is Struct
}

impl Type {
    /// Is a value of this type passed by reference rather than on the stack?
    pub fn stack_based(&self) -> (r: bool)
        ensures
            r == stack_based(*self),
    {
        match self {
            Type::FixedArray(_, _) | Type::Struct(_) => true,
            _ => false,
        }
    }
}

/// The signature texts of the types of a parameter list.
pub open spec fn param_sig_parts(ps: Seq<Parameter>, c: Contract) -> Seq<Seq<char>> {
    ps.map_values(|p: Parameter| signature_text(p.ty, c))
}

/// `name(t1,t2,...)`: the signature of a function with these parameters.
pub open spec fn signature_of(name: Seq<char>, ps: Seq<Parameter>, c: Contract) -> Seq<char> {
    name + "("@ + joined(param_sig_parts(ps, c), ","@) + ")"@
}

/// A parameter of an enum type appears in a signature as the enum's integer
/// type, as the ABI requires: a function taking an enum has the signature,
/// and so the selector, of the same function taking that integer type in its
/// place, `f(E)` for an enum `E` of type `uint8` being `f(uint8)`.
pub proof fn law_enum_parameter_signs_as_its_integer(name: Seq<char>, ps: Seq<Parameter>, qs: Seq<Parameter>, c: Contract)
    requires
        ps.len() == qs.len(),
        forall|i: int| 0 <= i < ps.len() ==> (#[trigger] ps[i]).ty == qs[i].ty
            || (ps[i].ty matches Type::Enum(n) && qs[i].ty == Type::Primitive(c.enums@[n as int].ty)),
    ensures
        signature_of(name, ps, c) == signature_of(name, qs, c),
        selector_of(signature_of(name, ps, c)) == selector_of(signature_of(name, qs, c)),
{
    assert forall|i: int| 0 <= i < ps.len() implies signature_text((#[trigger] ps[i]).ty, c) == signature_text(qs[i].ty, c) by {
        if ps[i].ty != qs[i].ty {
            let n = ps[i].ty->Enum_0;
            assert(signature_text(Type::Primitive(c.enums@[n as int].ty), c) == primitive_name(c.enums@[n as int].ty));
        }
    }
    assert(param_sig_parts(ps, c) =~= param_sig_parts(qs, c));
}

/// The selector of a signature: the first four bytes of its Keccak-256 hash,
/// read as a little endian number.
pub open spec fn selector_of(sig: Seq<char>) -> u32 {
    let h = keccak_256(vstd::utf8::encode_utf8(sig));
    (h[0] as int + h[1] as int * 0x100 + h[2] as int * 0x10000 + h[3] as int * 0x1000000) as u32
}

/// The type has no undefined part.
pub open spec fn defined(t: TypeV) -> bool
    decreases t,
{
    match t {
        TypeV::Undef => false,
        TypeV::FixedArray(ty, _) => defined(*ty),
        TypeV::Ref(ty) => defined(*ty),
        TypeV::StorageRef(ty) => defined(*ty),
        _ => true,
    }
}

/// How a type is spelled in a wasm symbol.
pub open spec fn wasm_name(t: Type, c: Contract) -> Seq<char>
    decreases t,
{
    match t {
        Type::Primitive(e) => primitive_name(e),
        Type::Enum(n) => c.enums@[n as int].name@,
        Type::Struct(n) => c.structs@[n as int].name@,
        Type::FixedArray(ty, dims) => type_text(*ty, c) + dims_symbol(dims_view(dims@)),
        Type::Ref(r) => wasm_name(*r, c),
        Type::StorageRef(r) => wasm_name(*r, c),
        Type::Undef => Seq::empty(),
    }
}

/// The wasm symbol of a function: its name, and where it has parameters,
/// `__` and their types joined by `_`.
pub open spec fn wasm_symbol_of(name: Seq<char>, ps: Seq<Parameter>, c: Contract) -> Seq<char> {
    if ps.len() == 0 {
        name
    } else {
        name + "__"@ + joined(ps.map_values(|p: Parameter| wasm_name(p.ty, c)), "_"@)
    }
}

/// Append `:d` for each dimension to `s`.
fn push_dims_symbol(s: &mut String, dims: &Vec<BigNum>)
    ensures
        final(s)@ == old(s)@ + dims_symbol(dims_view(dims@)),
{
    let mut i: usize = 0;
    while i < dims.len()
        invariant
            0 <= i <= dims@.len(),
            s@ == old(s)@ + dims_symbol(dims_view(dims@.take(i as int))),
        decreases dims@.len() - i,
    {
        s.append(":");
        let d = big_to_decimal(&dims[i]);
        s.append(d.as_str());
        proof {
            reveal_strlit(":");
            let t = dims_view(dims@.take(i + 1));
            assert(t.drop_last() =~= dims_view(dims@.take(i as int)));
            assert(s@ =~= old(s)@ + dims_symbol(t));
        }
        i += 1;
    }
    assert(dims@.take(dims@.len() as int) =~= dims@);
}

/// The spelling of a type in a wasm symbol.
fn type_to_wasm_name(ty: &Type, ns: &Contract) -> (r: String)
    requires
        ns.wf(),
        type_wf(*ty, ns.enums@.len(), ns.structs@.len()),
        defined(ty@),
    ensures
        r@ == wasm_name(*ty, *ns),
    decreases ty,
{
    match ty {
        Type::Primitive(e) => e.to_string(),
        Type::Enum(i) => ns.enums[*i].name.clone(),
        Type::Struct(i) => ns.structs[*i].name.clone(),
        Type::FixedArray(t, len) => {
            let mut s = t.to_string(ns);
            push_dims_symbol(&mut s, len);
            s
        },
        Type::Ref(r) => type_to_wasm_name(r, ns),
        Type::StorageRef(r) => type_to_wasm_name(r, ns),
        Type::Undef => String::new(),
    }
}

impl FunctionDecl {
    /// A function declaration with its signature, `name(t1,t2,...)`; a single
    /// return value that is not an array or struct is returned the wasm way.
    pub fn new(
        loc: Loc,
        name: String,
        doc: Vec<String>,
        fallback: bool,
        ast_index: Option<usize>,
        mutability: Option<ast::StateMutability>,
        visibility: ast::Visibility,
        params: Vec<Parameter>,
        results: Vec<Parameter>,
        ns: &Contract,
    ) -> (r: FunctionDecl)
        requires
            ns.wf(),
            params_wf(params@, *ns),
        ensures
            r.loc == loc,
            r.name == name,
            r.doc == doc,
            r.fallback == fallback,
            r.ast_index == ast_index,
            r.mutability == mutability,
            r.visibility == visibility,
            r.params == params,
            r.returns == results,
            r.signature@ == signature_of(name@, params@, *ns),
            r.wasm_return == (results@.len() == 1 && !stack_based(results@[0].ty)),
            r.cfg is None,
    {
        let mut signature = name.clone();
        let ghost start = signature@;
        proof { reveal_strlit("("); reveal_strlit(","); reveal_strlit(")"); }
        signature.append("(");
        let mut i: usize = 0;
        while i < params.len()
            invariant
                0 <= i <= params@.len(),
                ns.wf(),
                params_wf(params@, *ns),
                signature@ == start + "("@ + joined(param_sig_parts(params@.take(i as int), *ns), ","@),
            decreases params@.len() - i,
        {
            if i > 0 {
                signature.append(",");
            }
            assert(type_wf(params@[i as int].ty, ns.enums@.len(), ns.structs@.len()));
            let t = params[i].ty.to_signature_string(ns);
            signature.append(t.as_str());
            proof {
                let parts = param_sig_parts(params@.take(i + 1), *ns);
                assert(parts.drop_last() =~= param_sig_parts(params@.take(i as int), *ns));
                assert(signature@ =~= start + "("@ + joined(parts, ","@));
            }
            i += 1;
        }
        signature.append(")");
        assert(params@.take(params@.len() as int) =~= params@);
        let wasm_return = results.len() == 1 && !results[0].ty.stack_based();
        FunctionDecl {
            doc,
            loc,
            name,
            fallback,
            signature,
            ast_index,
            mutability,
            visibility,
            params,
            returns: results,
            wasm_return,
            cfg: None,
        }
    }

    /// The selector of the function: the first four bytes of the Keccak-256
    /// hash of its signature, as a little endian number.
    pub fn selector(&self) -> (r: u32)
        ensures
            r == selector_of(self.signature@),
    {
        let res = keccak256(self.signature.as_str().as_bytes_vec().as_slice());
        res[0] as u32 + res[1] as u32 * 0x100 + res[2] as u32 * 0x10000 + res[3] as u32 * 0x1000000
    }

    /// A name for the function that is unique among its overloads and valid as
    /// a wasm symbol.
    pub fn wasm_symbol(&self, ns: &Contract) -> (r: String)
        requires
            ns.wf(),
            params_wf(self.params@, *ns),
            forall|i: int| 0 <= i < self.params@.len() ==> defined((#[trigger] self.params@[i]).ty@),
        ensures
            r@ == wasm_symbol_of(self.name@, self.params@, *ns),
    {
        let mut sig = self.name.clone();
        if self.params.len() > 0 {
            let ghost start = sig@;
            proof { reveal_strlit("__"); reveal_strlit("_"); }
            sig.append("__");
            let mut i: usize = 0;
            while i < self.params.len()
                invariant
                    0 <= i <= self.params@.len(),
                    ns.wf(),
                    params_wf(self.params@, *ns),
                    forall|j: int| 0 <= j < self.params@.len() ==> defined((#[trigger] self.params@[j]).ty@),
                    sig@ == start + "__"@ + joined(self.params@.take(i as int).map_values(|p: Parameter| wasm_name(p.ty, *ns)), "_"@),
                decreases self.params@.len() - i,
            {
                if i > 0 {
                    sig.append("_");
                }
                assert(type_wf(self.params@[i as int].ty, ns.enums@.len(), ns.structs@.len()));
                assert(defined(self.params@[i as int].ty@));
                let t = type_to_wasm_name(&self.params[i].ty, ns);
                sig.append(t.as_str());
                proof {
                    let parts = self.params@.take(i + 1).map_values(|p: Parameter| wasm_name(p.ty, *ns));
                    assert(parts.drop_last() =~= self.params@.take(i as int).map_values(|p: Parameter| wasm_name(p.ty, *ns)));
                    assert(sig@ =~= start + "__"@ + joined(parts, "_"@));
                }
                i += 1;
            }
            assert(self.params@.take(self.params@.len() as int) =~= self.params@);
        }
        sig
    }
}

/// A number is below 2 to the power of its bit length, and, when it is not
/// zero, at least 2 to the power of one less.
pub proof fn lemma_bit_length_pow2(v: nat)
    ensures
        v < vstd::arithmetic::power2::pow2(bit_length(v)),
        v > 0 ==> vstd::arithmetic::power2::pow2((bit_length(v) - 1) as nat) <= v,
    decreases v,
{
    vstd::arithmetic::power2::lemma2_to64();
    if v > 0 {
        lemma_bit_length_pow2(v / 2);
        let b = bit_length(v);
        vstd::arithmetic::power2::lemma_pow2_unfold(b);
        if v / 2 > 0 {
            vstd::arithmetic::power2::lemma_pow2_unfold((b - 1) as nat);
        }
    }
}

/// The type of an enum is the narrowest unsigned integer of whole bytes,
/// at least 8 bits wide, that holds the positions of all its values.
pub proof fn lemma_enum_width(n: nat)
    requires
        n >= 1,
    ensures
        enum_width(n) % 8 == 0,
        enum_width(n) >= 8,
        n - 1 < vstd::arithmetic::power2::pow2(enum_width(n)),
        enum_width(n) > 8 ==> vstd::arithmetic::power2::pow2((enum_width(n) - 8) as nat) <= n - 1,
{
    let v = (n - 1) as nat;
    let b = bit_length(v);
    let w = enum_width(n);
    lemma_bit_length_pow2(v);
    assert(w >= b);
    if w > b {
        vstd::arithmetic::power2::lemma_pow2_strictly_increases(b, w);
    }
    if w > 8 {
        assert(b > 8);
        assert(w - 8 <= b - 1);
        if w - 8 < b - 1 {
            vstd::arithmetic::power2::lemma_pow2_strictly_increases((w - 8) as nat, (b - 1) as nat);
        }
    }
}

/// Halving a number that fits 64 bits takes one bit off.
proof fn lemma_bit_length_u64(v: nat)
    requires
        0 < v <= u64::MAX,
    ensures
        bit_length(v) == 1 + bit_length(v / 2),
        bit_length(v) <= 64,
{
    vstd::arithmetic::power2::lemma2_to64();
    lemma_bit_length_bound(v, 64);
}

/// A number below `2^k` needs at most `k` bits.
proof fn lemma_bit_length_bound(v: nat, k: nat)
    requires
        v < vstd::arithmetic::power2::pow2(k),
    ensures
        bit_length(v) <= k,
    decreases v,
{
    if v > 0 {
        if k > 0 {
            vstd::arithmetic::power2::lemma_pow2_unfold(k);
            assert(v / 2 < vstd::arithmetic::power2::pow2((k - 1) as nat));
            lemma_bit_length_bound(v / 2, (k - 1) as nat);
        } else {
            vstd::arithmetic::power2::lemma2_to64();
        }
    }
}

} // verus!
