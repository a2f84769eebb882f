//! Substrate style metadata of a contract: a registry of strings and types,
//! the storage layout, and the constructors and messages.
use crate::ast::{PrimitiveType, primitive_name};
use crate::bignum::{nat_decimal, u64_to_decimal};
use crate::output::push_char;
use crate::resolver;
use crate::resolver::{Type as SolType, TypeV, ContractVariable, ContractVariableType, FunctionDecl, Parameter, selector_of, type_wf, params_wf};
use vstd::prelude::*;

verus! {

/// The metadata: the registry, the storage layout and the contract.
#[derive(Debug)]
pub struct Metadata {
    pub registry: Registry,
    pub storage: Storage,
    pub contract: Contract,
}

/// Strings and types, each referred to by its position counted from 1.
#[derive(Debug)]
pub struct Registry {
    pub strings: Vec<String>,
    pub types: Vec<Type>,
}

/// A type in the registry: a builtin one by its name, or a struct.
#[derive(Debug)]
pub enum Type {
    Builtin { id: String, def: String },
    Struct { id: CustomID, def: StructDef },
}

/// The contract: its name, constructors and messages.
#[derive(Debug)]
pub struct Contract {
    pub name: usize,
    pub constructors: Vec<Constructor>,
    pub messages: Vec<Message>,
}

/// The name of a struct type, with its name space and parameters.
#[derive(Debug)]
pub struct CustomID {
    pub name: usize,
    pub namespace: Vec<usize>,
    pub params: Vec<usize>,
}

/// The fields of a struct type.
#[derive(Debug)]
pub struct StructDef {
    pub fields: Vec<StructField>,
}

/// A field of a struct type: its name and type.
#[derive(Debug)]
pub struct StructField {
    pub name: usize,
    pub ty: usize,
}

/// A constructor: its name, selector and arguments.
#[derive(Debug)]
pub struct Constructor {
    pub name: usize,
    pub selector: u32,
    pub args: Vec<Param>,
}

/// A message: its name, selector, whether it changes state, its arguments
/// and its return type.
#[derive(Debug)]
pub struct Message {
    pub name: usize,
    pub selector: u32,
    pub mutates: bool,
    pub args: Vec<Param>,
    pub return_type: Option<ParamType>,
}

/// An argument: its name and type.
#[derive(Debug)]
pub struct Param {
    pub name: usize,
    pub ty: ParamType,
}

/// A type as used in a signature: the registry type and its display name.
#[derive(Debug)]
pub struct ParamType {
    pub ty: usize,
    pub display_name: Vec<usize>,
}

/// A storage layout: its struct type and fields.
#[derive(Debug)]
pub struct Storage {
    pub ty: usize,
    pub fields: Vec<StorageLayout>,
}

/// Where a field lives in storage: its offset, length and type.
#[derive(Debug)]
pub struct LayoutField {
    pub offset: String,
    pub len: usize,
    pub ty: usize,
}

/// A named part of the storage layout.
#[derive(Debug)]
pub struct StorageLayout {
    pub name: usize,
    pub layout: StorageFieldLayout,
}

/// A part of the storage layout: one field, or a nested layout.
#[derive(Debug)]
pub enum StorageFieldLayout {
    Field(LayoutField),
    Storage(Box<Storage>),
}

/// The strings of the registry, as text.
pub open spec fn strings_view(v: Seq<String>) -> Seq<Seq<char>> {
    v.map_values(|s: String| s@)
}

/// The names of the builtin types of the registry, and `None` for structs.
pub open spec fn builtin_ids(v: Seq<Type>) -> Seq<Option<Seq<char>>> {
    v.map_values(|t: Type| match t {
        Type::Builtin { id, .. } => Some(id@),
        _ => None,
    })
}

impl Registry {
    /// No string and no builtin type is in the registry twice.
    pub open spec fn wf(&self) -> bool {
        &&& forall|i: int, j: int| 0 <= i < j < self.strings@.len() ==>
            (#[trigger] self.strings@[i])@ != (#[trigger] self.strings@[j])@
        &&& forall|i: int, j: int| 0 <= i < j < self.types@.len() ==>
            (builtin_ids(self.types@)[i] is Some ==> #[trigger] builtin_ids(self.types@)[i] != #[trigger] builtin_ids(self.types@)[j])
    }

    /// The string at a position counted from 1.
    pub open spec fn str_at(&self, index: int) -> Seq<char> {
        self.strings@[index - 1]@
    }

    /// An empty registry.
    pub fn new() -> (r: Registry)
        ensures
            r.strings@.len() == 0,
            r.types@.len() == 0,
            r.wf(),
    {
        Registry { strings: Vec::new(), types: Vec::new() }
    }

    /// The position, counted from 1, of a string; it is added where it is
    /// not there yet.
    pub fn string(&mut self, name: &str) -> (r: usize)
        requires
            old(self).wf(),
        ensures
            final(self).wf(),
            final(self).types == old(self).types,
            1 <= r <= final(self).strings@.len(),
            final(self).str_at(r as int) == name@,
            strings_view(old(self).strings@).contains(name@) ==> final(self).strings@ == old(self).strings@,
            !strings_view(old(self).strings@).contains(name@) ==> {
                &&& final(self).strings@.len() == old(self).strings@.len() + 1
                &&& final(self).strings@.drop_last() == old(self).strings@
                &&& r == final(self).strings@.len()
            },
    {
        let key = String::from_str(name);
        let mut i: usize = 0;
        while i < self.strings.len()
            invariant
                0 <= i <= self.strings@.len(),
                *self == *old(self),
                self.wf(),
                key@ == name@,
                forall|j: int| 0 <= j < i ==> (#[trigger] self.strings@[j])@ != name@,
            decreases self.strings@.len() - i,
        {
            if self.strings[i] == key {
                proof {
                    assert(strings_view(self.strings@)[i as int] == name@);
                }
                return i + 1;
            }
            i += 1;
        }
        proof {
            assert forall|j: int| 0 <= j < strings_view(self.strings@).len() implies
                #[trigger] strings_view(self.strings@)[j] != name@ by {
                assert(strings_view(self.strings@)[j] == self.strings@[j]@);
            }
        }
        let ghost before = self.strings@;
        self.strings.push(key);
        proof {
            assert forall|a: int, b: int| 0 <= a < b < self.strings@.len() implies
                (#[trigger] self.strings@[a])@ != (#[trigger] self.strings@[b])@ by {
                assert(self.strings@[a] == before[a]);
                if b < before.len() {
                    assert(self.strings@[b] == before[b]);
                }
            }
        }
        self.strings.len()
    }

    /// The string at a position counted from 1.
    pub fn get_str(&self, index: usize) -> (r: &str)
        requires
            1 <= index <= self.strings@.len(),
        ensures
            r@ == self.str_at(index as int),
    {
        self.strings[index - 1].as_str()
    }

    /// The position, counted from 1, of a builtin type; it is added where it
    /// is not there yet.
    pub fn builtin_type(&mut self, ty: &str) -> (r: usize)
        requires
            old(self).wf(),
        ensures
            final(self).wf(),
            final(self).strings == old(self).strings,
            1 <= r <= final(self).types@.len(),
            builtin_ids(final(self).types@)[r - 1] == Some(ty@),
            builtin_ids(old(self).types@).contains(Some(ty@)) ==> final(self).types@ == old(self).types@,
            !builtin_ids(old(self).types@).contains(Some(ty@)) ==> {
                &&& final(self).types@.len() == old(self).types@.len() + 1
                &&& final(self).types@.drop_last() == old(self).types@
                &&& r == final(self).types@.len()
                &&& final(self).types@.last() matches Type::Builtin { id, def } && id@ == ty@ && def@ == "builtin"@
            },
    {
        let key = String::from_str(ty);
        let mut i: usize = 0;
        while i < self.types.len()
            invariant
                0 <= i <= self.types@.len(),
                *self == *old(self),
                self.wf(),
                key@ == ty@,
                forall|j: int| 0 <= j < i ==> builtin_ids(self.types@)[j] != Some(ty@),
            decreases self.types@.len() - i,
        {
            match &self.types[i] {
                Type::Builtin { id, .. } => {
                    if *id == key {
                        assert(builtin_ids(self.types@)[i as int] == Some(ty@));
                        return i + 1;
                    }
                },
                _ => {},
            }
            i += 1;
        }
        proof {
            assert forall|j: int| 0 <= j < builtin_ids(self.types@).len() implies
                #[trigger] builtin_ids(self.types@)[j] != Some(ty@) by {}
        }
        let ghost before = self.types@;
        proof { reveal_strlit("builtin"); }
        self.types.push(Type::Builtin { id: key, def: String::from_str("builtin") });
        proof {
            let ids = builtin_ids(self.types@);
            assert(ids.drop_last() =~= builtin_ids(before));
            assert forall|a: int, b: int| 0 <= a < b < self.types@.len() implies
                (builtin_ids(self.types@)[a] is Some ==> #[trigger] builtin_ids(self.types@)[a] != #[trigger] builtin_ids(self.types@)[b]) by {
                assert(ids[a] == builtin_ids(before)[a]);
                if b < before.len() {
                    assert(ids[b] == builtin_ids(before)[b]);
                }
            }
        }
        self.types.len()
    }

    /// Add a struct type with this name and these fields; its name is added
    /// to the strings where it is not there yet.
    pub fn struct_type(&mut self, name: &str, fields: Vec<StructField>) -> (r: usize)
        requires
            old(self).wf(),
        ensures
            final(self).wf(),
            final(self).types@.len() == old(self).types@.len() + 1,
            final(self).types@.drop_last() == old(self).types@,
            r == final(self).types@.len(),
            final(self).types@.last() matches Type::Struct { id, def } && final(self).str_at(id.name as int) == name@
                && 1 <= id.name <= final(self).strings@.len() && id.namespace@.len() == 0 && id.params@.len() == 0
                && def.fields@ == fields@,
            strings_view(old(self).strings@).contains(name@) ==> final(self).strings@ == old(self).strings@,
            !strings_view(old(self).strings@).contains(name@) ==> final(self).strings@.drop_last() == old(self).strings@,
    {
        let name = self.string(name);
        let ghost before = self.types@;
        self.types.push(Type::Struct {
            id: CustomID { name, namespace: Vec::new(), params: Vec::new() },
            def: StructDef { fields },
        });
        proof {
            let ids = builtin_ids(self.types@);
            assert(ids.drop_last() =~= builtin_ids(before));
            assert(ids.last() is None);
            assert forall|a: int, b: int| 0 <= a < b < self.types@.len() implies
                (builtin_ids(self.types@)[a] is Some ==> #[trigger] builtin_ids(self.types@)[a] != #[trigger] builtin_ids(self.types@)[b]) by {
                assert(ids[a] == builtin_ids(before)[a]);
                if b < before.len() {
                    assert(ids[b] == builtin_ids(before)[b]);
                }
            }
        }
        self.types.len()
    }
}

/// A Solidity type that has a scale type: `bool` and integers, or an enum.
pub open spec fn scale_primitive(t: SolType, c: resolver::Contract) -> Option<PrimitiveType> {
    let p = match t {
        SolType::Primitive(e) => Some(e),
        SolType::Enum(i) => Some(c.enums@[i as int].ty),
        _ => None,
    };
    match p {
        Some(PrimitiveType::Bool) => p,
        Some(PrimitiveType::Uint(_)) => p,
        Some(PrimitiveType::Int(_)) => p,
        _ => None,
    }
}

/// The scale name of a Solidity type: `bool`, `u<n>` or `i<n>`.
pub open spec fn scale_name(p: PrimitiveType) -> Seq<char> {
    match p {
        PrimitiveType::Bool => "bool"@,
        PrimitiveType::Uint(n) => "u"@ + nat_decimal(n as nat),
        PrimitiveType::Int(n) => "i"@ + nat_decimal(n as nat),
        _ => Seq::empty(),
    }
}

/// The length in bytes of a scale type.
pub open spec fn scale_len(p: PrimitiveType) -> nat {
    match p {
        PrimitiveType::Bool => 1,
        PrimitiveType::Uint(n) => (n / 8) as nat,
        PrimitiveType::Int(n) => (n / 8) as nat,
        _ => 0,
    }
}

/// The scale type of a Solidity type, with its length in bytes.
pub fn solty_to_scalety(ty: &SolType, contract: &resolver::Contract) -> (r: (String, usize))
    requires
        contract.wf(),
        type_wf(*ty, contract.enums@.len(), contract.structs@.len()),
        scale_primitive(*ty, *contract) is Some,
    ensures
        r.0@ == scale_name(scale_primitive(*ty, *contract).unwrap()),
        r.1 == scale_len(scale_primitive(*ty, *contract).unwrap()),
{
    let solty = match ty {
        SolType::Primitive(e) => *e,
        SolType::Enum(i) => contract.enums[*i].ty,
        _ => PrimitiveType::Bool,
    };
    proof { reveal_strlit("bool"); reveal_strlit("u"); reveal_strlit("i"); }
    match solty {
        PrimitiveType::Uint(n) => {
            let s = String::from_str("u").concat(u64_to_decimal(n as u64).as_str());
            (s, (n / 8) as usize)
        },
        PrimitiveType::Int(n) => {
            let s = String::from_str("i").concat(u64_to_decimal(n as u64).as_str());
            (s, (n / 8) as usize)
        },
        _ => (String::from_str("bool"), 1),
    }
}

/// The registry `b` holds the strings and types of `a` at the same places.
pub open spec fn reg_grew(a: Registry, b: Registry) -> bool {
    &&& a.strings@.len() <= b.strings@.len()
    &&& forall|i: int| 0 <= i < a.strings@.len() ==> #[trigger] b.strings@[i] == a.strings@[i]
    &&& a.types@.len() <= b.types@.len()
    &&& forall|i: int| 0 <= i < a.types@.len() ==> #[trigger] b.types@[i] == a.types@[i]
}

/// A string of the registry: a valid position with this text.
pub open spec fn names(reg: Registry, k: usize, s: Seq<char>) -> bool {
    1 <= k <= reg.strings@.len() && reg.str_at(k as int) == s
}

/// The type of a signature for a scale type: the builtin type of its scale
/// name, shown by its Solidity name.
pub open spec fn param_type_ok(pt: ParamType, p: PrimitiveType, reg: Registry) -> bool {
    &&& 1 <= pt.ty <= reg.types@.len()
    &&& builtin_ids(reg.types@)[pt.ty - 1] == Some(scale_name(p))
    &&& pt.display_name@.len() == 1
    &&& names(reg, pt.display_name@[0], primitive_name(p))
}

/// An argument describes a parameter.
pub open spec fn param_ok(a: Param, p: Parameter, c: resolver::Contract, reg: Registry) -> bool {
    &&& names(reg, a.name, p.name@)
    &&& param_type_ok(a.ty, scale_primitive(p.ty, c).unwrap(), reg)
}

/// The arguments describe the parameters, one for one.
pub open spec fn args_ok(args: Seq<Param>, ps: Seq<Parameter>, c: resolver::Contract, reg: Registry) -> bool {
    &&& args.len() == ps.len()
    &&& forall|i: int| 0 <= i < ps.len() ==> param_ok(#[trigger] args[i], ps[i], c, reg)
}

/// All parameters have scale types.
pub open spec fn scale_params(ps: Seq<Parameter>, c: resolver::Contract) -> bool {
    forall|i: int| 0 <= i < ps.len() ==> scale_primitive((#[trigger] ps[i]).ty, c) is Some
}

/// What a registry says stays true in a registry that grew from it.
proof fn lemma_args_grew(args: Seq<Param>, ps: Seq<Parameter>, c: resolver::Contract, a: Registry, b: Registry)
    requires
        args_ok(args, ps, c, a),
        reg_grew(a, b),
    ensures
        args_ok(args, ps, c, b),
{
    assert forall|i: int| 0 <= i < ps.len() implies param_ok(#[trigger] args[i], ps[i], c, b) by {
        let x = args[i];
        assert(b.strings@[x.name - 1] == a.strings@[x.name - 1]);
        assert(b.strings@[x.ty.display_name@[0] - 1] == a.strings@[x.ty.display_name@[0] - 1]);
        assert(b.types@[x.ty.ty - 1] == a.types@[x.ty.ty - 1]);
        assert(builtin_ids(b.types@)[x.ty.ty - 1] == builtin_ids(a.types@)[x.ty.ty - 1]);
    }
}

/// A signature type stays valid in a registry that grew.
proof fn lemma_type_grew(pt: ParamType, p: PrimitiveType, a: Registry, b: Registry)
    requires
        param_type_ok(pt, p, a),
        reg_grew(a, b),
    ensures
        param_type_ok(pt, p, b),
{
    assert(b.strings@[pt.display_name@[0] - 1] == a.strings@[pt.display_name@[0] - 1]);
    assert(b.types@[pt.ty - 1] == a.types@[pt.ty - 1]);
    assert(builtin_ids(b.types@)[pt.ty - 1] == builtin_ids(a.types@)[pt.ty - 1]);
}

/// The string added or found for a name, and the registry that grew.
fn intern(registry: &mut Registry, name: &str) -> (r: usize)
    requires
        old(registry).wf(),
    ensures
        final(registry).wf(),
        reg_grew(*old(registry), *final(registry)),
        names(*final(registry), r, name@),
{
    let r = registry.string(name);
    r
}

/// The builtin type added or found for a name, and the registry that grew.
fn intern_builtin(registry: &mut Registry, ty: &str) -> (r: usize)
    requires
        old(registry).wf(),
    ensures
        final(registry).wf(),
        reg_grew(*old(registry), *final(registry)),
        1 <= r <= final(registry).types@.len(),
        builtin_ids(final(registry).types@)[r - 1] == Some(ty@),
{
    registry.builtin_type(ty)
}

/// The signature type of a scale type: its builtin type and its Solidity
/// name.
fn ty_to_abi(ty: &SolType, contract: &resolver::Contract, registry: &mut Registry) -> (r: ParamType)
    requires
        old(registry).wf(),
        contract.wf(),
        type_wf(*ty, contract.enums@.len(), contract.structs@.len()),
        scale_primitive(*ty, *contract) is Some,
    ensures
        final(registry).wf(),
        reg_grew(*old(registry), *final(registry)),
        param_type_ok(r, scale_primitive(*ty, *contract).unwrap(), *final(registry)),
{
    let solty = match ty {
        SolType::Primitive(e) => *e,
        SolType::Enum(i) => contract.enums[*i].ty,
        _ => PrimitiveType::Bool,
    };
    let (scalety, _) = solty_to_scalety(ty, contract);
    let ghost r0 = *registry;
    let t = intern_builtin(registry, scalety.as_str());
    let ghost r1 = *registry;
    let name = solty.to_string();
    let d = intern(registry, name.as_str());
    proof {
        assert(registry.types@[t - 1] == r1.types@[t - 1]);
        assert(builtin_ids(registry.types@)[t - 1] == builtin_ids(r1.types@)[t - 1]);
    }
    ParamType { ty: t, display_name: vec![d] }
}

/// An argument for a parameter.
fn parameter_to_abi(param: &Parameter, contract: &resolver::Contract, registry: &mut Registry) -> (r: Param)
    requires
        old(registry).wf(),
        contract.wf(),
        type_wf(param.ty, contract.enums@.len(), contract.structs@.len()),
        scale_primitive(param.ty, *contract) is Some,
    ensures
        final(registry).wf(),
        reg_grew(*old(registry), *final(registry)),
        param_ok(r, *param, *contract, *final(registry)),
{
    let name = intern(registry, param.name.as_str());
    let ghost r1 = *registry;
    let ty = ty_to_abi(&param.ty, contract, registry);
    proof {
        assert(registry.strings@[name - 1] == r1.strings@[name - 1]);
    }
    Param { name, ty }
}

/// The arguments for a parameter list.
fn params_to_abi(ps: &Vec<Parameter>, contract: &resolver::Contract, registry: &mut Registry) -> (r: Vec<Param>)
    requires
        old(registry).wf(),
        contract.wf(),
        params_wf(ps@, *contract),
        scale_params(ps@, *contract),
    ensures
        final(registry).wf(),
        reg_grew(*old(registry), *final(registry)),
        args_ok(r@, ps@, *contract, *final(registry)),
{
    let mut args: Vec<Param> = Vec::new();
    let mut i: usize = 0;
    while i < ps.len()
        invariant
            0 <= i <= ps@.len(),
            registry.wf(),
            contract.wf(),
            params_wf(ps@, *contract),
            scale_params(ps@, *contract),
            reg_grew(*old(registry), *registry),
            args_ok(args@, ps@.take(i as int), *contract, *registry),
        decreases ps@.len() - i,
    {
        let ghost r0 = *registry;
        let a = parameter_to_abi(&ps[i], contract, registry);
        proof {
            lemma_args_grew(args@, ps@.take(i as int), *contract, r0, *registry);
        }
        args.push(a);
        proof {
            assert forall|j: int| 0 <= j < i + 1 implies param_ok(#[trigger] args@[j], ps@.take(i + 1)[j], *contract, *registry) by {
                if j < i {
                    assert(args@[j] == args@.drop_last()[j]);
                    assert(ps@.take(i + 1)[j] == ps@.take(i as int)[j]);
                }
            }
        }
        i += 1;
    }
    assert(ps@.take(ps@.len() as int) =~= ps@);
    args
}

/// An upper case hexadecimal digit.
pub open spec fn upper_hex_char(d: nat) -> char {
    if d < 10 { (d + 48) as char } else { (d - 10 + 65) as char }
}

/// The last `len` hexadecimal digits of a number, upper case, most
/// significant first.
pub open spec fn upper_hex(n: nat, len: nat) -> Seq<char>
    decreases len,
{
    if len == 0 {
        Seq::empty()
    } else {
        upper_hex(n / 16, (len - 1) as nat).push(upper_hex_char(n % 16))
    }
}

/// A storage offset as written in the metadata: `0x` and 64 hexadecimal
/// digits.
pub open spec fn offset_text(slot: nat) -> Seq<char> {
    "0x"@ + upper_hex(slot, 64)
}

/// The last `len` hexadecimal digits of a number.
fn upper_hex_digits(n: u64, len: usize) -> (r: String)
    ensures
        r@ == upper_hex(n as nat, len as nat),
    decreases len,
{
    if len == 0 {
        String::new()
    } else {
        let mut s = upper_hex_digits(n / 16, len - 1);
        let d = (n % 16) as u8;
        let c: char = if d < 10 { (d + 48) as char } else { (d - 10 + 65) as char };
        push_char(&mut s, c);
        s
    }
}

/// A storage offset as written in the metadata.
fn offset_string(slot: usize) -> (r: String)
    ensures
        r@ == offset_text(slot as nat),
{
    proof { reveal_strlit("0x"); }
    let digits = upper_hex_digits(slot as u64, 64);
    String::from_str("0x").concat(digits.as_str())
}

/// The state variables that live in storage, in order.
pub open spec fn storage_vars(vs: Seq<ContractVariable>) -> Seq<ContractVariable>
    decreases vs.len(),
{
    if vs.len() == 0 {
        Seq::empty()
    } else {
        storage_vars(vs.drop_last()) + if vs.last().var is Storage { seq![vs.last()] } else { Seq::empty() }
    }
}

/// The storage slot of a state variable.
pub open spec fn slot_of(v: ContractVariable) -> usize {
    match v.var {
        ContractVariableType::Storage(s) => s,
        _ => 0,
    }
}

/// A field of the storage struct type describes a state variable.
pub open spec fn field_ok(f: StructField, v: ContractVariable, c: resolver::Contract, reg: Registry) -> bool {
    &&& names(reg, f.name, v.name@)
    &&& 1 <= f.ty <= reg.types@.len()
    &&& builtin_ids(reg.types@)[f.ty - 1] == Some(scale_name(scale_primitive(v.ty, c).unwrap()))
}

/// A storage layout describes a state variable: its name, offset, length and
/// type.
pub open spec fn layout_ok(l: StorageLayout, v: ContractVariable, c: resolver::Contract, reg: Registry) -> bool {
    &&& names(reg, l.name, v.name@)
    &&& l.layout matches StorageFieldLayout::Field(f) && {
        &&& f.offset@ == offset_text(slot_of(v) as nat)
        &&& f.len == scale_len(scale_primitive(v.ty, c).unwrap())
        &&& 1 <= f.ty <= reg.types@.len()
        &&& builtin_ids(reg.types@)[f.ty - 1] == Some(scale_name(scale_primitive(v.ty, c).unwrap()))
    }
}

/// The state variables in storage have scale types.
pub open spec fn scale_vars(c: resolver::Contract) -> bool {
    forall|i: int| 0 <= i < c.variables@.len() ==> ((#[trigger] c.variables@[i]).var is Storage
        ==> scale_primitive(c.variables@[i].ty, c) is Some)
}

/// What the metadata of a contract takes: scale types for its storage, its
/// parameters and its return values, and at most one return value.
pub open spec fn abi_ok(c: resolver::Contract) -> bool {
    &&& c.wf()
    &&& scale_vars(c)
    &&& forall|i: int| 0 <= i < c.constructors@.len() ==> scale_params((#[trigger] c.constructors@[i]).params@, c)
    &&& forall|i: int| 0 <= i < c.functions@.len() ==> {
        &&& scale_params((#[trigger] c.functions@[i]).params@, c)
        &&& c.functions@[i].returns@.len() <= 1
        &&& (c.functions@[i].returns@.len() == 1 ==> scale_primitive(c.functions@[i].returns@[0].ty, c) is Some)
    }
}

/// Does the Solidity type have a scale type?
fn has_scale_type(t: &SolType, c: &resolver::Contract) -> (r: bool)
    requires
        c.wf(),
        type_wf(*t, c.enums@.len(), c.structs@.len()),
    ensures
        r == (scale_primitive(*t, *c) is Some),
{
    let p = match t {
        SolType::Primitive(e) => *e,
        SolType::Enum(i) => c.enums[*i].ty,
        _ => return false,
    };
    match p {
        PrimitiveType::Bool | PrimitiveType::Uint(_) | PrimitiveType::Int(_) => true,
        _ => false,
    }
}

/// Do all the parameters have scale types?
fn params_have_scale_types(ps: &Vec<Parameter>, c: &resolver::Contract) -> (r: bool)
    requires
        c.wf(),
        params_wf(ps@, *c),
    ensures
        r == scale_params(ps@, *c),
{
    let mut i: usize = 0;
    while i < ps.len()
        invariant
            0 <= i <= ps@.len(),
            c.wf(),
            params_wf(ps@, *c),
            forall|j: int| 0 <= j < i ==> scale_primitive((#[trigger] ps@[j]).ty, *c) is Some,
        decreases ps@.len() - i,
    {
        if !has_scale_type(&ps[i].ty, c) {
            return false;
        }
        i += 1;
    }
    true
}

/// Can the metadata describe the contract: do its storage variables,
/// parameters and return values have scale types, and does every function
/// return at most one value?
pub fn describable(c: &resolver::Contract) -> (r: bool)
    requires
        c.wf(),
    ensures
        r == abi_ok(*c),
{
    let mut i: usize = 0;
    while i < c.variables.len()
        invariant
            0 <= i <= c.variables@.len(),
            c.wf(),
            forall|j: int| 0 <= j < i ==> ((#[trigger] c.variables@[j]).var is Storage
                ==> scale_primitive(c.variables@[j].ty, *c) is Some),
        decreases c.variables@.len() - i,
    {
        if c.variables[i].is_storage() && !has_scale_type(&c.variables[i].ty, c) {
            return false;
        }
        i += 1;
    }
    let mut k: usize = 0;
    while k < c.constructors.len()
        invariant
            0 <= k <= c.constructors@.len(),
            c.wf(),
            scale_vars(*c),
            forall|j: int| 0 <= j < k ==> scale_params((#[trigger] c.constructors@[j]).params@, *c),
        decreases c.constructors@.len() - k,
    {
        assert(resolver::function_wf(c.constructors@[k as int], *c));
        if !params_have_scale_types(&c.constructors[k].params, c) {
            return false;
        }
        k += 1;
    }
    let mut m: usize = 0;
    while m < c.functions.len()
        invariant
            0 <= m <= c.functions@.len(),
            c.wf(),
            scale_vars(*c),
            forall|j: int| 0 <= j < c.constructors@.len() ==> scale_params((#[trigger] c.constructors@[j]).params@, *c),
            forall|j: int| 0 <= j < m ==> {
                &&& scale_params((#[trigger] c.functions@[j]).params@, *c)
                &&& c.functions@[j].returns@.len() <= 1
                &&& (c.functions@[j].returns@.len() == 1 ==> scale_primitive(c.functions@[j].returns@[0].ty, *c) is Some)
            },
        decreases c.functions@.len() - m,
    {
        let f = &c.functions[m];
        assert(resolver::function_wf(c.functions@[m as int], *c));
        if !params_have_scale_types(&f.params, c) {
            return false;
        }
        if f.returns.len() > 1 {
            return false;
        }
        if f.returns.len() == 1 && !has_scale_type(&f.returns[0].ty, c) {
            return false;
        }
        m += 1;
    }
    true
}

/// One storage struct field per state variable in storage.
fn storage_fields(contract: &resolver::Contract, registry: &mut Registry) -> (r: Vec<StructField>)
    requires
        old(registry).wf(),
        abi_ok(*contract),
    ensures
        final(registry).wf(),
        reg_grew(*old(registry), *final(registry)),
        r@.len() == storage_vars(contract.variables@).len(),
        forall|i: int| 0 <= i < r@.len() ==> field_ok(#[trigger] r@[i], storage_vars(contract.variables@)[i], *contract, *final(registry)),
{
    let mut fields: Vec<StructField> = Vec::new();
    let mut i: usize = 0;
    while i < contract.variables.len()
        invariant
            0 <= i <= contract.variables@.len(),
            registry.wf(),
            abi_ok(*contract),
            reg_grew(*old(registry), *registry),
            fields@.len() == storage_vars(contract.variables@.take(i as int)).len(),
            forall|k: int| 0 <= k < fields@.len() ==>
                field_ok(#[trigger] fields@[k], storage_vars(contract.variables@.take(i as int))[k], *contract, *registry),
        decreases contract.variables@.len() - i,
    {
        let ghost pre = contract.variables@.take(i as int);
        let ghost next = contract.variables@.take(i + 1);
        proof {
            assert(next.drop_last() =~= pre);
            assert(next.last() == contract.variables@[i as int]);
        }
        let v = &contract.variables[i];
        if v.is_storage() {
            let ghost r0 = *registry;
            let (scalety, _) = solty_to_scalety(&v.ty, contract);
            let name = intern(registry, v.name.as_str());
            let ghost r1 = *registry;
            let ty = intern_builtin(registry, scalety.as_str());
            proof {
                assert(registry.strings@[name - 1] == r1.strings@[name - 1]);
                assert forall|k: int| 0 <= k < fields@.len() implies
                    field_ok(#[trigger] fields@[k], storage_vars(next)[k], *contract, *registry) by {
                    let f = fields@[k];
                    assert(storage_vars(next)[k] == storage_vars(pre)[k]);
                    assert(registry.strings@[f.name - 1] == r0.strings@[f.name - 1]);
                    assert(registry.types@[f.ty - 1] == r0.types@[f.ty - 1]);
                    assert(builtin_ids(registry.types@)[f.ty - 1] == builtin_ids(r0.types@)[f.ty - 1]);
                }
            }
            fields.push(StructField { name, ty });
            proof {
                assert forall|k: int| 0 <= k < fields@.len() implies
                    field_ok(#[trigger] fields@[k], storage_vars(next)[k], *contract, *registry) by {
                    if k < fields@.len() - 1 {
                        assert(fields@[k] == fields@.drop_last()[k]);
                    }
                }
            }
        } else {
            proof { assert(storage_vars(next) =~= storage_vars(pre)); }
        }
        i += 1;
    }
    assert(contract.variables@.take(contract.variables@.len() as int) =~= contract.variables@);
    fields
}

/// One storage layout per state variable in storage.
fn storage_layouts(contract: &resolver::Contract, registry: &mut Registry) -> (r: Vec<StorageLayout>)
    requires
        old(registry).wf(),
        abi_ok(*contract),
    ensures
        final(registry).wf(),
        reg_grew(*old(registry), *final(registry)),
        r@.len() == storage_vars(contract.variables@).len(),
        forall|i: int| 0 <= i < r@.len() ==> layout_ok(#[trigger] r@[i], storage_vars(contract.variables@)[i], *contract, *final(registry)),
{
    let mut layouts: Vec<StorageLayout> = Vec::new();
    let mut i: usize = 0;
    while i < contract.variables.len()
        invariant
            0 <= i <= contract.variables@.len(),
            registry.wf(),
            abi_ok(*contract),
            reg_grew(*old(registry), *registry),
            layouts@.len() == storage_vars(contract.variables@.take(i as int)).len(),
            forall|k: int| 0 <= k < layouts@.len() ==>
                layout_ok(#[trigger] layouts@[k], storage_vars(contract.variables@.take(i as int))[k], *contract, *registry),
        decreases contract.variables@.len() - i,
    {
        let ghost pre = contract.variables@.take(i as int);
        let ghost next = contract.variables@.take(i + 1);
        proof {
            assert(next.drop_last() =~= pre);
            assert(next.last() == contract.variables@[i as int]);
        }
        let v = &contract.variables[i];
        if let ContractVariableType::Storage(slot) = v.var {
            let ghost r0 = *registry;
            let (scalety, len) = solty_to_scalety(&v.ty, contract);
            let name = intern(registry, v.name.as_str());
            let ghost r1 = *registry;
            let offset = offset_string(slot);
            let ty = intern_builtin(registry, scalety.as_str());
            proof {
                assert(registry.strings@[name - 1] == r1.strings@[name - 1]);
                assert forall|k: int| 0 <= k < layouts@.len() implies
                    layout_ok(#[trigger] layouts@[k], storage_vars(next)[k], *contract, *registry) by {
                    let l = layouts@[k];
                    assert(storage_vars(next)[k] == storage_vars(pre)[k]);
                    assert(registry.strings@[l.name - 1] == r0.strings@[l.name - 1]);
                    if let StorageFieldLayout::Field(f) = l.layout {
                        assert(registry.types@[f.ty - 1] == r0.types@[f.ty - 1]);
                        assert(builtin_ids(registry.types@)[f.ty - 1] == builtin_ids(r0.types@)[f.ty - 1]);
                    }
                }
            }
            layouts.push(StorageLayout {
                name,
                layout: StorageFieldLayout::Field(LayoutField { offset, len, ty }),
            });
            proof {
                assert forall|k: int| 0 <= k < layouts@.len() implies
                    layout_ok(#[trigger] layouts@[k], storage_vars(next)[k], *contract, *registry) by {
                    if k < layouts@.len() - 1 {
                        assert(layouts@[k] == layouts@.drop_last()[k]);
                    }
                }
            }
        } else {
            proof { assert(storage_vars(next) =~= storage_vars(pre)); }
        }
        i += 1;
    }
    assert(contract.variables@.take(contract.variables@.len() as int) =~= contract.variables@);
    layouts
}

/// A constructor entry describes a constructor: named `new`, with its
/// selector and arguments.
pub open spec fn ctor_ok(k: Constructor, f: FunctionDecl, c: resolver::Contract, reg: Registry) -> bool {
    &&& names(reg, k.name, "new"@)
    &&& k.selector == selector_of(f.signature@)
    &&& args_ok(k.args@, f.params@, c, reg)
}

/// A message describes a function: its name, selector, whether it may change
/// state (no mutability is declared), its arguments and its return type.
pub open spec fn msg_ok(m: Message, f: FunctionDecl, c: resolver::Contract, reg: Registry) -> bool {
    &&& names(reg, m.name, f.name@)
    &&& m.selector == selector_of(f.signature@)
    &&& m.mutates == (f.mutability is None)
    &&& args_ok(m.args@, f.params@, c, reg)
    &&& (f.returns@.len() == 0 ==> m.return_type is None)
    &&& (f.returns@.len() == 1 ==> (m.return_type matches Some(t)
        && param_type_ok(t, scale_primitive(f.returns@[0].ty, c).unwrap(), reg)))
}

/// Constructor entries stay valid in a registry that grew.
proof fn lemma_ctor_grew(k: Constructor, f: FunctionDecl, c: resolver::Contract, a: Registry, b: Registry)
    requires
        ctor_ok(k, f, c, a),
        reg_grew(a, b),
    ensures
        ctor_ok(k, f, c, b),
{
    assert(b.strings@[k.name - 1] == a.strings@[k.name - 1]);
    lemma_args_grew(k.args@, f.params@, c, a, b);
}

/// Messages stay valid in a registry that grew.
proof fn lemma_msg_grew(m: Message, f: FunctionDecl, c: resolver::Contract, a: Registry, b: Registry)
    requires
        msg_ok(m, f, c, a),
        reg_grew(a, b),
    ensures
        msg_ok(m, f, c, b),
{
    assert(b.strings@[m.name - 1] == a.strings@[m.name - 1]);
    lemma_args_grew(m.args@, f.params@, c, a, b);
    if let Some(t) = m.return_type {
        if f.returns@.len() == 1 {
            lemma_type_grew(t, scale_primitive(f.returns@[0].ty, c).unwrap(), a, b);
        }
    }
}

/// One entry per constructor.
fn constructors_to_abi(contract: &resolver::Contract, registry: &mut Registry) -> (r: Vec<Constructor>)
    requires
        old(registry).wf(),
        abi_ok(*contract),
    ensures
        final(registry).wf(),
        reg_grew(*old(registry), *final(registry)),
        r@.len() == contract.constructors@.len(),
        forall|i: int| 0 <= i < r@.len() ==> ctor_ok(#[trigger] r@[i], contract.constructors@[i], *contract, *final(registry)),
{
    let mut out: Vec<Constructor> = Vec::new();
    let mut i: usize = 0;
    while i < contract.constructors.len()
        invariant
            0 <= i <= contract.constructors@.len(),
            registry.wf(),
            abi_ok(*contract),
            reg_grew(*old(registry), *registry),
            out@.len() == i,
            forall|k: int| 0 <= k < i ==> ctor_ok(#[trigger] out@[k], contract.constructors@[k], *contract, *registry),
        decreases contract.constructors@.len() - i,
    {
        let ghost r0 = *registry;
        let f = &contract.constructors[i];
        assert(function_wf_of(*f, *contract));
        let name = intern(registry, "new");
        let selector = f.selector();
        let ghost r1 = *registry;
        let args = params_to_abi(&f.params, contract, registry);
        proof {
            assert(registry.strings@[name - 1] == r1.strings@[name - 1]);
            assert forall|k: int| 0 <= k < i implies ctor_ok(#[trigger] out@[k], contract.constructors@[k], *contract, *registry) by {
                lemma_ctor_grew(out@[k], contract.constructors@[k], *contract, r0, *registry);
            }
        }
        out.push(Constructor { name, selector, args });
        proof {
            assert forall|k: int| 0 <= k < i + 1 implies ctor_ok(#[trigger] out@[k], contract.constructors@[k], *contract, *registry) by {
                if k < i {
                    assert(out@[k] == out@.drop_last()[k]);
                }
            }
        }
        i += 1;
    }
    out
}

/// One message per function.
fn messages_to_abi(contract: &resolver::Contract, registry: &mut Registry) -> (r: Vec<Message>)
    requires
        old(registry).wf(),
        abi_ok(*contract),
    ensures
        final(registry).wf(),
        reg_grew(*old(registry), *final(registry)),
        r@.len() == contract.functions@.len(),
        forall|i: int| 0 <= i < r@.len() ==> msg_ok(#[trigger] r@[i], contract.functions@[i], *contract, *final(registry)),
{
    let mut out: Vec<Message> = Vec::new();
    let mut i: usize = 0;
    while i < contract.functions.len()
        invariant
            0 <= i <= contract.functions@.len(),
            registry.wf(),
            abi_ok(*contract),
            reg_grew(*old(registry), *registry),
            out@.len() == i,
            forall|k: int| 0 <= k < i ==> msg_ok(#[trigger] out@[k], contract.functions@[k], *contract, *registry),
        decreases contract.functions@.len() - i,
    {
        let ghost r0 = *registry;
        let f = &contract.functions[i];
        assert(function_wf_of(*f, *contract));
        let name = intern(registry, f.name.as_str());
        let ghost r1 = *registry;
        let mutates = f.mutability.is_none();
        let return_type = if f.returns.len() == 0 {
            None
        } else {
            assert(type_wf(f.returns@[0].ty, contract.enums@.len(), contract.structs@.len()));
            Some(ty_to_abi(&f.returns[0].ty, contract, registry))
        };
        let ghost r2 = *registry;
        let selector = f.selector();
        let args = params_to_abi(&f.params, contract, registry);
        proof {
            assert(registry.strings@[name - 1] == r1.strings@[name - 1]);
            if return_type is Some {
                lemma_type_grew(return_type.unwrap(), scale_primitive(f.returns@[0].ty, *contract).unwrap(), r2, *registry);
            }
            assert forall|k: int| 0 <= k < i implies msg_ok(#[trigger] out@[k], contract.functions@[k], *contract, *registry) by {
                lemma_msg_grew(out@[k], contract.functions@[k], *contract, r0, *registry);
            }
        }
        out.push(Message { name, selector, mutates, args, return_type });
        proof {
            assert forall|k: int| 0 <= k < i + 1 implies msg_ok(#[trigger] out@[k], contract.functions@[k], *contract, *registry) by {
                if k < i {
                    assert(out@[k] == out@.drop_last()[k]);
                }
            }
        }
        i += 1;
    }
    out
}

/// The parameters and return values of a function have types of the contract.
pub open spec fn function_wf_of(f: FunctionDecl, c: resolver::Contract) -> bool {
    resolver::function_wf(f, c)
}

/// The metadata describes a contract: the storage struct type has one field
/// per state variable in storage, the storage layout names `Storage` and
/// holds a layout per such variable, each constructor and function has its
/// entry, and the contract is named.
pub open spec fn metadata_ok(m: Metadata, c: resolver::Contract) -> bool {
    let reg = m.registry;
    let vars = storage_vars(c.variables@);
    &&& reg.wf()
    &&& 1 <= m.storage.ty <= reg.types@.len()
    &&& reg.types@[m.storage.ty - 1] matches Type::Struct { id, def } && names(reg, id.name, "storage"@)
        && def.fields@.len() == vars.len()
        && forall|i: int| 0 <= i < vars.len() ==> field_ok(#[trigger] def.fields@[i], vars[i], c, reg)
    &&& m.storage.fields@.len() == 1
    &&& names(reg, m.storage.fields@[0].name, "Storage"@)
    &&& m.storage.fields@[0].layout matches StorageFieldLayout::Storage(inner) && inner.ty == m.storage.ty
        && inner.fields@.len() == vars.len()
        && forall|i: int| 0 <= i < vars.len() ==> layout_ok(#[trigger] inner.fields@[i], vars[i], c, reg)
    &&& m.contract.constructors@.len() == c.constructors@.len()
    &&& forall|i: int| 0 <= i < c.constructors@.len() ==> ctor_ok(#[trigger] m.contract.constructors@[i], c.constructors@[i], c, reg)
    &&& m.contract.messages@.len() == c.functions@.len()
    &&& forall|i: int| 0 <= i < c.functions@.len() ==> msg_ok(#[trigger] m.contract.messages@[i], c.functions@[i], c, reg)
    &&& names(reg, m.contract.name, c.name@)
}

/// The Substrate metadata of a contract.
pub fn gen_abi(resolver_contract: &resolver::Contract) -> (r: Metadata)
    requires
        abi_ok(*resolver_contract),
    ensures
        metadata_ok(r, *resolver_contract),
{
    let c = resolver_contract;
    let mut registry = Registry::new();
    let fields = storage_fields(c, &mut registry);
    let ghost r1 = registry;
    let storagety = registry.struct_type("storage", fields);
    let ghost r2 = registry;
    let layouts = storage_layouts(c, &mut registry);
    let ghost r3 = registry;
    let storage_name = intern(&mut registry, "Storage");
    let ghost r4 = registry;
    let storage = Storage {
        ty: storagety,
        fields: vec![StorageLayout {
            name: storage_name,
            layout: StorageFieldLayout::Storage(Box::new(Storage { ty: storagety, fields: layouts })),
        }],
    };
    let constructors = constructors_to_abi(c, &mut registry);
    let ghost r5 = registry;
    let messages = messages_to_abi(c, &mut registry);
    let ghost r6 = registry;
    let name = intern(&mut registry, c.name.as_str());
    let contract = Contract { name, constructors, messages };
    let m = Metadata { registry, storage, contract };
    proof {
        let reg = m.registry;
        let vars = storage_vars(c.variables@);
        assert(reg.types@[storagety - 1] == r2.types@[storagety - 1]);
        if let Type::Struct { id, def } = r2.types@[storagety - 1] {
            assert(reg.strings@[id.name - 1] == r2.strings@[id.name - 1]);
            assert forall|i: int| 0 <= i < vars.len() implies field_ok(#[trigger] def.fields@[i], vars[i], *c, reg) by {
                let f = def.fields@[i];
                assert(field_ok(f, vars[i], *c, r1));
                assert(reg.strings@[f.name - 1] == r1.strings@[f.name - 1]);
                assert(reg.types@[f.ty - 1] == r1.types@[f.ty - 1]);
                assert(builtin_ids(reg.types@)[f.ty - 1] == builtin_ids(r1.types@)[f.ty - 1]);
            }
        }
        assert(reg.strings@[storage_name - 1] == r4.strings@[storage_name - 1]);
        assert forall|i: int| 0 <= i < vars.len() implies layout_ok(#[trigger] m.storage.fields@[0].layout->Storage_0.fields@[i], vars[i], *c, reg) by {
            let l = layouts@[i];
            assert(layout_ok(l, vars[i], *c, r3));
            assert(reg.strings@[l.name - 1] == r3.strings@[l.name - 1]);
            if let StorageFieldLayout::Field(f) = l.layout {
                assert(reg.types@[f.ty - 1] == r3.types@[f.ty - 1]);
                assert(builtin_ids(reg.types@)[f.ty - 1] == builtin_ids(r3.types@)[f.ty - 1]);
            }
        }
        assert forall|i: int| 0 <= i < c.constructors@.len() implies ctor_ok(#[trigger] m.contract.constructors@[i], c.constructors@[i], *c, reg) by {
            lemma_ctor_grew(constructors@[i], c.constructors@[i], *c, r5, reg);
        }
        assert forall|i: int| 0 <= i < c.functions@.len() implies msg_ok(#[trigger] m.contract.messages@[i], c.functions@[i], *c, reg) by {
            lemma_msg_grew(messages@[i], c.functions@[i], *c, r6, reg);
        }
    }
    m
}

impl Metadata {
    /// The first message with this name.
    pub fn get_function(&self, name: &str) -> (r: Option<&Message>)
        requires
            forall|i: int| 0 <= i < self.contract.messages@.len() ==> 1 <= (#[trigger] self.contract.messages@[i]).name <= self.registry.strings@.len(),
        ensures
            r matches Some(m) ==> exists|i: int| 0 <= i < self.contract.messages@.len() && *m == #[trigger] self.contract.messages@[i]
                && self.registry.str_at(m.name as int) == name@
                && forall|j: int| 0 <= j < i ==> self.registry.str_at((#[trigger] self.contract.messages@[j]).name as int) != name@,
            r is None ==> forall|j: int| 0 <= j < self.contract.messages@.len() ==>
                self.registry.str_at((#[trigger] self.contract.messages@[j]).name as int) != name@,
    {
        let key = String::from_str(name);
        let mut i: usize = 0;
        while i < self.contract.messages.len()
            invariant
                0 <= i <= self.contract.messages@.len(),
                key@ == name@,
                forall|j: int| 0 <= j < self.contract.messages@.len() ==> 1 <= (#[trigger] self.contract.messages@[j]).name <= self.registry.strings@.len(),
                forall|j: int| 0 <= j < i ==> self.registry.str_at((#[trigger] self.contract.messages@[j]).name as int) != name@,
            decreases self.contract.messages@.len() - i,
        {
            let m = &self.contract.messages[i];
            if self.registry.strings[m.name - 1] == key {
                return Some(m);
            }
            i += 1;
        }
        None
    }
}

/// A string of the registry has one position: interning it again gives the
/// position it got first.
pub proof fn lemma_string_position_unique(reg: Registry, name: Seq<char>, a: usize, b: usize)
    requires
        reg.wf(),
        names(reg, a, name),
        names(reg, b, name),
    ensures
        a == b,
{
    if a < b {
        assert(reg.strings@[a - 1]@ != reg.strings@[b - 1]@);
    } else if b < a {
        assert(reg.strings@[b - 1]@ != reg.strings@[a - 1]@);
    }
}

/// A builtin type of the registry has one position.
pub proof fn lemma_builtin_position_unique(reg: Registry, id: Seq<char>, a: usize, b: usize)
    requires
        reg.wf(),
        1 <= a <= reg.types@.len(),
        1 <= b <= reg.types@.len(),
        builtin_ids(reg.types@)[a - 1] == Some(id),
        builtin_ids(reg.types@)[b - 1] == Some(id),
    ensures
        a == b,
{
    if a < b {
        assert(builtin_ids(reg.types@)[a - 1] != builtin_ids(reg.types@)[b - 1]);
    } else if b < a {
        assert(builtin_ids(reg.types@)[b - 1] != builtin_ids(reg.types@)[a - 1]);
    }
}

} // verus!
