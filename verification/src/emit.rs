//! How many bytes the ABI encodings of the targets give a value of a type.
use crate::ast::PrimitiveType;
use crate::bignum::{BigNum, big_mul, big_add, big_to_u64};
use crate::resolver::{Contract, Type, TypeV, type_wf, dims_view, dims_product};
use vstd::prelude::*;

verus! {

/// How deeply arrays and references are nested in a type.
pub open spec fn nesting(t: TypeV) -> nat
    decreases t,
{
    match t {
        TypeV::FixedArray(ty, _) => nesting(*ty) + 1,
        TypeV::Ref(ty) => nesting(*ty) + 1,
        TypeV::StorageRef(ty) => nesting(*ty) + 1,
        _ => 0,
    }
}

/// The fixed part of the Ethereum ABI encoding of a type: 32 bytes for each
/// value, an offset for strings and dynamic bytes; structs add up their
/// fields and arrays multiply. Only structs before `limit` are counted.
pub open spec fn eth_fixed_len(t: TypeV, c: Contract, limit: nat) -> int
    decreases limit, 0nat, nesting(t),
{
    match t {
        TypeV::Primitive(_) => 32,
        TypeV::Enum(_) => 32,
        TypeV::Struct(n) => if n < limit && n < c.structs@.len() {
            eth_fields_len(c, n as nat, c.structs@[n as int].fields@.len())
        } else {
            0
        },
        TypeV::FixedArray(ty, dims) => dims_product(dims) * eth_fixed_len(*ty, c, limit),
        TypeV::Ref(r) => eth_fixed_len(*r, c, limit),
        TypeV::StorageRef(r) => eth_fixed_len(*r, c, limit),
        TypeV::Undef => 0,
    }
}

/// The fixed lengths of the first `k` fields of struct `n`, added up.
pub open spec fn eth_fields_len(c: Contract, n: nat, k: nat) -> int
    decreases n, 1nat, k,
{
    if k == 0 || n >= c.structs@.len() || k > c.structs@[n as int].fields@.len() {
        0
    } else {
        eth_fields_len(c, n, (k - 1) as nat) + eth_fixed_len(c.structs@[n as int].fields@[k - 1].ty@, c, n)
    }
}

/// The type, and the fields of the structs it holds, are defined.
pub open spec fn eth_encodable(t: TypeV, c: Contract, limit: nat) -> bool
    decreases limit, 0nat, nesting(t),
{
    match t {
        TypeV::Struct(n) => n < limit && n < c.structs@.len() && eth_fields_encodable(c, n as nat, c.structs@[n as int].fields@.len()),
        TypeV::FixedArray(ty, _) => eth_encodable(*ty, c, limit),
        TypeV::Ref(r) => eth_encodable(*r, c, limit),
        TypeV::StorageRef(r) => eth_encodable(*r, c, limit),
        TypeV::Undef => false,
        _ => true,
    }
}

/// The first `k` fields of struct `n` are encodable.
pub open spec fn eth_fields_encodable(c: Contract, n: nat, k: nat) -> bool
    decreases n, 1nat, k,
{
    if k == 0 || n >= c.structs@.len() || k > c.structs@[n as int].fields@.len() {
        true
    } else {
        eth_fields_encodable(c, n, (k - 1) as nat) && eth_encodable(c.structs@[n as int].fields@[k - 1].ty@, c, n)
    }
}

/// The Ethereum ABI encoder.
#[derive(Debug)]
pub struct EthAbiEncoder {}

impl EthAbiEncoder {
    /// The fixed length of the encoding, counting structs before `limit`.
    fn fixed_length_bounded(&self, ty: &Type, ns: &Contract, limit: usize) -> (r: BigNum)
        requires
            ns.wf(),
            limit <= ns.structs@.len(),
            type_wf(*ty, ns.enums@.len(), limit as nat),
        ensures
            r@ == eth_fixed_len(ty@, *ns, limit as nat),
        decreases limit, 0nat, nesting(ty@),
    {
        match ty {
            Type::Primitive(_) | Type::Enum(_) => BigNum::from_u64(32),
            Type::Struct(n) => {
                let fields = &ns.structs[*n].fields;
                let mut total = BigNum::zero();
                let mut k: usize = 0;
                while k < fields.len()
                    invariant
                        ns.wf(),
                        *n < limit <= ns.structs@.len(),
                        fields == ns.structs@[*n as int].fields,
                        0 <= k <= fields@.len(),
                        total@ == eth_fields_len(*ns, *n as nat, k as nat),
                    decreases fields@.len() - k,
                {
                    assert(type_wf(ns.structs@[*n as int].fields@[k as int].ty, ns.enums@.len(), *n as nat));
                    let f = self.fixed_length_bounded(&fields[k].ty, ns, *n);
                    total = big_add(&total, &f);
                    k += 1;
                }
                total
            },
            Type::FixedArray(elem, dims) => {
                let mut product = BigNum::from_u64(1);
                let mut i: usize = 0;
                while i < dims.len()
                    invariant
                        0 <= i <= dims@.len(),
                        product@ == dims_product(dims_view(dims@).take(i as int)),
                    decreases dims@.len() - i,
                {
                    product = big_mul(&product, &dims[i]);
                    proof {
                        let t = dims_view(dims@).take(i + 1);
                        assert(t.drop_last() =~= dims_view(dims@).take(i as int));
                    }
                    i += 1;
                }
                assert(dims_view(dims@).take(dims@.len() as int) =~= dims_view(dims@));
                let e = self.fixed_length_bounded(elem, ns, limit);
                big_mul(&product, &e)
            },
            Type::Ref(r) => self.fixed_length_bounded(r, ns, limit),
            Type::StorageRef(r) => self.fixed_length_bounded(r, ns, limit),
            Type::Undef => BigNum::zero(),
        }
    }

    /// The length of the fixed part of the encoding of a type: strings and
    /// dynamic bytes take the 32 bytes of their offset.
    pub fn encoded_fixed_length(&self, ty: &Type, ns: &Contract) -> (r: u64)
        requires
            ns.wf(),
            type_wf(*ty, ns.enums@.len(), ns.structs@.len()),
            eth_encodable(ty@, *ns, ns.structs@.len()),
            0 <= eth_fixed_len(ty@, *ns, ns.structs@.len()) <= u64::MAX,
        ensures
            r == eth_fixed_len(ty@, *ns, ns.structs@.len()),
    {
        let b = self.fixed_length_bounded(ty, ns, ns.structs.len());
        match big_to_u64(&b) {
            Some(v) => v,
            None => 0,
        }
    }
}

/// The length of the Substrate (SCALE) encoding of a type: `bool` takes a
/// byte, integers their width in bytes, fixed bytes their length, an address
/// 20 bytes, an enum the bytes of its integer type; structs add up their
/// fields and arrays multiply. Only structs before `limit` are counted.
pub open spec fn scale_len(t: TypeV, c: Contract, limit: nat) -> int
    decreases limit, 0nat, nesting(t),
{
    match t {
        TypeV::Primitive(p) => primitive_scale_len(p),
        TypeV::Enum(n) => if n < c.enums@.len() { primitive_scale_len(c.enums@[n as int].ty) } else { 0 },
        TypeV::Struct(n) => if n < limit && n < c.structs@.len() {
            scale_fields_len(c, n as nat, c.structs@[n as int].fields@.len())
        } else {
            0
        },
        TypeV::FixedArray(ty, dims) => scale_len(*ty, c, limit) * dims_product(dims),
        TypeV::Ref(r) => scale_len(*r, c, limit),
        _ => 0,
    }
}

/// The SCALE length of a primitive type.
pub open spec fn primitive_scale_len(p: PrimitiveType) -> int {
    match p {
        PrimitiveType::Bool => 1,
        PrimitiveType::Uint(n) => n as int / 8,
        PrimitiveType::Int(n) => n as int / 8,
        PrimitiveType::Bytes(n) => n as int,
        PrimitiveType::Address => 20,
        _ => 0,
    }
}

/// The SCALE lengths of the first `k` fields of struct `n`, added up.
pub open spec fn scale_fields_len(c: Contract, n: nat, k: nat) -> int
    decreases n, 1nat, k,
{
    if k == 0 || n >= c.structs@.len() || k > c.structs@[n as int].fields@.len() {
        0
    } else {
        scale_fields_len(c, n, (k - 1) as nat) + scale_len(c.structs@[n as int].fields@[k - 1].ty@, c, n)
    }
}

/// The type has a fixed SCALE encoding: no string, dynamic bytes, storage
/// reference or undefined part, in it or in the structs it holds.
pub open spec fn scale_encodable(t: TypeV, c: Contract, limit: nat) -> bool
    decreases limit, 0nat, nesting(t),
{
    match t {
        TypeV::Primitive(p) => !(p is String) && !(p is DynamicBytes),
        TypeV::Enum(n) => n < c.enums@.len() && !(c.enums@[n as int].ty is String) && !(c.enums@[n as int].ty is DynamicBytes),
        TypeV::Struct(n) => n < limit && n < c.structs@.len() && scale_fields_encodable(c, n as nat, c.structs@[n as int].fields@.len()),
        TypeV::FixedArray(ty, _) => scale_encodable(*ty, c, limit),
        TypeV::Ref(r) => scale_encodable(*r, c, limit),
        _ => false,
    }
}

/// The first `k` fields of struct `n` have a fixed SCALE encoding.
pub open spec fn scale_fields_encodable(c: Contract, n: nat, k: nat) -> bool
    decreases n, 1nat, k,
{
    if k == 0 || n >= c.structs@.len() || k > c.structs@[n as int].fields@.len() {
        true
    } else {
        scale_fields_encodable(c, n, (k - 1) as nat) && scale_encodable(c.structs@[n as int].fields@[k - 1].ty@, c, n)
    }
}

/// The Substrate target.
#[derive(Debug)]
pub struct SubstrateTarget {}

impl SubstrateTarget {
    /// The SCALE length of a primitive type.
    fn primitive_length(p: PrimitiveType) -> (r: BigNum)
        ensures
            r@ == primitive_scale_len(p),
    {
        match p {
            PrimitiveType::Bool => BigNum::from_u64(1),
            PrimitiveType::Uint(n) | PrimitiveType::Int(n) => BigNum::from_u64((n / 8) as u64),
            PrimitiveType::Bytes(n) => BigNum::from_u64(n as u64),
            PrimitiveType::Address => BigNum::from_u64(20),
            _ => BigNum::zero(),
        }
    }

    /// The SCALE length, counting structs before `limit`.
    fn length_bounded(&self, ty: &Type, contract: &Contract, limit: usize) -> (r: BigNum)
        requires
            contract.wf(),
            limit <= contract.structs@.len(),
            type_wf(*ty, contract.enums@.len(), limit as nat),
        ensures
            r@ == scale_len(ty@, *contract, limit as nat),
        decreases limit, 0nat, nesting(ty@),
    {
        match ty {
            Type::Primitive(p) => Self::primitive_length(*p),
            Type::Enum(n) => Self::primitive_length(contract.enums[*n].ty),
            Type::Struct(n) => {
                let fields = &contract.structs[*n].fields;
                let mut total = BigNum::zero();
                let mut k: usize = 0;
                while k < fields.len()
                    invariant
                        contract.wf(),
                        *n < limit <= contract.structs@.len(),
                        fields == contract.structs@[*n as int].fields,
                        0 <= k <= fields@.len(),
                        total@ == scale_fields_len(*contract, *n as nat, k as nat),
                    decreases fields@.len() - k,
                {
                    assert(type_wf(contract.structs@[*n as int].fields@[k as int].ty, contract.enums@.len(), *n as nat));
                    let f = self.length_bounded(&fields[k].ty, contract, *n);
                    total = big_add(&total, &f);
                    k += 1;
                }
                total
            },
            Type::FixedArray(elem, dims) => {
                let mut size = self.length_bounded(elem, contract, limit);
                let mut i: usize = 0;
                while i < dims.len()
                    invariant
                        0 <= i <= dims@.len(),
                        size@ == scale_len(elem@, *contract, limit as nat) * dims_product(dims_view(dims@).take(i as int)),
                    decreases dims@.len() - i,
                {
                    size = big_mul(&size, &dims[i]);
                    proof {
                        let t = dims_view(dims@).take(i + 1);
                        assert(t.drop_last() =~= dims_view(dims@).take(i as int));
                        vstd::arithmetic::mul::lemma_mul_is_associative(
                            scale_len(elem@, *contract, limit as nat), dims_product(t.drop_last()), t.last());
                    }
                    i += 1;
                }
                assert(dims_view(dims@).take(dims@.len() as int) =~= dims_view(dims@));
                size
            },
            Type::Ref(r) => self.length_bounded(r, contract, limit),
            _ => BigNum::zero(),
        }
    }

    /// The length of the SCALE encoding of a type.
    pub fn encoded_length(&self, ty: &Type, contract: &Contract) -> (r: u64)
        requires
            contract.wf(),
            type_wf(*ty, contract.enums@.len(), contract.structs@.len()),
            scale_encodable(ty@, *contract, contract.structs@.len()),
            0 <= scale_len(ty@, *contract, contract.structs@.len()) <= u64::MAX,
        ensures
            r == scale_len(ty@, *contract, contract.structs@.len()),
    {
        let b = self.length_bounded(ty, contract, contract.structs.len());
        match big_to_u64(&b) {
            Some(v) => v,
            None => 0,
        }
    }
}

/// The ewasm target, which encodes with the Ethereum ABI.
#[derive(Debug)]
pub struct EwasmTarget {
    pub abi: EthAbiEncoder,
}

/// The Sawtooth Sabre target, which encodes with the Ethereum ABI.
#[derive(Debug)]
pub struct SabreTarget {
    pub abi: EthAbiEncoder,
}

} // verus!
