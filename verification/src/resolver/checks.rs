//! Checks that a parse tree is one the resolver takes: the literals of its
//! expressions are well formed, array dimensions in calls are positive, enums
//! have values, and named return values have a default.
use crate::ast;
use crate::ast::{FunctionAttribute, FunctionTy, PrimitiveType, StateMutability};
use crate::bignum::{hex_digit_value, all_hex_digits, big_is_zero, big_is_negative};
use super::dims_positive;
use super::expression::expr_ok;
use super::statement::{stmt_ok, has_named_return};
use super::functions::{first_mutability, is_ctor};
use super::contract::{contract_def_ok, return_has_default, is_struct_def_name, unit_ok};
use vstd::prelude::*;

verus! {

/// Is the character a hexadecimal digit?
fn hex_char(c: char) -> (r: bool)
    ensures
        r == hex_digit_value(c) is Some,
{
    ('0' <= c && c <= '9') || ('a' <= c && c <= 'f') || ('A' <= c && c <= 'F')
}

/// Are the characters of `s` from position `start` on hexadecimal digits?
fn hex_digits_from(s: &str, start: usize) -> (r: bool)
    requires
        start <= s@.len(),
    ensures
        r == all_hex_digits(s@.skip(start as int)),
{
    let n = s.unicode_len();
    let mut i = start;
    while i < n
        invariant
            start <= i <= n,
            n == s@.len(),
            forall|j: int| start <= j < i ==> (#[trigger] hex_digit_value(s@[j])) is Some,
        decreases n - i,
    {
        if !hex_char(s.get_char(i)) {
            assert(s@.skip(start as int)[i - start] == s@[i as int]);
            return false;
        }
        i += 1;
    }
    assert forall|j: int| 0 <= j < s@.skip(start as int).len() implies (#[trigger] hex_digit_value(s@.skip(start as int)[j])) is Some by {
        assert(s@.skip(start as int)[j] == s@[j + start]);
    }
    true
}

/// Are all dimensions positive?
fn dims_checked(dims: &Vec<ast::Dimension>) -> (r: bool)
    ensures
        r == dims_positive(dims@),
{
    let mut i: usize = 0;
    while i < dims.len()
        invariant
            0 <= i <= dims@.len(),
            forall|j: int| 0 <= j < i ==> (#[trigger] dims@[j]).size@ > 0,
        decreases dims@.len() - i,
    {
        if big_is_zero(&dims[i].size) || big_is_negative(&dims[i].size) {
            return false;
        }
        i += 1;
    }
    true
}

/// Is the expression one the resolver takes?
pub fn expr_checked(e: &ast::Expression) -> (r: bool)
    ensures
        r == expr_ok(*e),
    decreases e,
{
    match e {
        ast::Expression::HexLiteral(v) => {
            let mut i: usize = 0;
            while i < v.len()
                invariant
                    0 <= i <= v@.len(),
                    *e matches ast::Expression::HexLiteral(w) && w == v,
                    forall|j: int| 0 <= j < i ==> all_hex_digits((#[trigger] v@[j]).hex@),
                decreases v@.len() - i,
            {
                let ok = hex_digits_from(v[i].hex.as_str(), 0);
                assert(v@[i as int].hex@.skip(0) =~= v@[i as int].hex@);
                if !ok {
                    assert(!all_hex_digits(v@[i as int].hex@));
                    return false;
                }
                i += 1;
            }
            true
        },
        ast::Expression::AddressLiteral(_, s) => {
            let n = s.as_str().unicode_len();
            2 < n && n <= 66 && hex_digits_from(s.as_str(), 2)
        },
        ast::Expression::Binary(_, _, l, r) => expr_checked(l) && expr_checked(r),
        ast::Expression::Unary(_, _, x) => expr_checked(x),
        ast::Expression::Ternary(_, a, b, c) => expr_checked(a) && expr_checked(b) && expr_checked(c),
        ast::Expression::Assign(_, _, _, x) => expr_checked(x),
        ast::Expression::IndexAccess(_, _, x) => expr_checked(x),
        ast::Expression::FunctionCall(_, t, args) => {
            if let ast::Type::Primitive(_, dims) = t {
                if !dims_checked(dims) {
                    return false;
                }
            }
            let mut i: usize = 0;
            while i < args.len()
                invariant
                    0 <= i <= args@.len(),
                    *e matches ast::Expression::FunctionCall(_, _, a) && a == args,
                    forall|j: int| 0 <= j < i ==> expr_ok(#[trigger] args@[j]),
                decreases args@.len() - i,
            {
                proof {
                    assert(decreases_to!(*e => *args));
                    assert(decreases_to!(*args => args@));
                    assert(decreases_to!(args@ => args@[i as int]));
                }
                if !expr_checked(&args[i]) {
                    return false;
                }
                i += 1;
            }
            true
        },
        _ => true,
    }
}

/// Is the statement one the resolver takes?
pub fn stmt_checked(s: &ast::Statement) -> (r: bool)
    ensures
        r == stmt_ok(*s),
    decreases s,
{
    match s {
        ast::Statement::VariableDefinition(_, _, init) => match init {
            Some(x) => expr_checked(x),
            None => true,
        },
        ast::Statement::Block(_, bs) => {
            let mut i: usize = 0;
            while i < bs.len()
                invariant
                    0 <= i <= bs@.len(),
                    *s matches ast::Statement::Block(_, b) && b == bs,
                    forall|j: int| 0 <= j < i ==> stmt_ok(#[trigger] bs@[j]),
                decreases bs@.len() - i,
            {
                proof {
                    assert(decreases_to!(*s => *bs));
                    assert(decreases_to!(*bs => bs@));
                    assert(decreases_to!(bs@ => bs@[i as int]));
                }
                if !stmt_checked(&bs[i]) {
                    return false;
                }
                i += 1;
            }
            true
        },
        ast::Statement::Return(_, es) => {
            let mut i: usize = 0;
            while i < es.len()
                invariant
                    0 <= i <= es@.len(),
                    *s matches ast::Statement::Return(_, x) && x == es,
                    forall|j: int| 0 <= j < i ==> expr_ok(#[trigger] es@[j]),
                decreases es@.len() - i,
            {
                if !expr_checked(&es[i]) {
                    assert(!expr_ok(es@[i as int]));
                    return false;
                }
                i += 1;
            }
            true
        },
        ast::Statement::Expression(_, x) => expr_checked(x),
        ast::Statement::If(_, c, t, e) => expr_checked(c) && stmt_checked(t) && match e {
            Some(x) => stmt_checked(x),
            None => true,
        },
        ast::Statement::DoWhile(_, b, c) => stmt_checked(b) && expr_checked(c),
        ast::Statement::While(_, c, b) => expr_checked(c) && stmt_checked(b),
        ast::Statement::For(_, init, cond, next, body) => {
            (match init { Some(x) => stmt_checked(x), None => true })
                && (match cond { Some(x) => expr_checked(x), None => true })
                && (match next { Some(x) => stmt_checked(x), None => true })
                && (match body { Some(x) => stmt_checked(x), None => true })
        },
        _ => true,
    }
}

/// Is a struct of this name defined among the parts?
fn struct_def_named(parts: &Vec<ast::ContractPart>, name: &String) -> (r: bool)
    ensures
        r == is_struct_def_name(parts@, name@),
{
    let mut i: usize = 0;
    while i < parts.len()
        invariant
            0 <= i <= parts@.len(),
            forall|j: int| 0 <= j < i ==> !((#[trigger] parts@[j]) matches ast::ContractPart::StructDefinition(sd)
                && sd.name.name@ == name@),
        decreases parts@.len() - i,
    {
        if let ast::ContractPart::StructDefinition(sd) = &parts[i] {
            if sd.name.name == *name {
                return true;
            }
        }
        i += 1;
    }
    false
}

/// Does a return value of this declaration have a default?
fn return_default_checked(p: &Option<ast::Parameter>, parts: &Vec<ast::ContractPart>) -> (r: bool)
    ensures
        r == return_has_default(*p, parts@),
{
    match p {
        None => true,
        Some(q) => match &q.ty {
            ast::Type::Primitive(pt, dims) => dims.len() == 0 && match pt {
                PrimitiveType::String | PrimitiveType::DynamicBytes => false,
                _ => true,
            },
            ast::Type::Unresolved(id, dims) => dims.len() == 0 && !struct_def_named(parts, &id.name),
        },
    }
}

/// Is the function definition one the resolver takes?
fn function_checked(f: &ast::FunctionDefinition, parts: &Vec<ast::ContractPart>) -> (r: bool)
    ensures
        r == {
            &&& stmt_ok(f.body)
            &&& (has_named_return(*f) ==> forall|k: int| 0 <= k < f.returns@.len() ==>
                return_has_default((#[trigger] f.returns@[k]).1, parts@))
            &&& (!is_ctor(*f) ==> !(first_mutability(f.attributes@) matches Some(StateMutability::Payable(_))))
        },
{
    if !stmt_checked(&f.body) {
        return false;
    }
    let mut named = false;
    let mut all_default = true;
    let mut k: usize = 0;
    while k < f.returns.len()
        invariant
            0 <= k <= f.returns@.len(),
            named == exists|j: int| 0 <= j < k && ((#[trigger] f.returns@[j]).1 matches Some(p) && p.name is Some),
            all_default == forall|j: int| 0 <= j < k ==> return_has_default((#[trigger] f.returns@[j]).1, parts@),
        decreases f.returns@.len() - k,
    {
        if let (_, Some(p)) = &f.returns[k] {
            if p.name.is_some() {
                named = true;
            }
        }
        if !return_default_checked(&f.returns[k].1, parts) {
            all_default = false;
        }
        k += 1;
    }
    assert(named == has_named_return(*f));
    if named && !all_default {
        let ghost j = choose|j: int| 0 <= j < f.returns@.len() && !return_has_default((#[trigger] f.returns@[j]).1, parts@);
        assert(!return_has_default(f.returns@[j].1, parts@));
        return false;
    }
    if f.ty == FunctionTy::Constructor {
        assert(is_ctor(*f));
        return true;
    }
    let mut m: usize = 0;
    while m < f.attributes.len()
        invariant
            0 <= m <= f.attributes@.len(),
            first_mutability(f.attributes@.take(m as int)) is None,
            stmt_ok(f.body),
            has_named_return(*f) ==> forall|k: int| 0 <= k < f.returns@.len() ==>
                return_has_default((#[trigger] f.returns@[k]).1, parts@),
            !is_ctor(*f),
        decreases f.attributes@.len() - m,
    {
        proof {
            assert(f.attributes@.take(m + 1).drop_last() =~= f.attributes@.take(m as int));
        }
        if let FunctionAttribute::StateMutability(sm) = &f.attributes[m] {
            proof {
                lemma_first_mutability_prefix(f.attributes@, m as int);
                assert(first_mutability(f.attributes@) == Some(*sm));
            }
            return !matches!(sm, StateMutability::Payable(_));
        }
        m += 1;
    }
    assert(f.attributes@.take(f.attributes@.len() as int) =~= f.attributes@);
    true
}

/// Where the first `k` attributes have no mutability and attribute `k` is
/// one, it is the first.
proof fn lemma_first_mutability_prefix(attrs: Seq<FunctionAttribute>, k: int)
    requires
        0 <= k < attrs.len(),
        first_mutability(attrs.take(k)) is None,
        attrs[k] is StateMutability,
    ensures
        first_mutability(attrs) == Some(attrs[k]->StateMutability_0),
    decreases attrs.len(),
{
    if k == attrs.len() - 1 {
        assert(attrs.drop_last() =~= attrs.take(k));
    } else {
        assert(attrs.drop_last().take(k) =~= attrs.take(k));
        lemma_first_mutability_prefix(attrs.drop_last(), k);
    }
}

/// Are the parts of a contract definition ones the resolver takes?
pub fn contract_def_checked(parts: &Vec<ast::ContractPart>) -> (r: bool)
    ensures
        r == contract_def_ok(parts@),
{
    let mut i: usize = 0;
    while i < parts.len()
        invariant
            0 <= i <= parts@.len(),
            forall|j: int| 0 <= j < i ==> ((#[trigger] parts@[j]) matches ast::ContractPart::EnumDefinition(e) ==> e.values@.len() >= 1),
            forall|j: int| 0 <= j < i ==> ((#[trigger] parts@[j]) matches ast::ContractPart::ContractVariableDefinition(s) ==>
                (s.initializer matches Some(x) ==> expr_ok(x))),
            forall|j: int| 0 <= j < i ==> ((#[trigger] parts@[j]) matches ast::ContractPart::FunctionDefinition(f) ==> {
                &&& stmt_ok(f.body)
                &&& (has_named_return(f) ==> forall|k: int| 0 <= k < f.returns@.len() ==>
                    return_has_default((#[trigger] f.returns@[k]).1, parts@))
                &&& (!is_ctor(f) ==> !(first_mutability(f.attributes@) matches Some(StateMutability::Payable(_))))
            }),
        decreases parts@.len() - i,
    {
        let ok = match &parts[i] {
            ast::ContractPart::EnumDefinition(e) => e.values.len() >= 1,
            ast::ContractPart::ContractVariableDefinition(s) => match &s.initializer {
                Some(x) => expr_checked(x),
                None => true,
            },
            ast::ContractPart::FunctionDefinition(f) => function_checked(f, parts),
            _ => true,
        };
        if !ok {
            return false;
        }
        i += 1;
    }
    true
}

/// Are the contract definitions of the unit ones the resolver takes? This is
/// what `parse_and_resolve` asks of its input.
pub fn unit_checked(s: &ast::SourceUnit) -> (r: bool)
    ensures
        r == unit_ok(*s),
{
    let mut i: usize = 0;
    while i < s.0.len()
        invariant
            0 <= i <= s.0@.len(),
            forall|j: int| 0 <= j < i ==>
                ((#[trigger] s.0@[j]) matches ast::SourceUnitPart::ContractDefinition(def) ==> contract_def_ok(def.parts@)),
        decreases s.0@.len() - i,
    {
        if let ast::SourceUnitPart::ContractDefinition(def) = &s.0[i] {
            if !contract_def_checked(&def.parts) {
                return false;
            }
        }
        i += 1;
    }
    true
}

} // verus!
