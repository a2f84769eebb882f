//! Resolving a contract definition: its enums, structs, function signatures,
//! state variables and function bodies, in that order.
use crate::ast;
use crate::ast::{Loc, PrimitiveType, StateMutability, Visibility, is_fixed_width};
use crate::output::{Output, Level, ErrorType, is_diag, extends, error_added, join2, join3, push_error,
    lemma_pushed_error, lemma_extends_trans, lemma_error_added_trans};
use crate::Target;
use super::{Contract, EnumDecl, FunctionDecl, Symbol, TypeV, Type, symbol_wf, lookup, symbol_index, resolve_type_spec,
    function_wf, enum_decl, lemma_wf_extend, lemma_symbol_index, lemma_type_wf_grow, type_wf, enum_width, entries_view,
    enum_entries, lemma_lookup_push, dims_positive};
use super::cfg::{ControlFlowGraph, Vartable, Instr, has_default, cfg_wf, state_wf, lemma_cfg_wf_contract,
    lemma_expression_wf_decls};
use super::functions::{function_decl, overloads_distinct, header_ok, decl_of, decl_type, is_ctor, is_fallback_def, first_mutability,
    resolved_params, storage_allowed, visibility_of, fn_name, function_decl_done};
use super::structs::{struct_decl, struct_ok, kept_fields, fields_view, distinct_fields, lemma_kept_all};
use super::variables::{contract_variables, variables_declared, var_inits_ok, symbols_grew_vars, var_defs, var_refused, no_var_inits, var_attrs_ok, is_constant_var};
use super::statement::{generate_cfg, stmt_ok, has_named_return, generate_cfg_done};
use super::printer::blocks_text;
use crate::bignum::{nat_decimal, u64_to_decimal};
use vstd::prelude::*;

verus! {

/// A struct with this name is defined among the parts.
pub open spec fn is_struct_def_name(parts: Seq<ast::ContractPart>, name: Seq<char>) -> bool {
    exists|j: int| 0 <= j < parts.len() && ((#[trigger] parts[j]) matches ast::ContractPart::StructDefinition(sd)
        && sd.name.name@ == name)
}

/// Every struct name in the symbol table is that of a struct defined among
/// the parts.
pub open spec fn structs_from_defs(c: Contract, parts: Seq<ast::ContractPart>) -> bool {
    forall|i: int| 0 <= i < c.symbols@.len() ==> ((#[trigger] c.symbols@[i]).1 is Struct
        ==> is_struct_def_name(parts, c.symbols@[i].0@))
}

/// A return value that is named, or that comes with named ones, starts at
/// the default value of its type: its type must have one, so it is no array,
/// string, dynamic bytes or struct.
pub open spec fn return_has_default(p: Option<ast::Parameter>, parts: Seq<ast::ContractPart>) -> bool {
    p matches Some(q) ==> match q.ty {
        ast::Type::Primitive(pt, dims) => dims@.len() == 0 && is_fixed_width(pt),
        ast::Type::Unresolved(id, dims) => dims@.len() == 0 && !is_struct_def_name(parts, id.name@),
    }
}

/// What the resolver takes from the parser without checking: enums have
/// values, expressions are well formed, named return values have types with a
/// default, and no function is declared payable.
pub open spec fn contract_def_ok(parts: Seq<ast::ContractPart>) -> bool {
    &&& forall|j: int| 0 <= j < parts.len() ==>
        ((#[trigger] parts[j]) matches ast::ContractPart::EnumDefinition(e) ==> e.values@.len() >= 1)
    &&& var_inits_ok(parts)
    &&& forall|j: int| 0 <= j < parts.len() ==> ((#[trigger] parts[j]) matches ast::ContractPart::FunctionDefinition(f) ==> {
        &&& stmt_ok(f.body)
        &&& (has_named_return(f) ==> forall|k: int| 0 <= k < f.returns@.len() ==>
            return_has_default((#[trigger] f.returns@[k]).1, parts))
        &&& (!is_ctor(f) ==> !(first_mutability(f.attributes@) matches Some(StateMutability::Payable(_))))
    })
}

/// A declaration comes from the function definition at its index, with as
/// many parameters and return values, which have defaults where one is named.
pub open spec fn decl_fits(d: FunctionDecl, parts: Seq<ast::ContractPart>) -> bool {
    d.ast_index matches Some(k) ==> {
        &&& k < parts.len()
        &&& parts[k as int] matches ast::ContractPart::FunctionDefinition(f)
        &&& d.params@.len() == f.params@.len()
        &&& d.returns@.len() == f.returns@.len()
        &&& (has_named_return(f) ==> forall|i: int| 0 <= i < d.returns@.len() ==> has_default(#[trigger] d.returns@[i].ty))
        &&& (!is_ctor(f) ==> !(d.mutability matches Some(StateMutability::Payable(_))))
        &&& d.mutability == first_mutability(f.attributes@)
    }
}

/// A function declaration does not come from a constructor definition.
pub open spec fn not_from_ctor(d: FunctionDecl, parts: Seq<ast::ContractPart>) -> bool {
    d.ast_index matches Some(k) ==> (parts[k as int] matches ast::ContractPart::FunctionDefinition(f) && !is_ctor(f))
}

/// The declarations are those of the function definitions among the first
/// `n` parts that are constructors (`ctor`) or are not: one for each, in the
/// order of the definitions, each with its definition's index and name.
pub open spec fn declared_in_order(ds: Seq<FunctionDecl>, parts: Seq<ast::ContractPart>, ctor: bool, n: int) -> bool {
    &&& forall|k: int| 0 <= k < ds.len() ==> ((#[trigger] ds[k]).ast_index matches Some(i) && i < n
        && (parts[i as int] matches ast::ContractPart::FunctionDefinition(f) && is_ctor(f) == ctor && ds[k].name@ == fn_name(f)))
    &&& forall|k: int, l: int| 0 <= k < l < ds.len() ==> (#[trigger] ds[k]).ast_index.unwrap() < (#[trigger] ds[l]).ast_index.unwrap()
    &&& forall|j: int| 0 <= j < n ==> ((#[trigger] parts[j]) matches ast::ContractPart::FunctionDefinition(f) && is_ctor(f) == ctor
        ==> exists|k: int| 0 <= k < ds.len() && ((#[trigger] ds[k]).ast_index matches Some(x) && x == j))
}

/// The constructors are those of the constructor definitions, in order; or,
/// where there is none, the one constructor without a definition.
pub open spec fn ctors_declared(cs: Seq<FunctionDecl>, parts: Seq<ast::ContractPart>) -> bool {
    ||| declared_in_order(cs, parts, true, parts.len() as int)
    ||| (cs.len() == 1 && implicit_ctor(cs[0]) && forall|j: int| 0 <= j < parts.len()
        ==> !((#[trigger] parts[j]) matches ast::ContractPart::FunctionDefinition(f) && is_ctor(f)))
}

/// The constructor added where a Substrate contract defines none: public,
/// without name, parameters or return values, and without a definition: its
/// graph is one block that only returns.
pub open spec fn implicit_ctor(d: FunctionDecl) -> bool {
    &&& d.ast_index is None
    &&& d.name@.len() == 0
    &&& d.params@.len() == 0
    &&& d.returns@.len() == 0
    &&& d.visibility is Public
    &&& d.cfg matches Some(g) && g.bb@.len() == 1 && g.bb@[0].instr@.len() == 1
        && (g.bb@[0].instr@[0] matches Instr::Return { value } && value@.len() == 0)
}

/// No declaration has a graph yet.
pub open spec fn no_graphs(fs: Seq<FunctionDecl>) -> bool {
    forall|i: int| 0 <= i < fs.len() ==> (#[trigger] fs[i]).cfg is None
}

/// The state of a contract while it is resolved.
pub open spec fn resolving(c: Contract, parts: Seq<ast::ContractPart>) -> bool {
    &&& c.wf()
    &&& overloads_distinct(c)
    &&& structs_from_defs(c, parts)
    &&& forall|i: int| 0 <= i < c.functions@.len() ==> decl_fits(#[trigger] c.functions@[i], parts)
        && not_from_ctor(c.functions@[i], parts)
    &&& forall|i: int| 0 <= i < c.constructors@.len() ==> decl_fits(#[trigger] c.constructors@[i], parts)
}

/// A definition that a warning alone can refuse: a constructor with return
/// values, or a fallback function with parameters or return values.
pub open spec fn warn_only(f: ast::FunctionDefinition) -> bool {
    (is_ctor(f) && f.returns@.len() > 0) || (is_fallback_def(f) && (f.returns@.len() > 0 || f.params@.len() > 0))
}

/// Some function definition among the parts is one a warning alone refuses.
pub open spec fn some_warn_only(parts: Seq<ast::ContractPart>) -> bool {
    exists|j: int| 0 <= j < parts.len() && ((#[trigger] parts[j]) matches ast::ContractPart::FunctionDefinition(f) && warn_only(f))
}

/// A declaration resolved from a definition with named return values gets
/// return types that have a default value.
proof fn lemma_default_returns(
    d: FunctionDecl,
    f: ast::FunctionDefinition,
    i: usize,
    c: Contract,
    parts: Seq<ast::ContractPart>,
)
    requires
        decl_of(d, f, i, c),
        header_ok(f, c),
        structs_from_defs(c, parts),
        c.wf(),
        has_named_return(f) ==> forall|k: int| 0 <= k < f.returns@.len() ==> return_has_default((#[trigger] f.returns@[k]).1, parts),
    ensures
        has_named_return(f) ==> forall|k: int| 0 <= k < d.returns@.len() ==> has_default(#[trigger] d.returns@[k].ty),
{
    if has_named_return(f) {
        assert forall|k: int| 0 <= k < d.returns@.len() implies has_default(#[trigger] d.returns@[k].ty) by {
            let allowed = storage_allowed(visibility_of(f));
            assert(decl_type(f.returns@[k].1, c, allowed, true) is Some);
            assert(return_has_default(f.returns@[k].1, parts));
            let q = f.returns@[k].1.unwrap();
            let t = d.returns@[k].ty;
            match q.ty {
                ast::Type::Primitive(pt, dims) => {
                    assert(t@ == TypeV::Primitive(pt));
                },
                ast::Type::Unresolved(id, dims) => {
                    lemma_symbol_index(c.symbols@, id.name@);
                    match lookup(c.symbols@, id.name@) {
                        Some(Symbol::Enum(_, n)) => {
                            assert(t@ == TypeV::Enum(n));
                        },
                        Some(Symbol::Struct(_, n)) => {
                            let idx = symbol_index(c.symbols@, id.name@).unwrap();
                            assert(c.symbols@[idx].1 is Struct);
                            assert(is_struct_def_name(parts, id.name@));
                        },
                        _ => {},
                    }
                },
            }
        }
    }
}

/// The enum definitions among the parts, in order.
pub open spec fn enum_defs(parts: Seq<ast::ContractPart>) -> Seq<ast::EnumDefinition>
    decreases parts.len(),
{
    if parts.len() == 0 {
        Seq::empty()
    } else {
        let rest = enum_defs(parts.drop_last());
        match parts.last() {
            ast::ContractPart::EnumDefinition(e) => rest.push(e),
            _ => rest,
        }
    }
}

/// The declaration is the one `enum_decl` makes of the definition.
pub open spec fn enum_declared(d: EnumDecl, e: ast::EnumDefinition) -> bool {
    &&& d.name@ == e.name.name@
    &&& d.ty == PrimitiveType::Uint(enum_width(e.values@.len()) as u16)
    &&& entries_view(d.values@) == enum_entries(e.values@)
}

/// Is the name of the `k`th enum taken when it is declared: by a symbol
/// there was before, or by an earlier enum?
pub open spec fn enum_name_taken(syms: Seq<(String, Symbol)>, es: Seq<ast::EnumDefinition>, k: int) -> bool {
    lookup(syms, es[k].name.name@) is Some || exists|m: int| 0 <= m < k && (#[trigger] es[m]).name.name@ == es[k].name.name@
}

/// What declaring the enums of `def` does, from `c0` and `e0` to `c1` and
/// `e1`; `r` says whether one was refused.
pub open spec fn enums_declared(def: ast::ContractDefinition, c0: Contract, c1: Contract, e0: Seq<Output>, e1: Seq<Output>, r: bool) -> bool {
    &&& resolving(c1, def.parts@)
    &&& c1.structs@.len() == 0
    &&& c1.functions@.len() == 0
    &&& c1.constructors@.len() == 0
    &&& c1.variables@.len() == 0
    &&& c1.constants@.len() == 0
    &&& c1.name == c0.name
    &&& c1.target == c0.target
    &&& c1.top_of_contract_storage == c0.top_of_contract_storage
    &&& extends(e0, e1)
    &&& (r ==> error_added(e0, e1))
    &&& c1.enums@.len() == c0.enums@.len() + enum_defs(def.parts@).len()
    &&& (forall|k: int| 0 <= k < c0.enums@.len() ==> #[trigger] c1.enums@[k] == c0.enums@[k])
    &&& (forall|k: int| 0 <= k < enum_defs(def.parts@).len()
        ==> enum_declared(#[trigger] c1.enums@[c0.enums@.len() + k], enum_defs(def.parts@)[k]))
    &&& r == exists|k: int| 0 <= k < enum_defs(def.parts@).len() && #[trigger] enum_name_taken(c0.symbols@, enum_defs(def.parts@), k)
    &&& (forall|n: Seq<char>| (#[trigger] lookup(c1.symbols@, n) is Some) == (lookup(c0.symbols@, n) is Some
        || exists|k: int| 0 <= k < enum_defs(def.parts@).len() && (#[trigger] enum_defs(def.parts@)[k]).name.name@ == n))
}

/// Declare the enums of the contract, in order. Returns whether any name was
/// taken already.
fn declare_enums(def: &ast::ContractDefinition, ns: &mut Contract, errors: &mut Vec<Output>) -> (r: bool)
    requires
        resolving(*old(ns), def.parts@),
        contract_def_ok(def.parts@),
        old(ns).structs@.len() == 0,
        old(ns).functions@.len() == 0,
        old(ns).constructors@.len() == 0,
        old(ns).variables@.len() == 0,
        old(ns).constants@.len() == 0,
    ensures
        enums_declared(*def, *old(ns), *final(ns), old(errors)@, final(errors)@, r),
{
    let mut broken = false;
    let mut i: usize = 0;
    proof {
        assert(def.parts@.take(0) =~= Seq::<ast::ContractPart>::empty());
    }
    while i < def.parts.len()
        invariant
            0 <= i <= def.parts@.len(),
            resolving(*ns, def.parts@),
            contract_def_ok(def.parts@),
            ns.enums@.len() == old(ns).enums@.len() + enum_defs(def.parts@.take(i as int)).len(),
            forall|k: int| 0 <= k < old(ns).enums@.len() ==> #[trigger] ns.enums@[k] == old(ns).enums@[k],
            forall|k: int| 0 <= k < enum_defs(def.parts@.take(i as int)).len()
                ==> enum_declared(#[trigger] ns.enums@[old(ns).enums@.len() + k], enum_defs(def.parts@.take(i as int))[k]),
            broken == exists|k: int| 0 <= k < enum_defs(def.parts@.take(i as int)).len()
                && #[trigger] enum_name_taken(old(ns).symbols@, enum_defs(def.parts@.take(i as int)), k),
            forall|n: Seq<char>| (#[trigger] lookup(ns.symbols@, n) is Some) == (lookup(old(ns).symbols@, n) is Some
                || exists|k: int| 0 <= k < enum_defs(def.parts@.take(i as int)).len()
                    && (#[trigger] enum_defs(def.parts@.take(i as int))[k]).name.name@ == n),
            ns.structs@.len() == 0,
            ns.functions@.len() == 0,
            ns.constructors@.len() == 0,
            ns.variables@.len() == 0,
            ns.constants@.len() == 0,
            ns.name == old(ns).name,
            ns.target == old(ns).target,
            ns.top_of_contract_storage == old(ns).top_of_contract_storage,
            extends(old(errors)@, errors@),
            broken ==> error_added(old(errors)@, errors@),
        decreases def.parts@.len() - i,
    {
        if let ast::ContractPart::EnumDefinition(e) = &def.parts[i] {
            assert(def.parts@[i as int] matches ast::ContractPart::EnumDefinition(_));
            let ghost c0 = *ns;
            let ghost before = errors@;
            let pos = ns.enums.len();
            let decl = enum_decl(e, errors);
            ns.enums.push(decl);
            let ghost e1 = errors@;
            let ok = super::add_symbol(&mut ns.symbols, &e.name, Symbol::Enum(e.name.loc, pos), errors);
            proof {
                lemma_symbol_index(c0.symbols@, e.name.name@);
                assert forall|m: int| 0 <= m < ns.symbols@.len() implies symbol_wf((#[trigger] ns.symbols@[m]).1, *ns) by {
                    if m < c0.symbols@.len() {
                        assert(ns.symbols@[m] == c0.symbols@[m]);
                        assert(symbol_wf(c0.symbols@[m].1, c0));
                    }
                }
                if ok {
                    assert forall|a: int, b: int| 0 <= a < b < ns.symbols@.len() implies
                        (#[trigger] ns.symbols@[a]).0@ != (#[trigger] ns.symbols@[b]).0@ by {
                        assert(ns.symbols@[a] == c0.symbols@[a]);
                        if b < c0.symbols@.len() {
                            assert(ns.symbols@[b] == c0.symbols@[b]);
                        }
                    }
                    assert forall|m: int| 0 <= m < ns.symbols@.len() implies ((#[trigger] ns.symbols@[m]).1 is Struct
                        ==> is_struct_def_name(def.parts@, ns.symbols@[m].0@)) by {
                        if m < c0.symbols@.len() {
                            assert(ns.symbols@[m] == c0.symbols@[m]);
                        }
                    }
                } else {
                    lemma_pushed_error(e1, errors@);
                    lemma_error_added_trans(before, e1, errors@);
                }
                lemma_extends_trans(old(errors)@, before, e1);
                lemma_extends_trans(old(errors)@, e1, errors@);
                if broken || !ok {
                    lemma_error_added_trans(old(errors)@, before, errors@);
                }
            }
            let ghost broken0 = broken;
            if !ok {
                broken = true;
            }
            proof {
                lemma_enum_defs_step(def.parts@, i as int);
                let es0 = enum_defs(def.parts@.take(i as int));
                let es1 = enum_defs(def.parts@.take(i as int + 1));
                let name = e.name.name@;
                assert(es1 == es0.push(*e));
                let o = old(ns).enums@.len();
                assert forall|k: int| 0 <= k < es1.len() implies enum_declared(#[trigger] ns.enums@[o + k], es1[k]) by {
                    if k < es0.len() {
                        assert(ns.enums@[o + k] == c0.enums@[o + k]);
                        assert(es1[k] == es0[k]);
                    }
                }
                assert forall|k: int| 0 <= k < o implies #[trigger] ns.enums@[k] == old(ns).enums@[k] by {
                    assert(ns.enums@[k] == c0.enums@[k]);
                }
                assert forall|k: int| 0 <= k < es0.len() implies
                    #[trigger] enum_name_taken(old(ns).symbols@, es1, k) == enum_name_taken(old(ns).symbols@, es0, k) by {
                    assert(es1[k] == es0[k]);
                    assert forall|m: int| 0 <= m < k implies es1[m] == es0[m] by {}
                }
                assert(lookup(c0.symbols@, name) is Some == (lookup(old(ns).symbols@, name) is Some
                    || exists|k: int| 0 <= k < es0.len() && (#[trigger] es0[k]).name.name@ == name));
                assert(enum_name_taken(old(ns).symbols@, es1, es0.len() as int) == !ok) by {
                    if exists|k: int| 0 <= k < es0.len() && (#[trigger] es0[k]).name.name@ == name {
                        let k = choose|k: int| 0 <= k < es0.len() && (#[trigger] es0[k]).name.name@ == name;
                        assert(es1[k] == es0[k]);
                    }
                    if exists|m: int| 0 <= m < es0.len() && (#[trigger] es1[m]).name.name@ == name {
                        let m = choose|m: int| 0 <= m < es0.len() && (#[trigger] es1[m]).name.name@ == name;
                        assert(es1[m] == es0[m]);
                    }
                }
                if broken {
                    if broken0 {
                        let k = choose|k: int| 0 <= k < es0.len() && #[trigger] enum_name_taken(old(ns).symbols@, es0, k);
                        assert(enum_name_taken(old(ns).symbols@, es1, k));
                    }
                } else {
                    assert forall|k: int| 0 <= k < es1.len() implies !#[trigger] enum_name_taken(old(ns).symbols@, es1, k) by {
                        if k < es0.len() {
                            assert(!enum_name_taken(old(ns).symbols@, es0, k));
                        }
                    }
                }
                assert forall|n: Seq<char>| (#[trigger] lookup(ns.symbols@, n) is Some) == (lookup(old(ns).symbols@, n) is Some
                    || exists|k: int| 0 <= k < es1.len() && (#[trigger] es1[k]).name.name@ == n) by {
                    if ok {
                        lemma_lookup_push(c0.symbols@, ns.symbols@.last(), n);
                        assert(ns.symbols@ =~= c0.symbols@.push(ns.symbols@.last()));
                    }
                    assert(lookup(c0.symbols@, n) is Some == (lookup(old(ns).symbols@, n) is Some
                        || exists|k: int| 0 <= k < es0.len() && (#[trigger] es0[k]).name.name@ == n));
                    if exists|k: int| 0 <= k < es0.len() && (#[trigger] es0[k]).name.name@ == n {
                        let k = choose|k: int| 0 <= k < es0.len() && (#[trigger] es0[k]).name.name@ == n;
                        assert(es1[k] == es0[k]);
                    }
                    if exists|k: int| 0 <= k < es1.len() && (#[trigger] es1[k]).name.name@ == n {
                        let k = choose|k: int| 0 <= k < es1.len() && (#[trigger] es1[k]).name.name@ == n;
                        if k < es0.len() {
                            assert(es1[k] == es0[k]);
                        }
                    }
                }
            }
        } else {
            proof {
                lemma_enum_defs_step(def.parts@, i as int);
            }
        }
        i += 1;
    }
    proof {
        assert(def.parts@.take(def.parts@.len() as int) =~= def.parts@);
    }
    broken
}

/// The enum definitions among one more part.
proof fn lemma_enum_defs_step(parts: Seq<ast::ContractPart>, i: int)
    requires
        0 <= i < parts.len(),
    ensures
        enum_defs(parts.take(i + 1)) == match parts[i] {
            ast::ContractPart::EnumDefinition(e) => enum_defs(parts.take(i)).push(e),
            _ => enum_defs(parts.take(i)),
        },
{
    assert(parts.take(i + 1).drop_last() =~= parts.take(i));
}

/// What declaring a struct definition does to the contract: the struct is
/// appended with the fields that resolved, and its name is declared where it
/// is free; nothing else changes.
pub open spec fn struct_declared(c0: Contract, c1: Contract, d: ast::StructDefinition) -> bool {
    let named = lookup(c0.symbols@, d.name.name@) is None;
    &&& c1.structs@.len() == c0.structs@.len() + 1
    &&& c1.structs@.drop_last() == c0.structs@
    &&& c1.structs@.last().name@ == d.name.name@
    &&& fields_view(c1.structs@.last().fields@) == kept_fields(d.fields@, c0)
    &&& named ==> {
        &&& c1.symbols@.len() == c0.symbols@.len() + 1
        &&& c1.symbols@.drop_last() == c0.symbols@
        &&& c1.symbols@.last().0@ == d.name.name@
        &&& c1.symbols@.last().1 == Symbol::Struct(d.name.loc, c0.structs@.len() as usize)
    }
    &&& !named ==> c1.symbols@ == c0.symbols@
    &&& c1.enums == c0.enums
    &&& c1.functions == c0.functions
    &&& c1.constructors == c0.constructors
    &&& c1.variables == c0.variables
    &&& c1.constants == c0.constants
    &&& c1.name == c0.name
    &&& c1.doc == c0.doc
    &&& c1.initializer == c0.initializer
    &&& c1.target == c0.target
    &&& c1.top_of_contract_storage == c0.top_of_contract_storage
}

/// No part is a struct definition.
pub open spec fn no_struct_parts(parts: Seq<ast::ContractPart>) -> bool {
    forall|k: int| 0 <= k < parts.len() ==> !((#[trigger] parts[k]) is StructDefinition)
}

/// No part is a function or constructor definition.
pub open spec fn no_function_parts(parts: Seq<ast::ContractPart>) -> bool {
    forall|k: int| 0 <= k < parts.len() ==> !((#[trigger] parts[k]) is FunctionDefinition)
}

/// Is the part a struct definition that is refused in this state: a field
/// is wrong, or its name is taken?
pub open spec fn struct_refused(c: Contract, p: ast::ContractPart) -> bool {
    p matches ast::ContractPart::StructDefinition(d) && !(struct_ok(d, c) && lookup(c.symbols@, d.name.name@) is None)
}

/// `cs` are the states of the contract while the struct definitions among the
/// first `n` parts are declared in order, from `c0` on; `broken` says whether
/// one was refused.
pub open spec fn structs_chain(cs: Seq<Contract>, parts: Seq<ast::ContractPart>, n: int, c0: Contract, broken: bool) -> bool {
    &&& cs.len() == n + 1
    &&& cs[0] == c0
    &&& forall|j: int| 0 <= j < n ==> match #[trigger] parts[j] {
        ast::ContractPart::StructDefinition(d) => struct_declared(cs[j], cs[j + 1], d),
        _ => cs[j + 1] == cs[j],
    }
    &&& broken == exists|j: int| 0 <= j < n && #[trigger] struct_refused(cs[j], parts[j])
}

/// What declaring the structs of `def` does; `r` says whether one was refused.
pub open spec fn structs_declared(def: ast::ContractDefinition, c0: Contract, c1: Contract, e0: Seq<Output>, e1: Seq<Output>, r: bool) -> bool {
    &&& resolving(c1, def.parts@)
    &&& c1.functions@.len() == 0
    &&& c1.constructors@.len() == 0
    &&& c1.variables@.len() == 0
    &&& c1.constants@.len() == 0
    &&& c1.name == c0.name
    &&& c1.target == c0.target
    &&& c1.top_of_contract_storage == c0.top_of_contract_storage
    &&& extends(e0, e1)
    &&& (r ==> error_added(e0, e1))
    &&& (exists|cs: Seq<Contract>| #[trigger] structs_chain(cs, def.parts@, def.parts@.len() as int, c0, r)
        && cs.last() == c1)
    &&& (no_struct_parts(def.parts@) ==> !r && c1 == c0)
}

/// Declare the structs of the contract, in order. Returns whether any was
/// refused.
fn declare_structs(def: &ast::ContractDefinition, ns: &mut Contract, errors: &mut Vec<Output>) -> (r: bool)
    requires
        resolving(*old(ns), def.parts@),
        old(ns).functions@.len() == 0,
        old(ns).constructors@.len() == 0,
        old(ns).variables@.len() == 0,
        old(ns).constants@.len() == 0,
    ensures
        structs_declared(*def, *old(ns), *final(ns), old(errors)@, final(errors)@, r),
{
    let mut broken = false;
    let mut i: usize = 0;
    let ghost mut cs: Seq<Contract> = seq![*ns];
    while i < def.parts.len()
        invariant
            0 <= i <= def.parts@.len(),
            structs_chain(cs, def.parts@, i as int, *old(ns), broken),
            cs.last() == *ns,
            no_struct_parts(def.parts@) ==> *ns == *old(ns),
            resolving(*ns, def.parts@),
            ns.functions@.len() == 0,
            ns.constructors@.len() == 0,
            ns.variables@.len() == 0,
            ns.constants@.len() == 0,
            ns.name == old(ns).name,
            ns.target == old(ns).target,
            ns.top_of_contract_storage == old(ns).top_of_contract_storage,
            extends(old(errors)@, errors@),
            broken ==> error_added(old(errors)@, errors@),
        decreases def.parts@.len() - i,
    {
        let ghost cs0 = cs;
        let ghost broken0 = broken;
        if let ast::ContractPart::StructDefinition(s) = &def.parts[i] {
            let ghost c0 = *ns;
            let ghost before = errors@;
            let ok = struct_decl(s, ns, errors);
            proof {
                assert(def.parts@[i as int] matches ast::ContractPart::StructDefinition(sd) && sd.name.name@ == s.name.name@);
                assert forall|m: int| 0 <= m < ns.symbols@.len() implies ((#[trigger] ns.symbols@[m]).1 is Struct
                    ==> is_struct_def_name(def.parts@, ns.symbols@[m].0@)) by {
                    if m < c0.symbols@.len() {
                        assert(ns.symbols@[m] == c0.symbols@[m]);
                    }
                }
                lemma_extends_trans(old(errors)@, before, errors@);
                if broken || !ok {
                    lemma_error_added_trans(old(errors)@, before, errors@);
                }
            }
            if !ok {
                broken = true;
            }
            proof {
                assert(def.parts@[i as int] == ast::ContractPart::StructDefinition(*s));
                assert(struct_declared(c0, *ns, *s));
                assert(ok == !struct_refused(c0, def.parts@[i as int]));
            }
        }
        proof {
            cs = cs0.push(*ns);
            assert forall|j: int| 0 <= j < i + 1 implies match #[trigger] def.parts@[j] {
                ast::ContractPart::StructDefinition(d) => struct_declared(cs[j], cs[j + 1], d),
                _ => cs[j + 1] == cs[j],
            } by {
                assert(cs[j] == cs0[j]);
                if j < i {
                    assert(cs[j + 1] == cs0[j + 1]);
                }
            }
            assert forall|j: int| 0 <= j < i implies #[trigger] struct_refused(cs[j], def.parts@[j]) == struct_refused(cs0[j], def.parts@[j]) by {
                assert(cs[j] == cs0[j]);
            }
            assert(cs[i as int] == cs0.last());
            if broken0 {
                let j = choose|j: int| 0 <= j < i && #[trigger] struct_refused(cs0[j], def.parts@[j]);
                assert(struct_refused(cs[j], def.parts@[j]));
            }
            if broken && !broken0 {
                assert(struct_refused(cs[i as int], def.parts@[i as int]));
            }
        }
        i += 1;
    }
    proof {
        assert(structs_chain(cs, def.parts@, def.parts@.len() as int, *old(ns), broken));
    }
    broken
}

/// `cs` are the states of the contract while the function definitions among
/// the first `n` parts are declared in order, from `c0` on; `oks` says for
/// each part whether it was accepted (a part that is not a function is).
pub open spec fn functions_chain(cs: Seq<Contract>, oks: Seq<bool>, parts: Seq<ast::ContractPart>, n: int, c0: Contract) -> bool {
    &&& cs.len() == n + 1
    &&& oks.len() == n
    &&& cs[0] == c0
    &&& forall|j: int| 0 <= j < n ==> match #[trigger] parts[j] {
        ast::ContractPart::FunctionDefinition(f) => exists|e0: Seq<Output>, e1: Seq<Output>|
            #[trigger] function_decl_done(f, j as usize, cs[j], cs[j + 1], e0, e1, oks[j]),
        _ => cs[j + 1] == cs[j] && oks[j],
    }
}

/// One more part declared extends the chain.
proof fn lemma_functions_chain_step(cs: Seq<Contract>, oks: Seq<bool>, parts: Seq<ast::ContractPart>, i: int, c0: Contract,
    c1: Contract, ok: bool)
    requires
        0 <= i < parts.len(),
        functions_chain(cs, oks, parts, i, c0),
        parts[i] matches ast::ContractPart::FunctionDefinition(f) ==> exists|e0: Seq<Output>, e1: Seq<Output>|
            #[trigger] function_decl_done(f, i as usize, cs.last(), c1, e0, e1, ok),
        !(parts[i] is FunctionDefinition) ==> c1 == cs.last() && ok,
    ensures
        functions_chain(cs.push(c1), oks.push(ok), parts, i + 1, c0),
        (exists|j: int| 0 <= j < oks.push(ok).len() && !#[trigger] oks.push(ok)[j])
            == ((exists|j: int| 0 <= j < oks.len() && !#[trigger] oks[j]) || !ok),
{
    let cs1 = cs.push(c1);
    let oks1 = oks.push(ok);
    assert(cs1[i] == cs.last());
    assert forall|j: int| 0 <= j < i + 1 implies match #[trigger] parts[j] {
        ast::ContractPart::FunctionDefinition(g) => exists|e0: Seq<Output>, e1: Seq<Output>|
            #[trigger] function_decl_done(g, j as usize, cs1[j], cs1[j + 1], e0, e1, oks1[j]),
        _ => cs1[j + 1] == cs1[j] && oks1[j],
    } by {
        if j < i {
            assert(cs1[j] == cs[j] && cs1[j + 1] == cs[j + 1] && oks1[j] == oks[j]);
        } else {
            assert(cs1[j + 1] == c1 && oks1[j] == ok);
            if let ast::ContractPart::FunctionDefinition(f) = parts[i] {
                let (e0, e1) = choose|e0: Seq<Output>, e1: Seq<Output>| #[trigger] function_decl_done(f, i as usize, cs.last(), c1, e0, e1, ok);
                assert(function_decl_done(f, j as usize, cs1[j], cs1[j + 1], e0, e1, oks1[j]));
            }
        }
    }
    if exists|j: int| 0 <= j < oks1.len() && !#[trigger] oks1[j] {
        let j = choose|j: int| 0 <= j < oks1.len() && !#[trigger] oks1[j];
        if j < oks.len() { assert(!oks[j]); }
    }
    if exists|j: int| 0 <= j < oks.len() && !#[trigger] oks[j] {
        let j = choose|j: int| 0 <= j < oks.len() && !#[trigger] oks[j];
        assert(!oks1[j]);
    }
}

/// What declaring the functions and constructors of `def` does; `r` says
/// whether one was refused.
pub open spec fn functions_declared(def: ast::ContractDefinition, c0: Contract, c1: Contract, e0: Seq<Output>, e1: Seq<Output>, r: bool) -> bool {
    &&& (!r ==> declared_in_order(c1.functions@, def.parts@, false, def.parts@.len() as int))
    &&& (!r ==> declared_in_order(c1.constructors@, def.parts@, true, def.parts@.len() as int))
    &&& resolving(c1, def.parts@)
    &&& no_graphs(c1.functions@)
    &&& no_graphs(c1.constructors@)
    &&& c1.variables@.len() == 0
    &&& c1.constants@.len() == 0
    &&& c1.enums == c0.enums
    &&& c1.structs == c0.structs
    &&& c1.name == c0.name
    &&& c1.target == c0.target
    &&& c1.top_of_contract_storage == c0.top_of_contract_storage
    &&& extends(e0, e1)
    &&& (r ==> error_added(e0, e1) || some_warn_only(def.parts@))
    &&& (no_function_parts(def.parts@) ==> !r && c1 == c0)
    &&& (exists|cs: Seq<Contract>, oks: Seq<bool>| #[trigger] functions_chain(cs, oks, def.parts@, def.parts@.len() as int, c0)
        && cs.last() == c1 && (r == exists|j: int| 0 <= j < oks.len() && !#[trigger] oks[j]))
}

/// Declare the functions and constructors of the contract, in order. Returns
/// whether any was refused.
#[verifier::rlimit(40)]
fn declare_functions(def: &ast::ContractDefinition, ns: &mut Contract, errors: &mut Vec<Output>) -> (r: bool)
    requires
        resolving(*old(ns), def.parts@),
        contract_def_ok(def.parts@),
        old(ns).variables@.len() == 0,
        old(ns).constants@.len() == 0,
        no_graphs(old(ns).functions@),
        no_graphs(old(ns).constructors@),
        old(ns).functions@.len() == 0,
        old(ns).constructors@.len() == 0,
    ensures
        functions_declared(*def, *old(ns), *final(ns), old(errors)@, final(errors)@, r),
{
    let mut broken = false;
    let mut i: usize = 0;
    let ghost mut cs: Seq<Contract> = seq![*ns];
    let ghost mut oks: Seq<bool> = Seq::empty();
    while i < def.parts.len()
        invariant
            0 <= i <= def.parts@.len(),
            resolving(*ns, def.parts@),
            contract_def_ok(def.parts@),
            no_graphs(ns.functions@),
            no_graphs(ns.constructors@),
            ns.variables@.len() == 0,
            ns.constants@.len() == 0,
            ns.enums == old(ns).enums,
            ns.structs == old(ns).structs,
            ns.name == old(ns).name,
            ns.target == old(ns).target,
            ns.top_of_contract_storage == old(ns).top_of_contract_storage,
            extends(old(errors)@, errors@),
            broken ==> error_added(old(errors)@, errors@) || some_warn_only(def.parts@),
            !broken ==> declared_in_order(ns.functions@, def.parts@, false, i as int),
            !broken ==> declared_in_order(ns.constructors@, def.parts@, true, i as int),
            no_function_parts(def.parts@) ==> !broken && *ns == *old(ns),
            functions_chain(cs, oks, def.parts@, i as int, *old(ns)),
            cs.last() == *ns,
            broken == exists|j: int| 0 <= j < oks.len() && !#[trigger] oks[j],
        decreases def.parts@.len() - i,
    {
        let ghost cb = *ns;
        if let ast::ContractPart::FunctionDefinition(f) = &def.parts[i] {
            proof {
                if no_function_parts(def.parts@) {
                    assert(!(def.parts@[i as int] is FunctionDefinition));
                }
            }
            let ghost c0 = *ns;
            let ghost before = errors@;
            proof {
                assert(def.parts@[i as int] matches ast::ContractPart::FunctionDefinition(g) && g == *f);
            }
            let ok = function_decl(f, i, ns, errors);
            proof {
                assert(function_decl_done(*f, i, c0, *ns, before, errors@, ok));
                assert(cs.last() == c0);
                assert(def.parts@[i as int] == ast::ContractPart::FunctionDefinition(*f));
                assert((i as int) as usize == i);
                assert(function_decl_done(*f, (i as int) as usize, cs.last(), *ns, before, errors@, ok));
                lemma_functions_chain_step(cs, oks, def.parts@, i as int, *old(ns), *ns, ok);
                cs = cs.push(*ns);
                oks = oks.push(ok);
            }
            proof {
                if ok || header_ok(*f, c0) {
                    if is_ctor(*f) && ok {
                        lemma_default_returns(ns.constructors@.last(), *f, i, c0, def.parts@);
                    } else if ns.functions@.len() > c0.functions@.len() {
                        lemma_default_returns(ns.functions@.last(), *f, i, c0, def.parts@);
                    }
                }
                assert forall|m: int| 0 <= m < ns.functions@.len() implies decl_fits(#[trigger] ns.functions@[m], def.parts@)
                    && not_from_ctor(ns.functions@[m], def.parts@) by {
                    if m < c0.functions@.len() {
                        assert(ns.functions@[m] == c0.functions@[m]);
                    }
                }
                assert forall|m: int| 0 <= m < ns.constructors@.len() implies decl_fits(#[trigger] ns.constructors@[m], def.parts@) by {
                    if m < c0.constructors@.len() {
                        assert(ns.constructors@[m] == c0.constructors@[m]);
                    }
                }
                assert forall|m: int| 0 <= m < ns.functions@.len() implies (#[trigger] ns.functions@[m]).cfg is None by {
                    if m < c0.functions@.len() {
                        assert(ns.functions@[m] == c0.functions@[m]);
                    }
                }
                assert forall|m: int| 0 <= m < ns.constructors@.len() implies (#[trigger] ns.constructors@[m]).cfg is None by {
                    if m < c0.constructors@.len() {
                        assert(ns.constructors@[m] == c0.constructors@[m]);
                    }
                }
                assert forall|m: int| 0 <= m < ns.symbols@.len() implies ((#[trigger] ns.symbols@[m]).1 is Struct
                    ==> is_struct_def_name(def.parts@, ns.symbols@[m].0@)) by {
                    if m < c0.symbols@.len() && ns.symbols@[m] == c0.symbols@[m] {
                    } else if m < c0.symbols@.len() {
                        assert(ns.symbols@[m].1 is Function);
                    } else {
                        assert(ns.symbols@[m].1 is Function);
                    }
                }
                lemma_extends_trans(old(errors)@, before, errors@);
                if broken {
                    if error_added(old(errors)@, before) {
                        lemma_error_added_trans(old(errors)@, before, errors@);
                    }
                }
                if !ok {
                    if warn_only(*f) {
                        assert(some_warn_only(def.parts@));
                    } else {
                        lemma_error_added_trans(old(errors)@, before, errors@);
                    }
                }
            }
            if !ok {
                broken = true;
            }
            proof {
                if !broken {
                    if is_ctor(*f) {
                        assert(ns.constructors@.drop_last() =~= c0.constructors@);
                    } else {
                        assert(ns.functions@.drop_last() =~= c0.functions@);
                    }
                    lemma_declared_step(cb.functions@, ns.functions@, def.parts@, false, i as int);
                    lemma_declared_step(cb.constructors@, ns.constructors@, def.parts@, true, i as int);
                }
            }
        } else {
            proof {
                if !broken {
                    lemma_declared_step(cb.functions@, ns.functions@, def.parts@, false, i as int);
                    lemma_declared_step(cb.constructors@, ns.constructors@, def.parts@, true, i as int);
                }
                lemma_functions_chain_step(cs, oks, def.parts@, i as int, *old(ns), *ns, true);
                cs = cs.push(*ns);
                oks = oks.push(true);
            }
        }
        i += 1;
    }
    broken
}

/// Declaring the definition at index `i` keeps the declarations in order:
/// its declaration is appended where it is of the kind, the others stay.
proof fn lemma_declared_step(d0: Seq<FunctionDecl>, d1: Seq<FunctionDecl>, parts: Seq<ast::ContractPart>, ctor: bool, i: int)
    requires
        0 <= i < parts.len(),
        declared_in_order(d0, parts, ctor, i),
        (parts[i] matches ast::ContractPart::FunctionDefinition(f) && is_ctor(f) == ctor) ==> {
            &&& d1.drop_last() == d0
            &&& d1.len() == d0.len() + 1
            &&& (d1.last().ast_index matches Some(x) && x == i)
            &&& (parts[i] matches ast::ContractPart::FunctionDefinition(f) && d1.last().name@ == fn_name(f))
        },
        !(parts[i] matches ast::ContractPart::FunctionDefinition(f) && is_ctor(f) == ctor) ==> d1 == d0,
    ensures
        declared_in_order(d1, parts, ctor, i + 1),
{
    if parts[i] matches ast::ContractPart::FunctionDefinition(f) && is_ctor(f) == ctor {
        assert forall|k: int| 0 <= k < d1.len() - 1 implies #[trigger] d1[k] == d0[k] by {
            assert(d1.drop_last()[k] == d1[k]);
        }
        assert forall|k: int| 0 <= k < d1.len() implies ((#[trigger] d1[k]).ast_index matches Some(x) && x < i + 1
            && (parts[x as int] matches ast::ContractPart::FunctionDefinition(g) && is_ctor(g) == ctor && d1[k].name@ == fn_name(g))) by {
            if k < d1.len() - 1 {
                assert(d1[k] == d0[k]);
                assert(d0[k].ast_index matches Some(x) && x < i);
            } else {
                assert(d1[k] == d1.last());
            }
        }
        assert forall|k: int, l: int| 0 <= k < l < d1.len() implies (#[trigger] d1[k]).ast_index.unwrap() < (#[trigger] d1[l]).ast_index.unwrap() by {
            assert(d1[k] == d0[k]);
            assert(d0[k].ast_index matches Some(x) && x < i);
            if l < d1.len() - 1 {
                assert(d1[l] == d0[l]);
            } else {
                assert(d1[l] == d1.last());
            }
        }
        assert forall|j: int| 0 <= j < i + 1 implies ((#[trigger] parts[j]) matches ast::ContractPart::FunctionDefinition(f)
            && is_ctor(f) == ctor ==> exists|k: int| 0 <= k < d1.len() && ((#[trigger] d1[k]).ast_index matches Some(x) && x == j)) by {
            if parts[j] matches ast::ContractPart::FunctionDefinition(f) && is_ctor(f) == ctor {
                if j < i {
                    let k = choose|k: int| 0 <= k < d0.len() && ((#[trigger] d0[k]).ast_index matches Some(x) && x == j);
                    assert(d1[k] == d0[k]);
                } else {
                    assert(d1[d1.len() - 1] == d1.last());
                }
            }
        }
    }
}

/// Every function with a definition got its graph, well formed in the
/// contract.
pub open spec fn bodies_done(fs: Seq<FunctionDecl>, c: Contract) -> bool {
    forall|i: int| 0 <= i < fs.len() ==> ((#[trigger] fs[i]).ast_index is Some ==> (fs[i].cfg matches Some(g)
        && cfg_wf(*g, g.vars@.len() as nat, c)))
}

/// The graphs that exist are well formed in the contract.
pub open spec fn graphs_wf(fs: Seq<FunctionDecl>, c: Contract) -> bool {
    forall|i: int| 0 <= i < fs.len() ==> ((#[trigger] fs[i]).cfg matches Some(g) ==> cfg_wf(*g, g.vars@.len() as nat, c))
}

/// The declarations are the same but for their graphs.
pub open spec fn same_but_graphs(a: Seq<FunctionDecl>, b: Seq<FunctionDecl>) -> bool {
    &&& a.len() == b.len()
    &&& forall|i: int| 0 <= i < a.len() ==> {
        &&& (#[trigger] b[i]).loc == a[i].loc
        &&& b[i].name == a[i].name
        &&& b[i].doc == a[i].doc
        &&& b[i].fallback == a[i].fallback
        &&& b[i].signature == a[i].signature
        &&& b[i].ast_index == a[i].ast_index
        &&& b[i].mutability == a[i].mutability
        &&& b[i].visibility == a[i].visibility
        &&& b[i].params == a[i].params
        &&& b[i].returns == a[i].returns
        &&& b[i].wasm_return == a[i].wasm_return
    }
}

/// Graphs stay well formed when only graphs of the contract change.
proof fn lemma_graphs_wf_moved(fs: Seq<FunctionDecl>, c1: Contract, c2: Contract)
    requires
        graphs_wf(fs, c1),
        c1.enums@.len() == c2.enums@.len(),
        c1.structs@.len() == c2.structs@.len(),
        c1.functions@.len() <= c2.functions@.len(),
        c1.constants@.len() <= c2.constants@.len(),
    ensures
        graphs_wf(fs, c2),
{
    assert forall|i: int| 0 <= i < fs.len() implies ((#[trigger] fs[i]).cfg matches Some(g) ==> cfg_wf(*g, g.vars@.len() as nat, c2)) by {
        if let Some(g) = fs[i].cfg {
            lemma_cfg_wf_contract(*g, g.vars@.len() as nat, c1, c2);
        }
    }
}

/// Is the body of constructor `k` of `c` accepted (`ok`): where it has a
/// definition among the parts, its graph is built as `generate_cfg` says?
pub open spec fn ctor_body_accepted(c: Contract, parts: Seq<ast::ContractPart>, k: int, ok: bool) -> bool {
    match c.constructors@[k].ast_index {
        Some(ai) => match parts[ai as int] {
            ast::ContractPart::FunctionDefinition(f) =>
                exists|e0: Seq<Output>, e1: Seq<Output>, res: Result<Box<ControlFlowGraph>, ()>|
                    #[trigger] generate_cfg_done(f, c.constructors@[k], c, e0, e1, res) && ok == res is Ok,
            _ => ok,
        },
        None => ok,
    }
}

/// `cs` are the states of the contract while the bodies of its first `n`
/// constructors are built, from `c0` on; `oks` says which were accepted.
pub open spec fn ctor_bodies_chain(cs: Seq<Contract>, oks: Seq<bool>, parts: Seq<ast::ContractPart>, n: int, c0: Contract) -> bool {
    &&& cs.len() == n + 1
    &&& oks.len() == n
    &&& cs[0] == c0
    &&& forall|k: int| 0 <= k < n ==> #[trigger] ctor_body_accepted(cs[k], parts, k, oks[k])
}

/// One more constructor body built extends the chain.
proof fn lemma_ctor_bodies_chain_step(cs: Seq<Contract>, oks: Seq<bool>, parts: Seq<ast::ContractPart>, n: int, c0: Contract,
    c1: Contract, ok: bool)
    requires
        ctor_bodies_chain(cs, oks, parts, n, c0),
        ctor_body_accepted(cs.last(), parts, n, ok),
    ensures
        ctor_bodies_chain(cs.push(c1), oks.push(ok), parts, n + 1, c0),
        (exists|j: int| 0 <= j < oks.push(ok).len() && !#[trigger] oks.push(ok)[j])
            == ((exists|j: int| 0 <= j < oks.len() && !#[trigger] oks[j]) || !ok),
{
    let cs1 = cs.push(c1);
    let oks1 = oks.push(ok);
    assert forall|k: int| 0 <= k < n + 1 implies #[trigger] ctor_body_accepted(cs1[k], parts, k, oks1[k]) by {
        if k < n {
            assert(cs1[k] == cs[k] && oks1[k] == oks[k]);
        } else {
            assert(cs1[k] == cs.last() && oks1[k] == ok);
        }
    }
    if !ok {
        assert(!oks1[oks.len() as int]);
    }
    if exists|j: int| 0 <= j < oks1.len() && !#[trigger] oks1[j] {
        let j = choose|j: int| 0 <= j < oks1.len() && !#[trigger] oks1[j];
        if j < oks.len() { assert(!oks[j]); }
    }
    if exists|j: int| 0 <= j < oks.len() && !#[trigger] oks[j] {
        let j = choose|j: int| 0 <= j < oks.len() && !#[trigger] oks[j];
        assert(!oks1[j]);
    }
}

/// What building the graphs of the constructors does; `r` says whether one
/// was refused.
pub open spec fn constructor_bodies_done(def: ast::ContractDefinition, c0: Contract, c1: Contract, e0: Seq<Output>, e1: Seq<Output>, r: bool) -> bool {
    &&& resolving(c1, def.parts@)
    &&& c1.enums == c0.enums
    &&& c1.structs == c0.structs
    &&& c1.functions == c0.functions
    &&& c1.variables == c0.variables
    &&& c1.constants == c0.constants
    &&& c1.symbols == c0.symbols
    &&& c1.name == c0.name
    &&& c1.target == c0.target
    &&& c1.initializer == c0.initializer
    &&& c1.top_of_contract_storage == c0.top_of_contract_storage
    &&& same_but_graphs(c0.constructors@, c1.constructors@)
    &&& graphs_wf(c1.constructors@, c1)
    &&& graphs_wf(c1.functions@, c1)
    &&& (!r ==> bodies_done(c1.constructors@, c1))
    &&& extends(e0, e1)
    &&& (r ==> error_added(e0, e1))
    &&& (c0.constructors@.len() == 0 ==> !r)
    &&& exists|cs: Seq<Contract>, oks: Seq<bool>| #[trigger] ctor_bodies_chain(cs, oks, def.parts@, c0.constructors@.len() as int, c0)
        && cs.last() == c1 && (r == exists|j: int| 0 <= j < oks.len() && !#[trigger] oks[j])
}

/// Build the graphs of the constructors that have a definition. Returns
/// whether any body was refused.
fn constructor_bodies(def: &ast::ContractDefinition, ns: &mut Contract, errors: &mut Vec<Output>) -> (r: bool)
    requires
        resolving(*old(ns), def.parts@),
        contract_def_ok(def.parts@),
        graphs_wf(old(ns).constructors@, *old(ns)),
        graphs_wf(old(ns).functions@, *old(ns)),
    ensures
        constructor_bodies_done(*def, *old(ns), *final(ns), old(errors)@, final(errors)@, r),
{
    let mut broken = false;
    let mut k: usize = 0;
    let ghost c0 = *ns;
    let ghost mut cs: Seq<Contract> = seq![*ns];
    let ghost mut oks: Seq<bool> = Seq::empty();
    while k < ns.constructors.len()
        invariant
            0 <= k <= ns.constructors@.len(),
            resolving(*ns, def.parts@),
            contract_def_ok(def.parts@),
            ns.enums == c0.enums,
            ns.structs == c0.structs,
            ns.functions == c0.functions,
            ns.variables == c0.variables,
            ns.constants == c0.constants,
            ns.symbols == c0.symbols,
            ns.name == c0.name,
            ns.target == c0.target,
            ns.initializer == c0.initializer,
            ns.top_of_contract_storage == c0.top_of_contract_storage,
            same_but_graphs(c0.constructors@, ns.constructors@),
            graphs_wf(ns.constructors@, *ns),
            graphs_wf(ns.functions@, *ns),
            !broken ==> bodies_done(ns.constructors@.take(k as int), *ns),
            extends(old(errors)@, errors@),
            c0.constructors@.len() == 0 ==> !broken,
            broken ==> error_added(old(errors)@, errors@),
            ctor_bodies_chain(cs, oks, def.parts@, k as int, c0),
            cs.last() == *ns,
            broken == exists|j: int| 0 <= j < oks.len() && !#[trigger] oks[j],
        decreases ns.constructors@.len() - k,
    {
        let ghost cb = *ns;
        let ghost mut okk = true;
        let ghost before = errors@;
        proof {
            assert(decl_fits(ns.constructors@[k as int], def.parts@));
            assert(function_wf(ns.constructors@[k as int], *ns));
        }
        if let Some(ast_index) = ns.constructors[k].ast_index {
            if let ast::ContractPart::FunctionDefinition(ast_f) = &def.parts[ast_index] {
                let res = generate_cfg(ast_f, &ns.constructors[k], ns, errors);
                proof {
                    assert(def.parts@[ast_index as int] == ast::ContractPart::FunctionDefinition(*ast_f));
                    assert(generate_cfg_done(*ast_f, cb.constructors@[k as int], cb, before, errors@, res));
                    okk = res is Ok;
                }
                match res {
                    Ok(g) => {
                        ns.constructors[k].cfg = Some(g);
                        proof {
                            lemma_extends_trans(old(errors)@, before, errors@);
                            if broken {
                                lemma_error_added_trans(old(errors)@, before, errors@);
                            }
                            assert forall|m: int| 0 <= m < ns.constructors@.len() implies function_wf(#[trigger] ns.constructors@[m], *ns) by {
                                assert(function_wf(cb.constructors@[m], cb));
                            }
                            assert forall|m: int| 0 <= m < ns.symbols@.len() implies symbol_wf((#[trigger] ns.symbols@[m]).1, *ns) by {
                                assert(symbol_wf(cb.symbols@[m].1, cb));
                            }
                            lemma_wf_extend(cb, *ns);
                            assert forall|m: int| 0 <= m < ns.constructors@.len() implies decl_fits(#[trigger] ns.constructors@[m], def.parts@) by {
                                assert(decl_fits(cb.constructors@[m], def.parts@));
                            }
                            lemma_graphs_wf_moved(cb.functions@, cb, *ns);
                            assert forall|m: int| 0 <= m < ns.constructors@.len() implies
                                ((#[trigger] ns.constructors@[m]).cfg matches Some(h) ==> cfg_wf(*h, h.vars@.len() as nat, *ns)) by {
                                if m != k {
                                    if let Some(h) = cb.constructors@[m].cfg {
                                        lemma_cfg_wf_contract(*h, h.vars@.len() as nat, cb, *ns);
                                    }
                                } else {
                                    lemma_cfg_wf_contract(*g, g.vars@.len() as nat, cb, *ns);
                                }
                            }
                            if !broken {
                                assert forall|m: int| 0 <= m < k + 1 implies ((#[trigger] ns.constructors@.take(k + 1)[m]).ast_index is Some
                                    ==> (ns.constructors@.take(k + 1)[m].cfg matches Some(h) && cfg_wf(*h, h.vars@.len() as nat, *ns))) by {
                                    assert(ns.constructors@.take(k + 1)[m] == ns.constructors@[m]);
                                    if m < k {
                                        assert(cb.constructors@.take(k as int)[m] == cb.constructors@[m]);
                                    }
                                }
                            }
                        }
                    },
                    Err(()) => {
                        proof { lemma_error_added_trans(old(errors)@, before, errors@); lemma_extends_trans(old(errors)@, before, errors@); }
                        broken = true;
                    },
                }
            }
        }
        proof {
            assert(ns.constructors@.take(k + 1).drop_last() =~= ns.constructors@.take(k as int));
            assert(ctor_body_accepted(cb, def.parts@, k as int, okk));
            lemma_ctor_bodies_chain_step(cs, oks, def.parts@, k as int, c0, *ns, okk);
            cs = cs.push(*ns);
            oks = oks.push(okk);
        }
        k += 1;
    }
    assert(ns.constructors@.take(ns.constructors@.len() as int) =~= ns.constructors@);
    broken
}

/// What a function's declared mutability and what its body does with
/// contract storage give: an error where a pure function writes or reads
/// storage or a view function writes it, and a warning where a stricter
/// mutability could be declared.
pub open spec fn mutability_diag(m: Option<StateMutability>, floc: Loc, writes: bool, reads: bool) -> Option<(Level, ErrorType, Loc, Seq<char>)> {
    match m {
        Some(StateMutability::Pure(l)) => if writes {
            Some((Level::Error, ErrorType::SyntaxError, l, "function declared pure but writes contract storage"@))
        } else if reads {
            Some((Level::Error, ErrorType::SyntaxError, l, "function declared pure but reads contract storage"@))
        } else {
            None
        },
        Some(StateMutability::View(l)) => if writes {
            Some((Level::Error, ErrorType::SyntaxError, l, "function declared view but writes contract storage"@))
        } else if !reads {
            Some((Level::Warning, ErrorType::Warning, l, "function can be declared pure"@))
        } else {
            None
        },
        Some(StateMutability::Payable(_)) => None,
        None => if !writes && !reads {
            Some((Level::Warning, ErrorType::Warning, floc, "function can be declare pure"@))
        } else if !writes {
            Some((Level::Warning, ErrorType::Warning, floc, "function can be declared view"@))
        } else {
            None
        },
    }
}

/// Compare the declared mutability of a function with what its body does.
/// Returns whether it is accepted.
fn check_mutability(fdecl: &FunctionDecl, g: &ControlFlowGraph, errors: &mut Vec<Output>) -> (r: bool)
    requires
        !(fdecl.mutability matches Some(StateMutability::Payable(_))),
    ensures
        match mutability_diag(fdecl.mutability, fdecl.loc, g.writes_contract_storage, g.reads_contract_storage) {
            Some(d) => final(errors)@ == old(errors)@.push(final(errors)@.last())
                && is_diag(final(errors)@.last(), d.0, d.1, d.2, d.3)
                && r == (d.0 != Level::Error),
            None => final(errors)@ == old(errors)@ && r,
        },
{
    match &fdecl.mutability {
        Some(StateMutability::Pure(loc)) => {
            if g.writes_contract_storage {
                errors.push(Output::error(*loc, String::from_str("function declared pure but writes contract storage")));
                proof { reveal_strlit("function declared pure but writes contract storage"); }
                false
            } else if g.reads_contract_storage {
                errors.push(Output::error(*loc, String::from_str("function declared pure but reads contract storage")));
                proof { reveal_strlit("function declared pure but reads contract storage"); }
                false
            } else {
                true
            }
        },
        Some(StateMutability::View(loc)) => {
            if g.writes_contract_storage {
                errors.push(Output::error(*loc, String::from_str("function declared view but writes contract storage")));
                proof { reveal_strlit("function declared view but writes contract storage"); }
                false
            } else {
                if !g.reads_contract_storage {
                    errors.push(Output::warning(*loc, String::from_str("function can be declared pure")));
                    proof { reveal_strlit("function can be declared pure"); }
                }
                true
            }
        },
        Some(StateMutability::Payable(_)) => true,
        None => {
            if !g.writes_contract_storage && !g.reads_contract_storage {
                errors.push(Output::warning(fdecl.loc, String::from_str("function can be declare pure")));
                proof { reveal_strlit("function can be declare pure"); }
            } else if !g.writes_contract_storage {
                errors.push(Output::warning(fdecl.loc, String::from_str("function can be declared view")));
                proof { reveal_strlit("function can be declared view"); }
            }
            true
        },
    }
}

/// Is a graph accepted for the mutability its function declares?
pub open spec fn mutability_ok(d: FunctionDecl, g: ControlFlowGraph) -> bool {
    !(mutability_diag(d.mutability, d.loc, g.writes_contract_storage, g.reads_contract_storage) matches Some(x)
        && x.0 == Level::Error)
}

/// Is the body of function `k` of `c` accepted (`ok`): where the function
/// has a definition among the parts, its graph is built as `generate_cfg`
/// says and accepted for the mutability declared?
pub open spec fn body_accepted(c: Contract, parts: Seq<ast::ContractPart>, k: int, ok: bool) -> bool {
    match c.functions@[k].ast_index {
        Some(ai) => match parts[ai as int] {
            ast::ContractPart::FunctionDefinition(f) =>
                exists|e0: Seq<Output>, e1: Seq<Output>, res: Result<Box<ControlFlowGraph>, ()>|
                    #[trigger] generate_cfg_done(f, c.functions@[k], c, e0, e1, res)
                    && ok == (res matches Ok(g) && mutability_ok(c.functions@[k], *g)),
            _ => ok,
        },
        None => ok,
    }
}

/// `cs` are the states of the contract while the bodies of its first `n`
/// functions are built, from `c0` on; `oks` says which were accepted.
pub open spec fn bodies_chain(cs: Seq<Contract>, oks: Seq<bool>, parts: Seq<ast::ContractPart>, n: int, c0: Contract) -> bool {
    &&& cs.len() == n + 1
    &&& oks.len() == n
    &&& cs[0] == c0
    &&& forall|k: int| 0 <= k < n ==> #[trigger] body_accepted(cs[k], parts, k, oks[k])
}

/// One more body built extends the chain.
proof fn lemma_bodies_chain_step(cs: Seq<Contract>, oks: Seq<bool>, parts: Seq<ast::ContractPart>, n: int, c0: Contract,
    c1: Contract, ok: bool)
    requires
        bodies_chain(cs, oks, parts, n, c0),
        body_accepted(cs.last(), parts, n, ok),
    ensures
        bodies_chain(cs.push(c1), oks.push(ok), parts, n + 1, c0),
        (exists|j: int| 0 <= j < oks.push(ok).len() && !#[trigger] oks.push(ok)[j])
            == ((exists|j: int| 0 <= j < oks.len() && !#[trigger] oks[j]) || !ok),
{
    let cs1 = cs.push(c1);
    let oks1 = oks.push(ok);
    assert forall|k: int| 0 <= k < n + 1 implies #[trigger] body_accepted(cs1[k], parts, k, oks1[k]) by {
        if k < n {
            assert(cs1[k] == cs[k] && oks1[k] == oks[k]);
        } else {
            assert(cs1[k] == cs.last() && oks1[k] == ok);
        }
    }
    if !ok {
        assert(!oks1[oks.len() as int]);
    }
    if exists|j: int| 0 <= j < oks1.len() && !#[trigger] oks1[j] {
        let j = choose|j: int| 0 <= j < oks1.len() && !#[trigger] oks1[j];
        if j < oks.len() { assert(!oks[j]); }
    }
    if exists|j: int| 0 <= j < oks.len() && !#[trigger] oks[j] {
        let j = choose|j: int| 0 <= j < oks.len() && !#[trigger] oks[j];
        assert(!oks1[j]);
    }
}

/// What building the graphs of the functions does; `r` says whether one was
/// refused.
pub open spec fn function_bodies_done(def: ast::ContractDefinition, c0: Contract, c1: Contract, e0: Seq<Output>, e1: Seq<Output>, r: bool) -> bool {
    &&& resolving(c1, def.parts@)
    &&& c1.enums == c0.enums
    &&& c1.structs == c0.structs
    &&& c1.constructors == c0.constructors
    &&& c1.variables == c0.variables
    &&& c1.constants == c0.constants
    &&& c1.symbols == c0.symbols
    &&& c1.name == c0.name
    &&& c1.target == c0.target
    &&& c1.initializer == c0.initializer
    &&& c1.top_of_contract_storage == c0.top_of_contract_storage
    &&& same_but_graphs(c0.functions@, c1.functions@)
    &&& graphs_wf(c1.constructors@, c1)
    &&& graphs_wf(c1.functions@, c1)
    &&& (!r ==> bodies_done(c1.functions@, c1))
    &&& extends(e0, e1)
    &&& (r ==> error_added(e0, e1))
    &&& (c0.functions@.len() == 0 ==> !r)
    &&& (exists|cs: Seq<Contract>, oks: Seq<bool>| #[trigger] bodies_chain(cs, oks, def.parts@, c0.functions@.len() as int, c0)
        && cs.last() == c1 && (r == exists|j: int| 0 <= j < oks.len() && !#[trigger] oks[j]))
}

/// Build the graphs of the functions that have a definition, and check
/// their mutability. Returns whether any body or mutability was refused.
fn function_bodies(def: &ast::ContractDefinition, ns: &mut Contract, errors: &mut Vec<Output>) -> (r: bool)
    requires
        resolving(*old(ns), def.parts@),
        contract_def_ok(def.parts@),
        graphs_wf(old(ns).constructors@, *old(ns)),
        graphs_wf(old(ns).functions@, *old(ns)),
    ensures
        function_bodies_done(*def, *old(ns), *final(ns), old(errors)@, final(errors)@, r),
{
    let mut broken = false;
    let mut k: usize = 0;
    let ghost c0 = *ns;
    let ghost mut cs: Seq<Contract> = seq![*ns];
    let ghost mut oks: Seq<bool> = Seq::empty();
    while k < ns.functions.len()
        invariant
            0 <= k <= ns.functions@.len(),
            resolving(*ns, def.parts@),
            contract_def_ok(def.parts@),
            ns.enums == c0.enums,
            ns.structs == c0.structs,
            ns.constructors == c0.constructors,
            ns.variables == c0.variables,
            ns.constants == c0.constants,
            ns.symbols == c0.symbols,
            ns.name == c0.name,
            ns.target == c0.target,
            ns.initializer == c0.initializer,
            ns.top_of_contract_storage == c0.top_of_contract_storage,
            same_but_graphs(c0.functions@, ns.functions@),
            graphs_wf(ns.constructors@, *ns),
            graphs_wf(ns.functions@, *ns),
            !broken ==> bodies_done(ns.functions@.take(k as int), *ns),
            extends(old(errors)@, errors@),
            c0.functions@.len() == 0 ==> !broken,
            broken ==> error_added(old(errors)@, errors@),
            bodies_chain(cs, oks, def.parts@, k as int, c0),
            cs.last() == *ns,
            broken == exists|j: int| 0 <= j < oks.len() && !#[trigger] oks[j],
        decreases ns.functions@.len() - k,
    {
        let ghost cb = *ns;
        let ghost mut okk = true;
        let ghost before = errors@;
        proof {
            assert(decl_fits(ns.functions@[k as int], def.parts@));
            assert(not_from_ctor(ns.functions@[k as int], def.parts@));
            assert(function_wf(ns.functions@[k as int], *ns));
        }
        if let Some(ast_index) = ns.functions[k].ast_index {
            if let ast::ContractPart::FunctionDefinition(ast_f) = &def.parts[ast_index] {
                let res = generate_cfg(ast_f, &ns.functions[k], ns, errors);
                let ghost resg = res;
                let ghost eg = errors@;
                proof {
                    assert(def.parts@[ast_index as int] == ast::ContractPart::FunctionDefinition(*ast_f));
                    assert(generate_cfg_done(*ast_f, cb.functions@[k as int], cb, before, eg, resg));
                }
                match res {
                    Ok(g) => {
                        let ghost e1 = errors@;
                        let accepted = check_mutability(&ns.functions[k], &g, errors);
                        proof {
                            okk = accepted;
                            assert(accepted == (resg matches Ok(h) && mutability_ok(cb.functions@[k as int], *h)));
                        }
                        ns.functions[k].cfg = Some(g);
                        proof {
                            lemma_extends_trans(old(errors)@, before, e1);
                            lemma_extends_trans(old(errors)@, e1, errors@);
                            if broken {
                                lemma_error_added_trans(old(errors)@, before, errors@);
                            }
                            if !accepted {
                                assert(errors@[e1.len() as int].level == Level::Error);
                                lemma_error_added_trans(old(errors)@, e1, errors@);
                            }
                            assert forall|m: int| 0 <= m < ns.functions@.len() implies function_wf(#[trigger] ns.functions@[m], *ns) by {
                                assert(function_wf(cb.functions@[m], cb));
                            }
                            assert forall|m: int| 0 <= m < ns.symbols@.len() implies symbol_wf((#[trigger] ns.symbols@[m]).1, *ns) by {
                                assert(symbol_wf(cb.symbols@[m].1, cb));
                            }
                            lemma_wf_extend(cb, *ns);
                            assert forall|m: int| 0 <= m < ns.functions@.len() implies decl_fits(#[trigger] ns.functions@[m], def.parts@)
                                && not_from_ctor(ns.functions@[m], def.parts@) by {
                                assert(decl_fits(cb.functions@[m], def.parts@));
                                assert(not_from_ctor(cb.functions@[m], def.parts@));
                            }
                            lemma_graphs_wf_moved(cb.constructors@, cb, *ns);
                            assert forall|m: int| 0 <= m < ns.functions@.len() implies
                                ((#[trigger] ns.functions@[m]).cfg matches Some(h) ==> cfg_wf(*h, h.vars@.len() as nat, *ns)) by {
                                if m != k {
                                    if let Some(h) = cb.functions@[m].cfg {
                                        lemma_cfg_wf_contract(*h, h.vars@.len() as nat, cb, *ns);
                                    }
                                } else {
                                    lemma_cfg_wf_contract(*g, g.vars@.len() as nat, cb, *ns);
                                }
                            }
                            if !broken && accepted {
                                assert forall|m: int| 0 <= m < k + 1 && (#[trigger] ns.functions@.take(k + 1)[m]).ast_index is Some
                                    implies (ns.functions@.take(k + 1)[m].cfg matches Some(h) && cfg_wf(*h, h.vars@.len() as nat, *ns)) by {
                                    assert(ns.functions@.take(k + 1)[m] == ns.functions@[m]);
                                    if m < k {
                                        assert(cb.functions@.take(k as int)[m] == cb.functions@[m]);
                                    }
                                }
                            }
                        }
                        if !accepted {
                            broken = true;
                        }
                    },
                    Err(()) => {
                        proof { okk = false; }
                        proof { lemma_error_added_trans(old(errors)@, before, errors@); lemma_extends_trans(old(errors)@, before, errors@); }
                        broken = true;
                    },
                }
            }
        }
        proof {
            assert(ns.functions@.take(k + 1).drop_last() =~= ns.functions@.take(k as int));
        }
        proof {
            assert(body_accepted(cb, def.parts@, k as int, okk));
            lemma_bodies_chain_step(cs, oks, def.parts@, k as int, c0, *ns, okk);
            cs = cs.push(*ns);
            oks = oks.push(okk);
        }
        k += 1;
    }
    assert(ns.functions@.take(ns.functions@.len() as int) =~= ns.functions@);
    broken
}

/// What adding the implicit constructor to `c0` gives: `c1`.
pub open spec fn implicit_ctor_added(c0: Contract, c1: Contract) -> bool {
    &&& c1.wf()
    &&& c1.enums == c0.enums
    &&& c1.structs == c0.structs
    &&& c1.functions == c0.functions
    &&& c1.variables == c0.variables
    &&& c1.constants == c0.constants
    &&& c1.symbols == c0.symbols
    &&& c1.name == c0.name
    &&& c1.target == c0.target
    &&& c1.initializer == c0.initializer
    &&& c1.top_of_contract_storage == c0.top_of_contract_storage
    &&& c1.constructors@.drop_last() == c0.constructors@
    &&& c1.constructors@.len() == c0.constructors@.len() + 1
    &&& c1.constructors@.last().ast_index is None
    &&& c1.constructors@.last().params@.len() == 0
    &&& c1.constructors@.last().returns@.len() == 0
    &&& c1.constructors@.last().name@.len() == 0
    &&& c1.constructors@.last().visibility is Public
    &&& implicit_ctor(c1.constructors@.last())
    &&& graphs_wf(c1.constructors@, c1)
}

/// Add the constructor that takes nothing and does nothing.
fn default_constructor(ns: &mut Contract)
    requires
        old(ns).wf(),
        graphs_wf(old(ns).constructors@, *old(ns)),
    ensures
        implicit_ctor_added(*old(ns), *final(ns)),
{
    let mut fdecl = FunctionDecl::new(
        Loc(0, 0),
        String::new(),
        Vec::new(),
        false,
        None,
        None,
        Visibility::Public(Loc(0, 0)),
        Vec::new(),
        Vec::new(),
        ns,
    );
    let mut vartab = Vartable::new();
    let mut cfg = ControlFlowGraph::new();
    cfg.add(&mut vartab, Instr::Return { value: Vec::new() });
    let ghost gb = cfg;
    let ghost vb = vartab;
    assert(cfg_wf(cfg, vartab.len(), *ns));
    cfg.vars = vartab.drain();
    assert(cfg_wf(cfg, cfg.vars@.len() as nat, *ns));
    fdecl.cfg = Some(Box::new(cfg));
    let ghost c0 = *ns;
    ns.constructors.push(fdecl);
    proof {
        assert(ns.constructors@.drop_last() =~= c0.constructors@);
        assert forall|m: int| 0 <= m < ns.symbols@.len() implies symbol_wf((#[trigger] ns.symbols@[m]).1, *ns) by {
            assert(symbol_wf(c0.symbols@[m].1, c0));
        }
        lemma_wf_extend(c0, *ns);
        assert forall|m: int| 0 <= m < ns.constructors@.len() implies
            ((#[trigger] ns.constructors@[m]).cfg matches Some(h) ==> cfg_wf(*h, h.vars@.len() as nat, *ns)) by {
            if m < c0.constructors@.len() {
                assert(ns.constructors@[m] == c0.constructors@[m]);
                if let Some(h) = c0.constructors@[m].cfg {
                    lemma_cfg_wf_contract(*h, h.vars@.len() as nat, c0, *ns);
                }
            } else {
                lemma_cfg_wf_contract(cfg, cfg.vars@.len() as nat, c0, *ns);
            }
        }
    }
}

/// The contract a definition resolves to is complete: well formed, named and
/// targeted as asked, every function and constructor with a body has its
/// graph, the storage initializer is well formed, and on Substrate there is a
/// constructor.
pub open spec fn contract_done(c: Contract, def: ast::ContractDefinition, target: Target) -> bool {
    &&& c.wf()
    &&& overloads_distinct(c)
    &&& c.name@ == def.name.name@
    &&& c.target == target
    &&& bodies_done(c.functions@, c)
    &&& bodies_done(c.constructors@, c)
    &&& graphs_wf(c.functions@, c)
    &&& graphs_wf(c.constructors@, c)
    &&& cfg_wf(c.initializer, c.initializer.vars@.len() as nat, c)
    &&& (target == Target::Substrate ==> c.constructors@.len() > 0)
    &&& declared_in_order(c.functions@, def.parts@, false, def.parts@.len() as int)
    &&& ctors_declared(c.constructors@, def.parts@)
    &&& (target != Target::Substrate ==> declared_in_order(c.constructors@, def.parts@, true, def.parts@.len() as int))
}

/// The stages of resolving a contract definition for a target: `cs` are the
/// contract before the first stage and after each, `es` the messages, and
/// `bs` says whether a stage refused something. The stages declare the enums,
/// the structs, the functions and constructors and the state variables,
/// build the graphs of the constructors, add the implicit constructor on
/// Substrate where there is none, and build the graphs of the functions.
#[verifier::opaque]
pub open spec fn contract_stages(def: ast::ContractDefinition, target: Target, cs: Seq<Contract>, es: Seq<Seq<Output>>,
    bs: Seq<bool>) -> bool {
    &&& cs.len() == 8
    &&& es.len() == 8
    &&& bs.len() == 6
    &&& cs[0].name@ == def.name.name@
    &&& cs[0].target == target
    &&& cs[0].enums@.len() == 0
    &&& cs[0].structs@.len() == 0
    &&& cs[0].functions@.len() == 0
    &&& cs[0].constructors@.len() == 0
    &&& cs[0].variables@.len() == 0
    &&& cs[0].constants@.len() == 0
    &&& cs[0].symbols@.len() == 0
    &&& cs[0].top_of_contract_storage == 0
    &&& enums_declared(def, cs[0], cs[1], es[0], es[1], bs[0])
    &&& structs_declared(def, cs[1], cs[2], es[1], es[2], bs[1])
    &&& functions_declared(def, cs[2], cs[3], es[2], es[3], bs[2])
    &&& variables_declared(def, cs[3], cs[4], es[3], es[4], bs[3])
    &&& constructor_bodies_done(def, cs[4], cs[5], es[4], es[5], bs[4])
    &&& es[6] == es[5]
    &&& if cs[5].constructors@.len() == 0 && target == Target::Substrate {
        implicit_ctor_added(cs[5], cs[6])
    } else {
        cs[6] == cs[5]
    }
    &&& function_bodies_done(def, cs[6], cs[7], es[6], es[7], bs[5])
}

/// A definition resolves through its stages from messages `e0` to `e1`, to
/// the contract `c`, and `refused` says whether some stage refused something.
#[verifier::opaque]
pub open spec fn resolved_by_stages(def: ast::ContractDefinition, target: Target, e0: Seq<Output>, e1: Seq<Output>,
    refused: bool, c: Contract) -> bool {
    exists|cs: Seq<Contract>, es: Seq<Seq<Output>>, bs: Seq<bool>| #[trigger] contract_stages(def, target, cs, es, bs)
        && es[0].drop_last() == e0 && es[7] == e1 && refused == (exists|k: int| 0 <= k < 6 && #[trigger] bs[k])
        && cs[7] == c
}

/// The stages, one by one, make up `contract_stages`.
proof fn lemma_contract_stages(def: ast::ContractDefinition, target: Target, c0: Contract, c1: Contract, c2: Contract,
    c3: Contract, c4: Contract, c5: Contract, c6: Contract, c7: Contract, e0: Seq<Output>, e1: Seq<Output>,
    e2: Seq<Output>, e3: Seq<Output>, e4: Seq<Output>, e5: Seq<Output>, e7: Seq<Output>,
    b1: bool, b2: bool, b3: bool, b4: bool, b5: bool, b6: bool)
    requires
        c0.name@ == def.name.name@,
        c0.target == target,
        c0.enums@.len() == 0,
        c0.structs@.len() == 0,
        c0.functions@.len() == 0,
        c0.constructors@.len() == 0,
        c0.variables@.len() == 0,
        c0.constants@.len() == 0,
        c0.symbols@.len() == 0,
        c0.top_of_contract_storage == 0,
        enums_declared(def, c0, c1, e0, e1, b1),
        structs_declared(def, c1, c2, e1, e2, b2),
        functions_declared(def, c2, c3, e2, e3, b3),
        variables_declared(def, c3, c4, e3, e4, b4),
        constructor_bodies_done(def, c4, c5, e4, e5, b5),
        if c5.constructors@.len() == 0 && target == Target::Substrate { implicit_ctor_added(c5, c6) } else { c6 == c5 },
        function_bodies_done(def, c6, c7, e5, e7, b6),
    ensures
        resolved_by_stages(def, target, e0.drop_last(), e7, b1 || b2 || b3 || b4 || b5 || b6, c7),
{
    reveal(contract_stages);
    reveal(resolved_by_stages);
    let cs = seq![c0, c1, c2, c3, c4, c5, c6, c7];
    let es = seq![e0, e1, e2, e3, e4, e5, e5, e7];
    let bs = seq![b1, b2, b3, b4, b5, b6];
    assert(contract_stages(def, target, cs, es, bs));
    assert((b1 || b2 || b3 || b4 || b5 || b6) == exists|k: int| 0 <= k < 6 && #[trigger] bs[k]) by {
        if b1 { assert(bs[0]); }
        if b2 { assert(bs[1]); }
        if b3 { assert(bs[2]); }
        if b4 { assert(bs[3]); }
        if b5 { assert(bs[4]); }
        if b6 { assert(bs[5]); }
    }
}

/// Declarations that differ only in their graphs are in order as well.
proof fn lemma_declared_same(a: Seq<FunctionDecl>, b: Seq<FunctionDecl>, parts: Seq<ast::ContractPart>, ctor: bool, n: int)
    requires
        same_but_graphs(a, b),
        declared_in_order(a, parts, ctor, n),
    ensures
        declared_in_order(b, parts, ctor, n),
{
    assert forall|k: int, l: int| 0 <= k < l < b.len() implies (#[trigger] b[k]).ast_index.unwrap() < (#[trigger] b[l]).ast_index.unwrap() by {
        assert(a[k].ast_index.unwrap() < a[l].ast_index.unwrap());
    }
    assert forall|j: int| 0 <= j < n implies ((#[trigger] parts[j]) matches ast::ContractPart::FunctionDefinition(f) && is_ctor(f) == ctor
        ==> exists|k: int| 0 <= k < b.len() && ((#[trigger] b[k]).ast_index matches Some(x) && x == j)) by {
        if parts[j] matches ast::ContractPart::FunctionDefinition(f) && is_ctor(f) == ctor {
            let k = choose|k: int| 0 <= k < a.len() && ((#[trigger] a[k]).ast_index matches Some(x) && x == j);
            assert(b[k].ast_index == a[k].ast_index);
        }
    }
}

/// A definition made only of enums, of structs whose fields have primitive
/// types, and of state variables of primitive types without initializers.
pub open spec fn simple_parts(parts: Seq<ast::ContractPart>) -> bool {
    forall|k: int| 0 <= k < parts.len() ==> match #[trigger] parts[k] {
        ast::ContractPart::EnumDefinition(_) => true,
        ast::ContractPart::StructDefinition(d) => forall|i: int| 0 <= i < d.fields@.len() ==> (#[trigger] d.fields@[i]).typ is Primitive,
        ast::ContractPart::ContractVariableDefinition(v) => v.initializer is None && v.ty is Primitive,
        _ => false,
    }
}

/// Does a primitive type have only positive dimensions?
pub open spec fn dims_ok(t: ast::Type) -> bool {
    t matches ast::Type::Primitive(_, dims) && (dims@.len() == 0 || dims_positive(dims@))
}

/// Is a struct of primitive fields accepted on its own: it has fields, their
/// dimensions are positive, no name is repeated and no field has a storage
/// location?
pub open spec fn prim_struct_ok(d: ast::StructDefinition) -> bool {
    &&& d.fields@.len() > 0
    &&& forall|i: int| 0 <= i < d.fields@.len() ==> dims_ok((#[trigger] d.fields@[i]).typ)
    &&& distinct_fields(d.fields@)
    &&& forall|i: int| 0 <= i < d.fields@.len() ==> (#[trigger] d.fields@[i]).storage is None
}

/// Is the name that of an enum of the parts?
pub open spec fn enum_named(parts: Seq<ast::ContractPart>, n: Seq<char>) -> bool {
    exists|k: int| 0 <= k < enum_defs(parts).len() && (#[trigger] enum_defs(parts)[k]).name.name@ == n
}

/// Is the name that of a struct among the first `m` parts?
pub open spec fn struct_named(parts: Seq<ast::ContractPart>, m: int, n: Seq<char>) -> bool {
    exists|j: int| 0 <= j < m && ((#[trigger] parts[j]) matches ast::ContractPart::StructDefinition(d) && d.name.name@ == n)
}

/// Is part `j`, of a simple definition, a struct that is refused: it is not
/// accepted on its own, or its name is that of an enum or an earlier struct?
pub open spec fn simple_struct_refused(parts: Seq<ast::ContractPart>, j: int) -> bool {
    parts[j] matches ast::ContractPart::StructDefinition(d)
        && (!prim_struct_ok(d) || enum_named(parts, d.name.name@) || struct_named(parts, j, d.name.name@))
}

/// Is a state variable of such a definition refused: a dimension of its
/// type is not positive, its attributes are refused, it is a constant
/// (without initializer), or its name is that of an enum, a struct or an
/// earlier variable.
pub open spec fn simple_var_refused(v: ast::ContractVariableDefinition, parts: Seq<ast::ContractPart>,
    earlier: Seq<ast::ContractVariableDefinition>) -> bool {
    ||| !dims_ok(v.ty)
    ||| !var_attrs_ok(v.attrs@)
    ||| is_constant_var(v.attrs@)
    ||| enum_named(parts, v.name.name@)
    ||| struct_named(parts, parts.len() as int, v.name.name@)
    ||| exists|j: int| 0 <= j < earlier.len() && (#[trigger] earlier[j]).name.name@ == v.name.name@
}

/// A struct of primitive fields is accepted in any contract exactly where it
/// is accepted on its own.
proof fn lemma_prim_struct(d: ast::StructDefinition, c: Contract)
    requires
        forall|i: int| 0 <= i < d.fields@.len() ==> (#[trigger] d.fields@[i]).typ is Primitive,
    ensures
        struct_ok(d, c) == prim_struct_ok(d),
{
    assert forall|i: int| 0 <= i < d.fields@.len() implies (resolve_type_spec(c, (#[trigger] d.fields@[i]).typ) is Ok
        == dims_ok(d.fields@[i].typ)) by {
        assert(d.fields@[i].typ is Primitive);
    }
    if forall|i: int| 0 <= i < d.fields@.len() ==> resolve_type_spec(c, (#[trigger] d.fields@[i]).typ) is Ok {
        lemma_kept_all(d.fields@, c);
    } else {
        let i = choose|i: int| 0 <= i < d.fields@.len() && !(resolve_type_spec(c, (#[trigger] d.fields@[i]).typ) is Ok);
        assert(!dims_ok(d.fields@[i].typ));
    }
}

/// Along the declaration of the structs of a simple definition, the names
/// taken are those of the enums and of the structs declared so far, and a
/// struct is refused where `simple_struct_refused` says.
proof fn lemma_struct_chain(cs: Seq<Contract>, parts: Seq<ast::ContractPart>, n: int, c0: Contract, broken: bool)
    requires
        simple_parts(parts),
        0 <= n <= parts.len(),
        structs_chain(cs, parts, n, c0, broken),
        forall|m: Seq<char>| (#[trigger] lookup(c0.symbols@, m) is Some) == enum_named(parts, m),
    ensures
        forall|m: Seq<char>| (#[trigger] lookup(cs[n].symbols@, m) is Some) == (enum_named(parts, m) || struct_named(parts, n, m)),
        broken == exists|j: int| 0 <= j < n && #[trigger] simple_struct_refused(parts, j),
    decreases n,
{
    if n == 0 {
        assert forall|m: Seq<char>| (#[trigger] lookup(cs[n].symbols@, m) is Some) == (enum_named(parts, m) || struct_named(parts, n, m)) by {
        }
    } else {
        let k = n - 1;
        let pc = cs.take(n);
        let pb = exists|j: int| 0 <= j < k && #[trigger] struct_refused(cs[j], parts[j]);
        assert forall|j: int| 0 <= j < k implies match #[trigger] parts[j] {
            ast::ContractPart::StructDefinition(d) => struct_declared(pc[j], pc[j + 1], d),
            _ => pc[j + 1] == pc[j],
        } by {
            assert(pc[j] == cs[j] && pc[j + 1] == cs[j + 1]);
        }
        assert(pb == exists|j: int| 0 <= j < k && #[trigger] struct_refused(pc[j], parts[j])) by {
            if pb {
                let j = choose|j: int| 0 <= j < k && #[trigger] struct_refused(cs[j], parts[j]);
                assert(pc[j] == cs[j]);
            }
            if exists|j: int| 0 <= j < k && #[trigger] struct_refused(pc[j], parts[j]) {
                let j = choose|j: int| 0 <= j < k && #[trigger] struct_refused(pc[j], parts[j]);
                assert(pc[j] == cs[j]);
            }
        }
        assert(structs_chain(pc, parts, k, c0, pb));
        lemma_struct_chain(pc, parts, k, c0, pb);
        assert(pc[k] == cs[k]);
        assert(simple_parts(parts));
        let p = parts[k];
        assert(broken == (pb || struct_refused(cs[k], p))) by {
            if broken {
                let j = choose|j: int| 0 <= j < n && #[trigger] struct_refused(cs[j], parts[j]);
                if j < k {
                    assert(struct_refused(cs[j], parts[j]));
                }
            }
        }
        assert((exists|j: int| 0 <= j < n && #[trigger] simple_struct_refused(parts, j))
            == ((exists|j: int| 0 <= j < k && #[trigger] simple_struct_refused(parts, j)) || simple_struct_refused(parts, k))) by {
            if exists|j: int| 0 <= j < n && #[trigger] simple_struct_refused(parts, j) {
                let j = choose|j: int| 0 <= j < n && #[trigger] simple_struct_refused(parts, j);
                if j < k {
                    assert(simple_struct_refused(parts, j));
                }
            }
        }
        assert forall|m: Seq<char>| struct_named(parts, n, m) == (struct_named(parts, k, m)
            || (parts[k] matches ast::ContractPart::StructDefinition(d) && d.name.name@ == m)) by {
            if struct_named(parts, n, m) {
                let j = choose|j: int| 0 <= j < n && ((#[trigger] parts[j]) matches ast::ContractPart::StructDefinition(d) && d.name.name@ == m);
                if j < k {
                    assert(struct_named(parts, k, m));
                }
            }
        }
        match p {
            ast::ContractPart::StructDefinition(d) => {
                assert(struct_declared(cs[k], cs[n], d));
                lemma_prim_struct(d, cs[k]);
                assert(struct_refused(cs[k], p) == simple_struct_refused(parts, k));
                lemma_symbol_index(cs[k].symbols@, d.name.name@);
                if lookup(cs[k].symbols@, d.name.name@) is None {
                    assert forall|m: Seq<char>| (#[trigger] lookup(cs[n].symbols@, m) is Some)
                        == (enum_named(parts, m) || struct_named(parts, n, m)) by {
                        assert(cs[n].symbols@ =~= cs[k].symbols@.push(cs[n].symbols@.last()));
                        lemma_lookup_push(cs[k].symbols@, cs[n].symbols@.last(), m);
                    }
                } else {
                    assert forall|m: Seq<char>| (#[trigger] lookup(cs[n].symbols@, m) is Some)
                        == (enum_named(parts, m) || struct_named(parts, n, m)) by {
                        assert(lookup(cs[k].symbols@, m) is Some == (enum_named(parts, m) || struct_named(parts, k, m)));
                    }
                }
            },
            _ => {
                assert(cs[n] == cs[k]);
                assert(!simple_struct_refused(parts, k));
                assert(!struct_refused(cs[k], p));
                assert forall|m: Seq<char>| (#[trigger] lookup(cs[n].symbols@, m) is Some)
                    == (enum_named(parts, m) || struct_named(parts, n, m)) by {
                    assert(lookup(cs[k].symbols@, m) is Some == (enum_named(parts, m) || struct_named(parts, k, m)));
                }
            },
        }
    }
}

/// Each state variable of a definition is one of its parts.
proof fn lemma_var_defs_from(parts: Seq<ast::ContractPart>, k: int)
    requires
        0 <= k < var_defs(parts).len(),
    ensures
        exists|j: int| 0 <= j < parts.len() && #[trigger] parts[j] == ast::ContractPart::ContractVariableDefinition(var_defs(parts)[k]),
    decreases parts.len(),
{
    let pre = parts.drop_last();
    if k < var_defs(pre).len() {
        lemma_var_defs_from(pre, k);
        let j = choose|j: int| 0 <= j < pre.len() && #[trigger] pre[j] == ast::ContractPart::ContractVariableDefinition(var_defs(pre)[k]);
        assert(parts[j] == pre[j]);
    } else {
        assert(parts[parts.len() - 1] == parts.last());
    }
}

/// A simple definition has no functions and no initializers.
proof fn lemma_simple_parts(parts: Seq<ast::ContractPart>)
    requires
        simple_parts(parts),
    ensures
        no_function_parts(parts),
        no_var_inits(parts),
{
    assert forall|k: int| 0 <= k < parts.len() implies !((#[trigger] parts[k]) is FunctionDefinition) by {
        assert(simple_parts(parts));
    }
    assert forall|k: int| 0 <= k < parts.len() implies ((#[trigger] parts[k])
        matches ast::ContractPart::ContractVariableDefinition(s) ==> s.initializer is None) by {
        assert(simple_parts(parts));
    }
}

/// In a simple definition, a variable is refused after the enums and
/// structs exactly where `simple_var_refused` says.
proof fn lemma_simple_vars(parts: Seq<ast::ContractPart>, c: Contract)
    requires
        simple_parts(parts),
        forall|n: Seq<char>| (#[trigger] lookup(c.symbols@, n) is Some)
            == (enum_named(parts, n) || struct_named(parts, parts.len() as int, n)),
    ensures
        forall|k: int| 0 <= k < var_defs(parts).len() ==> (var_refused(#[trigger] var_defs(parts)[k], c, var_defs(parts).take(k))
            <==> simple_var_refused(var_defs(parts)[k], parts, var_defs(parts).take(k))),
{
    assert forall|k: int| 0 <= k < var_defs(parts).len() implies (var_refused(#[trigger] var_defs(parts)[k], c, var_defs(parts).take(k))
        <==> simple_var_refused(var_defs(parts)[k], parts, var_defs(parts).take(k))) by {
        lemma_var_defs_from(parts, k);
        let v = var_defs(parts)[k];
        let j = choose|j: int| 0 <= j < parts.len() && #[trigger] parts[j] == ast::ContractPart::ContractVariableDefinition(v);
        assert(simple_parts(parts));
        assert(v.ty is Primitive);
        assert(lookup(c.symbols@, v.name.name@) is Some == (enum_named(parts, v.name.name@)
            || struct_named(parts, parts.len() as int, v.name.name@)));
    }
}

/// Resolve a contract definition: first its enums, then its structs, the
/// signatures of its functions and constructors, its state variables, the
/// bodies of its constructors and, after adding an empty constructor on
/// Substrate where there is none, the bodies of its functions. Announces the
/// contract with an informational message first. Returns the contract where
/// nothing was refused.
#[verifier::rlimit(60)]
#[verifier::spinoff_prover]
pub fn resolve_contract(def: &ast::ContractDefinition, target: Target, errors: &mut Vec<Output>) -> (r: Option<Contract>)
    requires
        contract_def_ok(def.parts@),
    ensures
        r matches Some(c) ==> contract_done(c, *def, target),
        extends(old(errors)@, final(errors)@),
        final(errors)@.len() > old(errors)@.len(),
        is_diag(final(errors)@[old(errors)@.len() as int], Level::Info, ErrorType::NoError, def.loc,
            "found contract "@ + def.name.name@),
        r is None ==> error_added(old(errors)@, final(errors)@) || some_warn_only(def.parts@),
        simple_parts(def.parts@) ==> (r is Some <==> simple_accepted(def.parts@)),
        r matches Some(c) ==> resolved_by_stages(*def, target, old(errors)@, final(errors)@, false, c),
        r is None ==> exists|c: Contract| #[trigger] resolved_by_stages(*def, target, old(errors)@, final(errors)@, true, c),
{
    let mut ns = Contract {
        doc: def.doc.clone(),
        name: def.name.name.clone(),
        enums: Vec::new(),
        structs: Vec::new(),
        constructors: Vec::new(),
        functions: Vec::new(),
        variables: Vec::new(),
        constants: Vec::new(),
        initializer: ControlFlowGraph::new(),
        target,
        top_of_contract_storage: 0,
        symbols: Vec::new(),
    };
    proof { reveal_strlit("found contract "); }
    errors.push(Output::info(def.loc, join2("found contract ", def.name.name.as_str())));
    let ghost e0 = errors@;
    proof {
        if simple_parts(def.parts@) {
            lemma_simple_parts(def.parts@);
        }
    }
    assert(resolving(ns, def.parts@));

    let ghost c0 = ns;
    let b1 = declare_enums(def, &mut ns, errors);
    let ghost e1 = errors@;
    let ghost c1 = ns;
    let b2 = declare_structs(def, &mut ns, errors);
    let ghost e2 = errors@;
    let ghost c2 = ns;
    proof {
        if simple_parts(def.parts@) {
            assert forall|m: Seq<char>| (#[trigger] lookup(c1.symbols@, m) is Some) == enum_named(def.parts@, m) by {
                assert(lookup(c0.symbols@, m) is None);
            }
            let cs = choose|cs: Seq<Contract>| #[trigger] structs_chain(cs, def.parts@, def.parts@.len() as int, c1, b2)
                && cs.last() == ns;
            lemma_struct_chain(cs, def.parts@, def.parts@.len() as int, c1, b2);
            assert(cs[def.parts@.len() as int] == ns);
        }
    }
    let b3 = declare_functions(def, &mut ns, errors);
    let ghost e3 = errors@;
    let ghost c3 = ns;
    assert(ns.top_of_contract_storage == 0 && def.parts@.len() == def.parts.len());
    let b4 = contract_variables(def, &mut ns, errors);
    let ghost e4 = errors@;
    let ghost c4 = ns;
    proof {
        if simple_parts(def.parts@) {
            lemma_simple_vars(def.parts@, c3);
        }
    }
    proof {
        assert forall|m: int| 0 <= m < ns.symbols@.len() && (#[trigger] ns.symbols@[m]).1 is Struct
            implies is_struct_def_name(def.parts@, ns.symbols@[m].0@) by {
            if m < c3.symbols@.len() {
                assert(ns.symbols@[m] == c3.symbols@[m]);
            }
        }
        assert(graphs_wf(c3.functions@, c3));
        assert(graphs_wf(c3.constructors@, c3));
        lemma_graphs_wf_moved(c3.functions@, c3, ns);
        lemma_graphs_wf_moved(c3.constructors@, c3, ns);
    }
    let b5 = constructor_bodies(def, &mut ns, errors);
    let ghost e5 = errors@;
    let ghost c5 = ns;
    proof {
        if !b3 {
            lemma_declared_same(c4.constructors@, c5.constructors@, def.parts@, true, def.parts@.len() as int);
        }
    }
    if ns.constructors.len() == 0 && target == Target::Substrate {
        default_constructor(&mut ns);
        proof {
            lemma_graphs_wf_moved(c5.functions@, c5, ns);
            assert(bodies_done(ns.constructors@, ns));
            assert forall|m: int| 0 <= m < ns.constructors@.len() implies decl_fits(#[trigger] ns.constructors@[m], def.parts@) by {
                if m < c5.constructors@.len() {
                    assert(ns.constructors@[m] == c5.constructors@[m]);
                }
            }
        }
    }
    let ghost c6 = ns;
    let b6 = function_bodies(def, &mut ns, errors);
    proof {
        if !b3 {
            lemma_declared_same(c6.functions@, ns.functions@, def.parts@, false, def.parts@.len() as int);
        }
        lemma_extends_trans(old(errors)@, e0, e1);
        lemma_extends_trans(old(errors)@, e1, e2);
        lemma_extends_trans(old(errors)@, e2, e3);
        lemma_extends_trans(old(errors)@, e3, e4);
        lemma_extends_trans(old(errors)@, e4, e5);
        lemma_extends_trans(old(errors)@, e5, errors@);
        lemma_extends_trans(e0, e1, e2);
        lemma_extends_trans(e0, e2, e3);
        lemma_extends_trans(e0, e3, e4);
        lemma_extends_trans(e0, e4, e5);
        lemma_extends_trans(e0, e5, errors@);
        if b1 { lemma_error_added_trans(e0, e1, errors@); lemma_error_added_trans(old(errors)@, e0, errors@); }
        if b2 { lemma_error_added_trans(e1, e2, errors@); lemma_error_added_trans(e0, e1, errors@); lemma_error_added_trans(old(errors)@, e0, errors@); }
        if b3 && error_added(e2, e3) {
            lemma_error_added_trans(e2, e3, errors@); lemma_error_added_trans(e1, e2, errors@);
            lemma_error_added_trans(e0, e1, errors@); lemma_error_added_trans(old(errors)@, e0, errors@);
        }
        if b4 {
            lemma_error_added_trans(e3, e4, errors@); lemma_error_added_trans(e2, e3, errors@); lemma_error_added_trans(e1, e2, errors@);
            lemma_error_added_trans(e0, e1, errors@); lemma_error_added_trans(old(errors)@, e0, errors@);
        }
        if b5 {
            lemma_error_added_trans(e4, e5, errors@); lemma_error_added_trans(e3, e4, errors@); lemma_error_added_trans(e2, e3, errors@);
            lemma_error_added_trans(e1, e2, errors@); lemma_error_added_trans(e0, e1, errors@); lemma_error_added_trans(old(errors)@, e0, errors@);
        }
        if b6 {
            lemma_error_added_trans(e5, errors@, errors@); lemma_error_added_trans(e4, e5, errors@); lemma_error_added_trans(e3, e4, errors@);
            lemma_error_added_trans(e2, e3, errors@); lemma_error_added_trans(e1, e2, errors@); lemma_error_added_trans(e0, e1, errors@);
            lemma_error_added_trans(old(errors)@, e0, errors@);
        }
        assert(errors@[old(errors)@.len() as int] == e0[old(errors)@.len() as int]);
        if !(b1 || b2 || b3 || b4 || b5 || b6) {
            assert(bodies_done(c5.constructors@, c5));
            assert forall|m: int| 0 <= m < ns.constructors@.len() && (#[trigger] ns.constructors@[m]).ast_index is Some
                implies (ns.constructors@[m].cfg matches Some(g) && cfg_wf(*g, g.vars@.len() as nat, ns)) by {
                if ns.constructors@[m].ast_index is Some {
                    assert(m < c5.constructors@.len());
                    assert(ns.constructors@[m] == c5.constructors@[m]);
                    if let Some(g) = c5.constructors@[m].cfg {
                        lemma_cfg_wf_contract(*g, g.vars@.len() as nat, c5, ns);
                    }
                }
            }
        }
        lemma_cfg_wf_contract(ns.initializer, ns.initializer.vars@.len() as nat, c4, ns);
    }
    proof {
        assert(e0.drop_last() =~= old(errors)@);
        lemma_contract_stages(*def, target, c0, c1, c2, c3, c4, c5, c6, ns, e0, e1, e2, e3, e4, e5, errors@,
            b1, b2, b3, b4, b5, b6);
    }
    if b1 || b2 || b3 || b4 || b5 || b6 {
        None
    } else {
        Some(ns)
    }
}

/// The message for a pragma: `solidity` and the experimental ABI encoder are
/// ignored with an informational message, any other pragma with a warning.
pub open spec fn pragma_diag(name: ast::Identifier, value: ast::StringLiteral) -> (Level, ErrorType, Loc, Seq<char>) {
    if name.name@ == "solidity"@ {
        (Level::Info, ErrorType::NoError, name.loc, "pragma solidity is ignored"@)
    } else if name.name@ == "experimental"@ && value.string@ == "ABIEncoderV2"@ {
        (Level::Info, ErrorType::NoError, value.loc, "pragma experimental ABIEncoderV2 is ignored"@)
    } else {
        (Level::Warning, ErrorType::Warning, name.loc, "unknown pragma "@ + name.name@ + " ignored"@)
    }
}

/// The message for a pragma directive.
fn pragma_directive(name: &ast::Identifier, value: &ast::StringLiteral) -> (r: Output)
    ensures
        is_diag(r, pragma_diag(*name, *value).0, pragma_diag(*name, *value).1, pragma_diag(*name, *value).2,
            pragma_diag(*name, *value).3),
{
    let solidity = String::from_str("solidity");
    let experimental = String::from_str("experimental");
    let encoder = String::from_str("ABIEncoderV2");
    proof {
        reveal_strlit("solidity");
        reveal_strlit("experimental");
        reveal_strlit("ABIEncoderV2");
        reveal_strlit("pragma solidity is ignored");
        reveal_strlit("pragma experimental ABIEncoderV2 is ignored");
        reveal_strlit("unknown pragma ");
        reveal_strlit(" ignored");
    }
    if name.name == solidity {
        Output::info(name.loc, String::from_str("pragma solidity is ignored"))
    } else if name.name == experimental && value.string == encoder {
        Output::info(value.loc, String::from_str("pragma experimental ABIEncoderV2 is ignored"))
    } else {
        Output::warning(name.loc, join3("unknown pragma ", name.name.as_str(), " ignored"))
    }
}

/// The contract definitions of a source unit are ones the resolver takes.
pub open spec fn unit_ok(s: ast::SourceUnit) -> bool {
    forall|j: int| 0 <= j < s.0@.len() ==>
        ((#[trigger] s.0@[j]) matches ast::SourceUnitPart::ContractDefinition(def) ==> contract_def_ok(def.parts@))
}

/// A simple definition is accepted: no enum name is repeated and no struct
/// or variable is refused.
pub open spec fn simple_accepted(parts: Seq<ast::ContractPart>) -> bool {
    &&& !(exists|k: int| 0 <= k < enum_defs(parts).len() && #[trigger] enum_name_taken(Seq::empty(), enum_defs(parts), k))
    &&& !(exists|j: int| 0 <= j < parts.len() && #[trigger] simple_struct_refused(parts, j))
    &&& !(exists|k: int| 0 <= k < var_defs(parts).len()
        && simple_var_refused(#[trigger] var_defs(parts)[k], parts, var_defs(parts).take(k)))
}

/// `idx` gives for each contract the index in the unit of the contract
/// definition it was resolved from; the indices increase, so the contracts
/// keep the order of their definitions. Of the first `n` parts, a definition
/// of enums and variables of primitive types gives a contract exactly where
/// it is accepted.
pub open spec fn resolved_upto(cs: Seq<Contract>, s: ast::SourceUnit, target: Target, idx: Seq<int>, n: int) -> bool {
    &&& idx.len() == cs.len()
    &&& forall|m: int| 0 <= m < cs.len() ==> 0 <= #[trigger] idx[m] < s.0@.len()
        && (s.0@[idx[m]] matches ast::SourceUnitPart::ContractDefinition(def) && contract_done(cs[m], def, target))
    &&& forall|m: int, n: int| 0 <= m < n < cs.len() ==> idx[m] < idx[n]
    &&& forall|j: int| 0 <= j < n ==> ((#[trigger] s.0@[j]) matches ast::SourceUnitPart::ContractDefinition(def)
        ==> (simple_parts(def.parts@) ==> (simple_accepted(def.parts@) <==> idx.contains(j))))
}

/// The contracts resolved from a whole unit, as `resolved_upto` says.
pub open spec fn resolved_from(cs: Seq<Contract>, s: ast::SourceUnit, target: Target, idx: Seq<int>) -> bool {
    resolved_upto(cs, s, target, idx, s.0@.len() as int)
}

/// The message that announces a contract.
pub open spec fn found_diag(def: ast::ContractDefinition) -> (Level, ErrorType, Loc, Seq<char>) {
    (Level::Info, ErrorType::NoError, def.loc, "found contract "@ + def.name.name@)
}

/// The message a part of a unit leaves: a pragma its own, a contract
/// definition its announcement.
pub open spec fn part_diag(p: ast::SourceUnitPart) -> (Level, ErrorType, Loc, Seq<char>) {
    match p {
        ast::SourceUnitPart::PragmaDirective(name, value) => pragma_diag(name, value),
        ast::SourceUnitPart::ContractDefinition(def) => found_diag(def),
    }
}

/// `pos` gives, for each of the first `n` parts of the unit, where its
/// message stands in `errs`; the positions increase, so the messages keep
/// the order of the parts.
pub open spec fn reported_in_order(s: ast::SourceUnit, n: int, errs: Seq<Output>, pos: Seq<int>) -> bool {
    &&& pos.len() == n
    &&& forall|j: int| 0 <= j < n ==> 0 <= #[trigger] pos[j] < errs.len() && has_part_diag(errs[pos[j]], s.0@[j])
    &&& forall|j: int, k: int| 0 <= j < k < n ==> pos[j] < pos[k]
}

/// Is the message the one that the part leaves?
pub open spec fn has_part_diag(o: Output, p: ast::SourceUnitPart) -> bool {
    let d = part_diag(p);
    is_diag(o, d.0, d.1, d.2, d.3)
}

/// Resolve a source unit for a target: each contract definition that
/// resolves gives a contract, in order; each pragma gives a message, and each
/// contract definition is announced. Returns the contracts and the messages.
pub fn resolver(s: ast::SourceUnit, target: Target) -> (r: (Vec<Contract>, Vec<Output>))
    requires
        unit_ok(s),
    ensures
        r.0@.len() <= s.0@.len(),
        exists|idx: Seq<int>| #[trigger] resolved_from(r.0@, s, target, idx),
        exists|pos: Seq<int>| #[trigger] reported_in_order(s, s.0@.len() as int, r.1@, pos),
{
    let mut contracts: Vec<Contract> = Vec::new();
    let mut errors: Vec<Output> = Vec::new();
    let ghost mut idx: Seq<int> = Seq::empty();
    let ghost mut pos: Seq<int> = Seq::empty();
    let mut i: usize = 0;
    while i < s.0.len()
        invariant
            0 <= i <= s.0@.len(),
            unit_ok(s),
            contracts@.len() <= i,
            resolved_upto(contracts@, s, target, idx, i as int),
            forall|m: int| 0 <= m < idx.len() ==> #[trigger] idx[m] < i,
            reported_in_order(s, i as int, errors@, pos),
        decreases s.0@.len() - i,
    {
        let ghost before = errors@;
        let ghost cs0 = contracts@;
        let ghost idx0 = idx;
        match &s.0[i] {
            ast::SourceUnitPart::ContractDefinition(def) => {
                assert(s.0@[i as int] matches ast::SourceUnitPart::ContractDefinition(d) && d == *def);
                let found = resolve_contract(def, target, &mut errors);
                match found {
                    Some(c) => {
                        contracts.push(c);
                        proof { idx = idx.push(i as int); }
                    },
                    None => {},
                }
                proof {
                    assert(is_diag(errors@[before.len() as int], found_diag(*def).0, found_diag(*def).1, found_diag(*def).2,
                        found_diag(*def).3));
                }
            },
            ast::SourceUnitPart::PragmaDirective(name, value) => {
                let o = pragma_directive(name, value);
                errors.push(o);
                proof {
                    assert(errors@[before.len() as int] == o);
                }
            },
        }
        proof {
            assert forall|m: int| 0 <= m < contracts@.len() implies 0 <= #[trigger] idx[m] < s.0@.len()
                && (s.0@[idx[m]] matches ast::SourceUnitPart::ContractDefinition(def) && contract_done(contracts@[m], def, target)) by {
                if m < cs0.len() {
                    assert(contracts@[m] == cs0[m]);
                }
            }
            assert forall|j: int| 0 <= j < i + 1 implies ((#[trigger] s.0@[j]) matches ast::SourceUnitPart::ContractDefinition(def)
                ==> (simple_parts(def.parts@) ==> (simple_accepted(def.parts@) <==> idx.contains(j)))) by {
                if j < i {
                    if cs0.len() < contracts@.len() {
                        assert(idx.drop_last() == idx0);
                        if idx0.contains(j) {
                            let m = choose|m: int| 0 <= m < idx0.len() && idx0[m] == j;
                            assert(idx[m] == j);
                        }
                        if idx.contains(j) {
                            let m = choose|m: int| 0 <= m < idx.len() && idx[m] == j;
                            if m < idx0.len() {
                                assert(idx0[m] == j);
                            }
                        }
                    }
                } else {
                    if idx0.contains(j) {
                        let m = choose|m: int| 0 <= m < idx0.len() && idx0[m] == j;
                        assert(idx0[m] < i);
                    }
                    if cs0.len() < contracts@.len() {
                        assert(idx[idx.len() - 1] == j);
                    } else {
                        assert(idx == idx0);
                    }
                }
            }
            let pos0 = pos;
            pos = pos.push(before.len() as int);
            assert forall|j: int| 0 <= j < i + 1 implies 0 <= #[trigger] pos[j] < errors@.len()
                && has_part_diag(errors@[pos[j]], s.0@[j]) by {
                if j < i {
                    assert(pos[j] == pos0[j]);
                    assert(errors@[pos0[j]] == before[pos0[j]]);
                }
            }
            assert forall|j: int, k: int| 0 <= j < k < i + 1 implies pos[j] < pos[k] by {
                if k < i {
                    assert(pos[j] == pos0[j] && pos[k] == pos0[k]);
                }
            }
        }
        i += 1;
    }
    assert(resolved_from(contracts@, s, target, idx));
    assert(reported_in_order(s, s.0@.len() as int, errors@, pos));
    let r = (contracts, errors);
    assert(reported_in_order(s, s.0@.len() as int, r.1@, pos));
    r
}

/// The text of a graph.
pub open spec fn graph_text(g: ControlFlowGraph, c: Contract) -> Seq<char> {
    blocks_text(g.bb@, g.bb@.len(), g.vars@, c)
}

/// The constructors as printed: a header with the signature, then the graph.
pub open spec fn ctors_text(fs: Seq<FunctionDecl>, c: Contract) -> Seq<char>
    decreases fs.len(),
{
    if fs.len() == 0 {
        Seq::empty()
    } else {
        let f = fs.last();
        ctors_text(fs.drop_last(), c) + "# constructor "@ + f.signature@ + "\n"@
            + match f.cfg { Some(g) => graph_text(*g, c), None => Seq::empty() }
    }
}

/// The functions as printed: a header with the position and signature, or
/// for the fallback function only the position, then the graph and a line
/// break.
pub open spec fn fns_text(fs: Seq<FunctionDecl>, c: Contract) -> Seq<char>
    decreases fs.len(),
{
    if fs.len() == 0 {
        Seq::empty()
    } else {
        let f = fs.last();
        fns_text(fs.drop_last(), c) + fn_header_text(f, (fs.len() - 1) as nat)
            + match f.cfg { Some(g) => graph_text(*g, c) + "\n"@, None => Seq::empty() }
    }
}

/// The header line of a function at a position.
pub open spec fn fn_header_text(f: FunctionDecl, i: nat) -> Seq<char> {
    if f.name@.len() > 0 {
        "# function("@ + nat_decimal(i) + ") "@ + f.signature@ + "\n"@
    } else {
        "# fallback("@ + nat_decimal(i) + ")\n"@
    }
}

/// The header line of a function at a position.
fn fn_header(f: &FunctionDecl, i: usize) -> (r: String)
    ensures
        r@ == fn_header_text(*f, i as nat),
{
    proof {
        reveal_strlit("\n");
        reveal_strlit("# function(");
        reveal_strlit(") ");
        reveal_strlit("# fallback(");
        reveal_strlit(")\n");
    }
    let n = u64_to_decimal(i as u64);
    let mut s = String::new();
    if f.name.as_str().unicode_len() > 0 {
        s.append("# function(");
        s.append(n.as_str());
        s.append(") ");
        s.append(f.signature.as_str());
        s.append("\n");
    } else {
        s.append("# fallback(");
        s.append(n.as_str());
        s.append(")\n");
    }
    assert(s@ =~= fn_header_text(*f, i as nat));
    s
}

/// The printed form of a contract: its name, its storage initializer, its
/// constructors and its functions.
pub open spec fn contract_text(c: Contract) -> Seq<char> {
    "#\n# Contract: "@ + c.name@ + "\n#\n\n"@ + "# storage initializer\n"@ + graph_text(c.initializer, c) + "\n"@
        + ctors_text(c.constructors@, c) + fns_text(c.functions@, c)
}

impl Contract {
    /// The contract as text, for debugging: its name, storage initializer,
    /// constructors and functions with their graphs.
    pub fn to_string(&self) -> (r: String)
        requires
            self.wf(),
            graphs_wf(self.functions@, *self),
            graphs_wf(self.constructors@, *self),
            cfg_wf(self.initializer, self.initializer.vars@.len() as nat, *self),
        ensures
            r@ == contract_text(*self),
    {
        proof {
            reveal_strlit("#\n# Contract: ");
            reveal_strlit("\n#\n\n");
            reveal_strlit("# storage initializer\n");
            reveal_strlit("\n");
            reveal_strlit("# constructor ");
            reveal_strlit("# function(");
            reveal_strlit(") ");
            reveal_strlit("# fallback(");
            reveal_strlit(")\n");
        }
        let mut s = String::from_str("#\n# Contract: ");
        s.append(self.name.as_str());
        s.append("\n#\n\n");
        s.append("# storage initializer\n");
        let init = self.initializer.to_string(self);
        s.append(init.as_str());
        s.append("\n");
        let ghost head = s@;
        let mut i: usize = 0;
        while i < self.constructors.len()
            invariant
                0 <= i <= self.constructors@.len(),
                self.wf(),
                graphs_wf(self.constructors@, *self),
                s@ == head + ctors_text(self.constructors@.take(i as int), *self),
            decreases self.constructors@.len() - i,
        {
            proof { assert(self.constructors@.take(i + 1).drop_last() =~= self.constructors@.take(i as int)); }
            let f = &self.constructors[i];
            s.append("# constructor ");
            s.append(f.signature.as_str());
            s.append("\n");
            match &f.cfg {
                Some(g) => {
                    assert(cfg_wf(**g, g.vars@.len() as nat, *self));
                    let t = g.to_string(self);
                    s.append(t.as_str());
                },
                None => {},
            }
            proof {
                assert(s@ =~= head + ctors_text(self.constructors@.take(i + 1), *self));
            }
            i += 1;
        }
        assert(self.constructors@.take(self.constructors@.len() as int) =~= self.constructors@);
        let ghost mid = s@;
        let mut i: usize = 0;
        while i < self.functions.len()
            invariant
                0 <= i <= self.functions@.len(),
                self.wf(),
                graphs_wf(self.functions@, *self),
                s@ == mid + fns_text(self.functions@.take(i as int), *self),
            decreases self.functions@.len() - i,
        {
            proof { assert(self.functions@.take(i + 1).drop_last() =~= self.functions@.take(i as int)); }
            let f = &self.functions[i];
            let h = fn_header(f, i);
            s.append(h.as_str());
            match &f.cfg {
                Some(g) => {
                    assert(cfg_wf(**g, g.vars@.len() as nat, *self));
                    let t = g.to_string(self);
                    s.append(t.as_str());
                    s.append("\n");
                },
                None => {},
            }
            proof {
                assert(s@ =~= mid + fns_text(self.functions@.take(i + 1), *self));
            }
            i += 1;
        }
        assert(self.functions@.take(self.functions@.len() as int) =~= self.functions@);
        assert(s@ =~= contract_text(*self));
        s
    }
}

} // verus!
