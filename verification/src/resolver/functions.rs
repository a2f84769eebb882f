//! Function declarations: their attributes, the types of their parameters and
//! return values, and their place among the constructors and functions of the
//! contract.
use crate::ast;
use crate::ast::{Loc, FunctionAttribute, StateMutability, Visibility, StorageLocation, FunctionTy};
use crate::output::{Output, Level, ErrorType, is_diag, is_diag_note, extends, error_added, joined, join2, join3, push_error};
use crate::Target;
use super::{Contract, FunctionDecl, Parameter, Symbol, Type, TypeV, type_wf, params_wf, function_wf, symbol_wf,
    lookup, symbol_index, lemma_symbol_index, resolve_type_spec, signature_of, signature_text_v, param_sig_parts,
    lemma_type_text_v, lemma_wf_extend, already_defined_text};
use vstd::prelude::*;

verus! {

/// The first state mutability attribute.
pub open spec fn first_mutability(attrs: Seq<FunctionAttribute>) -> Option<StateMutability>
    decreases attrs.len(),
{
    if attrs.len() == 0 {
        None
    } else {
        match first_mutability(attrs.drop_last()) {
            Some(m) => Some(m),
            None => match attrs.last() {
                FunctionAttribute::StateMutability(m) => Some(m),
                _ => None,
            },
        }
    }
}

/// The first visibility attribute.
pub open spec fn first_visibility(attrs: Seq<FunctionAttribute>) -> Option<Visibility>
    decreases attrs.len(),
{
    if attrs.len() == 0 {
        None
    } else {
        match first_visibility(attrs.drop_last()) {
            Some(v) => Some(v),
            None => match attrs.last() {
                FunctionAttribute::Visibility(v) => Some(v),
                _ => None,
            },
        }
    }
}

/// No kind of attribute is given twice.
pub open spec fn attrs_unique(attrs: Seq<FunctionAttribute>) -> bool {
    forall|i: int, j: int| 0 <= i < j < attrs.len() ==> {
        &&& !((#[trigger] attrs[i]) is StateMutability && (#[trigger] attrs[j]) is StateMutability)
        &&& !(attrs[i] is Visibility && attrs[j] is Visibility)
    }
}

/// The first attribute of a kind is there exactly when some attribute of
/// that kind is.
proof fn lemma_first_attrs(attrs: Seq<FunctionAttribute>)
    ensures
        first_mutability(attrs) is Some <==> exists|j: int| 0 <= j < attrs.len() && (#[trigger] attrs[j]) is StateMutability,
        first_visibility(attrs) is Some <==> exists|j: int| 0 <= j < attrs.len() && (#[trigger] attrs[j]) is Visibility,
    decreases attrs.len(),
{
    if attrs.len() > 0 {
        let p = attrs.drop_last();
        lemma_first_attrs(p);
        if exists|j: int| 0 <= j < p.len() && (#[trigger] p[j]) is StateMutability {
            let j = choose|j: int| 0 <= j < p.len() && (#[trigger] p[j]) is StateMutability;
            assert(attrs[j] == p[j]);
        }
        if exists|j: int| 0 <= j < p.len() && (#[trigger] p[j]) is Visibility {
            let j = choose|j: int| 0 <= j < p.len() && (#[trigger] p[j]) is Visibility;
            assert(attrs[j] == p[j]);
        }
        if exists|j: int| 0 <= j < attrs.len() && (#[trigger] attrs[j]) is StateMutability {
            let j = choose|j: int| 0 <= j < attrs.len() && (#[trigger] attrs[j]) is StateMutability;
            if j < attrs.len() - 1 {
                assert(p[j] == attrs[j]);
            }
        }
        if exists|j: int| 0 <= j < attrs.len() && (#[trigger] attrs[j]) is Visibility {
            let j = choose|j: int| 0 <= j < attrs.len() && (#[trigger] attrs[j]) is Visibility;
            if j < attrs.len() - 1 {
                assert(p[j] == attrs[j]);
            }
        }
    }
}

/// The visibility of a definition; public where none is given.
pub open spec fn visibility_of(f: ast::FunctionDefinition) -> Visibility {
    match first_visibility(f.attributes@) {
        Some(v) => v,
        None => Visibility::Public(Loc(0, 0)),
    }
}

/// Storage references may only be passed to internal and private functions.
pub open spec fn storage_allowed(v: Visibility) -> bool {
    v is Internal || v is Private
}

/// The type of a parameter or return value as declared, if it is accepted.
/// Only an array can have a data location; `storage` makes it a storage
/// reference where that is allowed, and a return value cannot be `calldata`.
pub open spec fn decl_type(p: Option<ast::Parameter>, c: Contract, allowed: bool, is_return: bool) -> Option<TypeV> {
    match p {
        None => None,
        Some(p) => match resolve_type_spec(c, p.ty) {
            Err(_) => None,
            Ok(t) => if !(t is FixedArray) {
                if p.storage is Some { None } else { Some(t) }
            } else {
                match p.storage {
                    Some(StorageLocation::Storage(_)) => if allowed { Some(TypeV::StorageRef(Box::new(t))) } else { None },
                    Some(StorageLocation::Calldata(_)) => if is_return { None } else { Some(t) },
                    _ => Some(t),
                }
            },
        },
    }
}

/// The name of a parameter; empty where it has none.
pub open spec fn param_name(p: Option<ast::Parameter>) -> Seq<char> {
    match p {
        Some(p) => match p.name {
            Some(id) => id.name@,
            None => Seq::empty(),
        },
        None => Seq::empty(),
    }
}

/// Every parameter of the list is accepted.
pub open spec fn decl_types_ok(ps: Seq<(Loc, Option<ast::Parameter>)>, c: Contract, allowed: bool, is_return: bool) -> bool {
    forall|i: int| 0 <= i < ps.len() ==> decl_type((#[trigger] ps[i]).1, c, allowed, is_return) is Some
}

/// The resolved parameters are those declared, one for one.
pub open spec fn resolved_params(
    out: Seq<Parameter>,
    ps: Seq<(Loc, Option<ast::Parameter>)>,
    c: Contract,
    allowed: bool,
    is_return: bool,
) -> bool {
    &&& out.len() == ps.len()
    &&& forall|i: int| 0 <= i < ps.len() ==> {
        &&& (#[trigger] out[i]).ty@ == decl_type(ps[i].1, c, allowed, is_return).unwrap()
        &&& out[i].name@ == param_name(ps[i].1)
    }
}

/// Resolve the parameters (or return values) of a function. A missing type,
/// a type that does not resolve, or a data location that the type cannot
/// have is an error.
fn resolve_params(
    ps: &Vec<(Loc, Option<ast::Parameter>)>,
    ns: &Contract,
    allowed: bool,
    is_return: bool,
    errors: &mut Vec<Output>,
) -> (r: (bool, Vec<Parameter>))
    requires
        ns.wf(),
    ensures
        r.0 == decl_types_ok(ps@, *ns, allowed, is_return),
        r.0 ==> resolved_params(r.1@, ps@, *ns, allowed, is_return),
        params_wf(r.1@, *ns),
        extends(old(errors)@, final(errors)@),
        !r.0 ==> error_added(old(errors)@, final(errors)@),
        r.0 ==> final(errors)@ == old(errors)@,
{
    let mut out: Vec<Parameter> = Vec::new();
    let mut ok = true;
    let mut i: usize = 0;
    while i < ps.len()
        invariant
            0 <= i <= ps@.len(),
            ns.wf(),
            ok == decl_types_ok(ps@.take(i as int), *ns, allowed, is_return),
            ok ==> resolved_params(out@, ps@.take(i as int), *ns, allowed, is_return),
            params_wf(out@, *ns),
            extends(old(errors)@, errors@),
            !ok ==> error_added(old(errors)@, errors@),
            ok ==> errors@ == old(errors)@,
        decreases ps@.len() - i,
    {
        let ghost before = errors@;
        let ghost pre = ps@.take(i as int);
        let ghost next = ps@.take(i + 1);
        proof {
            assert(next.drop_last() =~= pre);
            assert(next[i as int] == ps@[i as int]);
            assert forall|j: int| 0 <= j < i implies next[j] == pre[j] by {}
        }
        let item_ok: bool = match &ps[i].1 {
            None => {
                let msg = if is_return {
                    String::from_str("missing return type")
                } else {
                    String::from_str("missing parameter type")
                };
                push_error(errors, Output::error(ps[i].0, msg));
                false
            },
            Some(p) => {
                match ns.resolve_type(&p.ty, errors) {
                    Err(()) => false,
                    Ok(ty) => {
                        let ghost t = ty@;
                        let name = match &p.name {
                            Some(id) => id.name.clone(),
                            None => String::new(),
                        };
                        if !ty.can_have_data_location() {
                            match &p.storage {
                                Some(storage) => {
                                    let msg = join3("data location ‘", storage.to_string().as_str(),
                                        "’ can only be specified for array, struct or mapping");
                                    push_error(errors, Output::error(storage.loc(), msg));
                                    false
                                },
                                None => {
                                    out.push(Parameter { name, ty });
                                    true
                                },
                            }
                        } else {
                            match p.storage {
                                Some(StorageLocation::Storage(loc)) => {
                                    if allowed {
                                        let rty = Type::StorageRef(Box::new(ty));
                                        assert(rty@ == TypeV::StorageRef(Box::new(t)));
                                        out.push(Parameter { name, ty: rty });
                                        true
                                    } else {
                                        let msg = if is_return {
                                            String::from_str("return type of type ‘storage’ not allowed public or external functions")
                                        } else {
                                            String::from_str("parameter of type ‘storage’ not allowed public or external functions")
                                        };
                                        push_error(errors, Output::error(loc, msg));
                                        false
                                    }
                                },
                                Some(StorageLocation::Calldata(loc)) => {
                                    if is_return {
                                        push_error(errors, Output::error(loc,
                                            String::from_str("data location ‘calldata’ can not be used for return types")));
                                        false
                                    } else {
                                        out.push(Parameter { name, ty });
                                        true
                                    }
                                },
                                _ => {
                                    out.push(Parameter { name, ty });
                                    true
                                },
                            }
                        }
                    },
                }
            },
        };
        proof {
            if !item_ok {
                assert(decl_type(ps@[i as int].1, *ns, allowed, is_return) is None);
                assert(!decl_types_ok(next, *ns, allowed, is_return));
                if ok {
                    assert(errors@.len() > before.len());
                    assert(errors@[before.len() as int].level == Level::Error);
                }
                crate::output::lemma_extends_trans(old(errors)@, before, errors@);
                crate::output::lemma_error_added_trans(old(errors)@, before, errors@);
            } else {
                assert(decl_type(ps@[i as int].1, *ns, allowed, is_return) is Some);
                if ok {
                    assert(out@.last().ty@ == decl_type(ps@[i as int].1, *ns, allowed, is_return).unwrap());
                    assert(resolved_params(out@, next, *ns, allowed, is_return));
                }
            }
        }
        ok = ok && item_ok;
        i += 1;
    }
    assert(ps@.take(ps@.len() as int) =~= ps@);
    (ok, out)
}

/// Is the definition a constructor?
pub open spec fn is_ctor(f: ast::FunctionDefinition) -> bool {
    f.ty == FunctionTy::Constructor
}

/// Is the definition the fallback function: no constructor and no name?
pub open spec fn is_fallback_def(f: ast::FunctionDefinition) -> bool {
    !is_ctor(f) && f.name is None
}

/// The name of the definition; empty for constructors and the fallback.
pub open spec fn fn_name(f: ast::FunctionDefinition) -> Seq<char> {
    match f.name {
        Some(n) => n.name@,
        None => Seq::empty(),
    }
}

/// The declaration has nothing wrong in itself: its name differs from the
/// contract's, a constructor returns nothing, the fallback takes and returns
/// nothing, no attribute is repeated, a visibility is given, and every
/// parameter and return type is accepted.
pub open spec fn header_ok(f: ast::FunctionDefinition, c: Contract) -> bool {
    &&& !(f.name matches Some(n) && n.name@ == c.name@)
    &&& !(is_ctor(f) && f.returns@.len() > 0)
    &&& !(is_fallback_def(f) && (f.returns@.len() > 0 || f.params@.len() > 0))
    &&& attrs_unique(f.attributes@)
    &&& first_visibility(f.attributes@) is Some
    &&& decl_types_ok(f.params@, c, storage_allowed(visibility_of(f)), false)
    &&& decl_types_ok(f.returns@, c, storage_allowed(visibility_of(f)), true)
}

/// Is the function named like its contract?
pub open spec fn named_like_contract(f: ast::FunctionDefinition, c: Contract) -> bool {
    f.name matches Some(n) && n.name@ == c.name@
}

/// The signature of an accepted definition: `name(t1,t2,...)`.
pub open spec fn def_signature(f: ast::FunctionDefinition, c: Contract) -> Seq<char> {
    fn_name(f) + "("@ + joined(
        f.params@.map_values(|p: (Loc, Option<ast::Parameter>)|
            signature_text_v(decl_type(p.1, c, storage_allowed(visibility_of(f)), false).unwrap(), c)),
        ","@,
    ) + ")"@
}

/// May a declaration with this signature join the contract? A constructor
/// must be public and neither pure nor view, must be the only one on ewasm,
/// and its signature must be new; an overload needs a new signature and its
/// name must not be taken by something else; there is one fallback function,
/// and it is external.
pub open spec fn placement_ok(f: ast::FunctionDefinition, sig: Seq<char>, c: Contract) -> bool {
    if is_ctor(f) {
        &&& !(c.target == Target::Ewasm && c.constructors@.len() > 0)
        &&& visibility_of(f) is Public
        &&& !(first_mutability(f.attributes@) matches Some(m) && (m is Pure || m is View))
        &&& forall|k: int| 0 <= k < c.constructors@.len() ==> (#[trigger] c.constructors@[k]).signature@ != sig
    } else if f.name is Some {
        match lookup(c.symbols@, fn_name(f)) {
            None => true,
            Some(Symbol::Function(v)) => forall|k: int| 0 <= k < v@.len() ==>
                c.functions@[(#[trigger] v@[k]).1 as int].signature@ != sig,
            Some(_) => false,
        }
    } else {
        &&& forall|k: int| 0 <= k < c.functions@.len() ==> !(#[trigger] c.functions@[k]).fallback
        &&& visibility_of(f) is External
    }
}

/// The declaration is the one resolved from the definition.
pub open spec fn decl_of(d: FunctionDecl, f: ast::FunctionDefinition, i: usize, c: Contract) -> bool {
    &&& d.loc == f.loc
    &&& d.name@ == fn_name(f)
    &&& d.fallback == is_fallback_def(f)
    &&& d.ast_index == Some(i)
    &&& d.mutability == first_mutability(f.attributes@)
    &&& d.visibility == visibility_of(f)
    &&& resolved_params(d.params@, f.params@, c, storage_allowed(visibility_of(f)), false)
    &&& resolved_params(d.returns@, f.returns@, c, storage_allowed(visibility_of(f)), true)
    &&& d.signature@ == def_signature(f, c)
    &&& d.cfg is None
}

/// The overloads of each function name have distinct signatures.
pub open spec fn overloads_distinct(c: Contract) -> bool {
    forall|i: int| 0 <= i < c.symbols@.len() ==> ((#[trigger] c.symbols@[i]).1 matches Symbol::Function(v) ==>
        forall|a: int, b: int| 0 <= a < b < v@.len() ==>
            c.functions@[(#[trigger] v@[a]).1 as int].signature@ != c.functions@[(#[trigger] v@[b]).1 as int].signature@)
}

/// Overloads stay distinct when functions are added and the symbols stay.
proof fn lemma_overloads_kept(c0: Contract, c1: Contract)
    requires
        c0.wf(),
        overloads_distinct(c0),
        c1.symbols@ == c0.symbols@,
        c0.functions@.len() <= c1.functions@.len(),
        forall|k: int| 0 <= k < c0.functions@.len() ==> #[trigger] c1.functions@[k] == c0.functions@[k],
    ensures
        overloads_distinct(c1),
{
    assert forall|i: int| 0 <= i < c1.symbols@.len() implies ((#[trigger] c1.symbols@[i]).1 matches Symbol::Function(v) ==>
        forall|a: int, b: int| 0 <= a < b < v@.len() ==>
            c1.functions@[(#[trigger] v@[a]).1 as int].signature@ != c1.functions@[(#[trigger] v@[b]).1 as int].signature@) by {
        if let Symbol::Function(v) = c1.symbols@[i].1 {
            assert(symbol_wf(c0.symbols@[i].1, c0));
            assert forall|a: int, b: int| 0 <= a < b < v@.len() implies
                c1.functions@[(#[trigger] v@[a]).1 as int].signature@ != c1.functions@[(#[trigger] v@[b]).1 as int].signature@ by {
                assert(c1.functions@[v@[a].1 as int] == c0.functions@[v@[a].1 as int]);
                assert(c1.functions@[v@[b].1 as int] == c0.functions@[v@[b].1 as int]);
            }
        }
    }
}

/// The declarations of a function name, where the name is a function's.
pub open spec fn overloads(syms: Seq<(String, Symbol)>, name: Seq<char>) -> Seq<(Loc, usize)> {
    match lookup(syms, name) {
        Some(Symbol::Function(v)) => v@,
        _ => Seq::empty(),
    }
}

/// The declarations of the contract other than its functions, constructors
/// and symbols are as they were.
pub open spec fn same_decls(c1: Contract, c2: Contract) -> bool {
    &&& c2.name == c1.name
    &&& c2.doc == c1.doc
    &&& c2.enums == c1.enums
    &&& c2.structs == c1.structs
    &&& c2.variables == c1.variables
    &&& c2.constants == c1.constants
    &&& c2.initializer == c1.initializer
    &&& c2.target == c1.target
    &&& c2.top_of_contract_storage == c1.top_of_contract_storage
}

/// The signatures of resolved parameters agree with those of the definition.
proof fn lemma_def_signature(d: Seq<Parameter>, f: ast::FunctionDefinition, c: Contract)
    requires
        resolved_params(d, f.params@, c, storage_allowed(visibility_of(f)), false),
    ensures
        fn_name(f) + "("@ + joined(param_sig_parts(d, c), ","@) + ")"@ == def_signature(f, c),
{
    let a = param_sig_parts(d, c);
    let b = f.params@.map_values(|p: (Loc, Option<ast::Parameter>)|
        signature_text_v(decl_type(p.1, c, storage_allowed(visibility_of(f)), false).unwrap(), c));
    assert forall|k: int| 0 <= k < a.len() implies a[k] == b[k] by {
        lemma_type_text_v(d[k].ty, c);
    }
    assert(a =~= b);
}

/// The parts of a declaration as written: its mutability and visibility,
/// and the resolved parameters and return values. `None` where
/// `header_ok` fails, with an error or, for return values of a
/// constructor and parameters or return values of the fallback, a warning.
fn resolve_header(f: &ast::FunctionDefinition, ns: &Contract, errors: &mut Vec<Output>) -> (r: Option<(
    Option<StateMutability>,
    Visibility,
    Vec<Parameter>,
    Vec<Parameter>,
)>)
    requires
        ns.wf(),
    ensures
        r is Some <==> header_ok(*f, *ns),
        r matches Some(h) ==> {
            &&& h.0 == first_mutability(f.attributes@)
            &&& h.1 == visibility_of(*f)
            &&& resolved_params(h.2@, f.params@, *ns, storage_allowed(visibility_of(*f)), false)
            &&& resolved_params(h.3@, f.returns@, *ns, storage_allowed(visibility_of(*f)), true)
            &&& params_wf(h.2@, *ns)
            &&& params_wf(h.3@, *ns)
            &&& final(errors)@ == old(errors)@
        },
        extends(old(errors)@, final(errors)@),
        r is None && !(is_ctor(*f) && f.returns@.len() > 0) && !(is_fallback_def(*f) && (f.returns@.len() > 0 || f.params@.len() > 0))
            ==> error_added(old(errors)@, final(errors)@),
        named_like_contract(*f, *ns) ==> final(errors)@ == old(errors)@.push(final(errors)@.last())
            && is_diag(final(errors)@.last(), Level::Error, ErrorType::SyntaxError, f.loc, "function cannot have same name as the contract"@),
{
    if let Some(n) = &f.name {
        if n.name == ns.name {
            proof { reveal_strlit("function cannot have same name as the contract"); }
            push_error(errors, Output::error(f.loc, String::from_str("function cannot have same name as the contract")));
            proof { crate::output::lemma_pushed_error(old(errors)@, errors@); }
            return None;
        }
    }
    let is_constructor = f.ty == FunctionTy::Constructor;
    let mut success = true;
    if is_constructor && f.returns.len() > 0 {
        errors.push(Output::warning(f.loc, String::from_str("constructor cannot have return values")));
        return None;
    } else if !is_constructor && f.name.is_none() {
        if f.returns.len() > 0 {
            errors.push(Output::warning(f.loc, String::from_str("fallback function cannot have return values")));
            success = false;
        }
        if f.params.len() > 0 {
            errors.push(Output::warning(f.loc, String::from_str("fallback function cannot have parameters")));
            success = false;
        }
    }
    let ghost e1 = errors@;
    assert(extends(old(errors)@, e1));
    assert(success ==> e1 == old(errors)@);

    let mut mutability: Option<StateMutability> = None;
    let mut visibility: Option<Visibility> = None;
    let mut attrs_ok = true;
    let mut k: usize = 0;
    while k < f.attributes.len()
        invariant
            0 <= k <= f.attributes@.len(),
            mutability == first_mutability(f.attributes@.take(k as int)),
            visibility == first_visibility(f.attributes@.take(k as int)),
            attrs_ok == attrs_unique(f.attributes@.take(k as int)),
            extends(e1, errors@),
            !attrs_ok ==> error_added(e1, errors@),
            attrs_ok ==> errors@ == e1,
        decreases f.attributes@.len() - k,
    {
        let ghost pre = f.attributes@.take(k as int);
        let ghost next = f.attributes@.take(k + 1);
        let ghost before = errors@;
        proof {
            assert(next.drop_last() =~= pre);
            lemma_first_attrs(pre);
        }
        match f.attributes[k] {
            FunctionAttribute::StateMutability(m) => {
                match mutability {
                    Some(e) => {
                        let msg = join3("function redeclared `", m.to_string().as_str(), "'");
                        let note = join3("location of previous declaration of `", e.to_string().as_str(), "'");
                        push_error(errors, Output::error_with_note(m.loc(), msg, e.loc(), note));
                        attrs_ok = false;
                        proof {
                            let j = choose|j: int| 0 <= j < pre.len() && (#[trigger] pre[j]) is StateMutability;
                            assert(next[j] == pre[j]);
                            assert(!attrs_unique(next));
                        }
                    },
                    None => {
                        mutability = Some(m);
                        proof { lemma_unique_step(pre, next); }
                    },
                }
            },
            FunctionAttribute::Visibility(v) => {
                match visibility {
                    Some(e) => {
                        let msg = join3("function redeclared `", v.to_string().as_str(), "'");
                        let note = join3("location of previous declaration of `", e.to_string().as_str(), "'");
                        push_error(errors, Output::error_with_note(v.loc(), msg, e.loc(), note));
                        attrs_ok = false;
                        proof {
                            let j = choose|j: int| 0 <= j < pre.len() && (#[trigger] pre[j]) is Visibility;
                            assert(next[j] == pre[j]);
                            assert(!attrs_unique(next));
                        }
                    },
                    None => {
                        visibility = Some(v);
                        proof { lemma_unique_step(pre, next); }
                    },
                }
            },
        }
        proof {
            crate::output::lemma_extends_trans(e1, before, errors@);
            crate::output::lemma_error_added_trans(e1, before, errors@);
        }
        k += 1;
    }
    assert(f.attributes@.take(f.attributes@.len() as int) =~= f.attributes@);
    let ghost e2 = errors@;

    let vis_given = visibility.is_some();
    let visibility = match visibility {
        Some(v) => v,
        None => {
            push_error(errors, Output::error(f.loc, String::from_str("no visibility specified")));
            Visibility::Public(Loc(0, 0))
        },
    };
    let ghost e3 = errors@;
    assert(vis_given ==> e3 == e2);
    assert(!vis_given ==> error_added(e2, e3));
    let storage_ok = match visibility {
        Visibility::Internal(_) | Visibility::Private(_) => true,
        Visibility::Public(_) | Visibility::External(_) => false,
    };
    let (params_ok, params) = resolve_params(&f.params, ns, storage_ok, false, errors);
    let ghost e4 = errors@;
    let (returns_ok, rets) = resolve_params(&f.returns, ns, storage_ok, true, errors);
    proof {
        crate::output::lemma_extends_trans(old(errors)@, e1, e2);
        crate::output::lemma_extends_trans(old(errors)@, e2, e3);
        crate::output::lemma_extends_trans(old(errors)@, e3, e4);
        crate::output::lemma_extends_trans(old(errors)@, e4, errors@);
        crate::output::lemma_extends_trans(e1, e2, e3);
        crate::output::lemma_extends_trans(e1, e3, e4);
        crate::output::lemma_extends_trans(e1, e4, errors@);
        crate::output::lemma_extends_trans(e2, e3, e4);
        crate::output::lemma_extends_trans(e2, e4, errors@);
        crate::output::lemma_extends_trans(e3, e4, errors@);
        if !attrs_ok {
            crate::output::lemma_error_added_trans(e1, e2, errors@);
        }
        if !vis_given {
            crate::output::lemma_error_added_trans(e2, e3, errors@);
            crate::output::lemma_error_added_trans(e1, e2, errors@);
        }
        if !params_ok {
            crate::output::lemma_error_added_trans(e3, e4, errors@);
            crate::output::lemma_error_added_trans(e2, e3, errors@);
            crate::output::lemma_error_added_trans(e1, e2, errors@);
        }
        if !returns_ok {
            crate::output::lemma_error_added_trans(e3, e4, errors@);
            crate::output::lemma_error_added_trans(e2, e3, errors@);
            crate::output::lemma_error_added_trans(e1, e2, errors@);
        }
        if success {
            assert(e1 == old(errors)@);
        }
    }
    if !(success && attrs_ok && vis_given && params_ok && returns_ok) {
        return None;
    }
    Some((mutability, visibility, params, rets))
}

/// One more attribute keeps the list free of repeats, when the kind of the
/// new one has not been seen.
proof fn lemma_unique_step(pre: Seq<FunctionAttribute>, next: Seq<FunctionAttribute>)
    requires
        next.len() == pre.len() + 1,
        next.drop_last() == pre,
        next.last() is StateMutability ==> first_mutability(pre) is None,
        next.last() is Visibility ==> first_visibility(pre) is None,
    ensures
        attrs_unique(next) == attrs_unique(pre),
{
    lemma_first_attrs(pre);
    if attrs_unique(pre) {
        assert forall|a: int, b: int| 0 <= a < b < next.len() implies {
            &&& !((#[trigger] next[a]) is StateMutability && (#[trigger] next[b]) is StateMutability)
            &&& !(next[a] is Visibility && next[b] is Visibility)
        } by {
            assert(next[a] == pre[a]);
            if b < pre.len() {
                assert(next[b] == pre[b]);
            }
        }
    } else {
        let (a, b) = choose|a: int, b: int| 0 <= a < b < pre.len() && !({
            &&& !((#[trigger] pre[a]) is StateMutability && (#[trigger] pre[b]) is StateMutability)
            &&& !(pre[a] is Visibility && pre[b] is Visibility)
        });
        assert(next[a] == pre[a] && next[b] == pre[b]);
    }
}

/// The message for a second constructor where the target allows one.
pub open spec fn ctor_defined_diag(o: Output, loc: Loc, prev: Loc) -> bool {
    is_diag_note(o, Level::Error, ErrorType::SyntaxError, loc, "constructor already defined"@, prev,
        "location of previous definition"@)
}

/// The messages for the name of a function: a name that something other than
/// functions has is refused as already defined; an overload refused for its
/// signature `sig` is reported as such, with a note at an earlier definition
/// of that signature.
pub open spec fn name_clash_reported(f: ast::FunctionDefinition, sig: Seq<char>, c: Contract, r: bool, errs: Seq<Output>) -> bool {
    f.name matches Some(id) ==> match lookup(c.symbols@, id.name@) {
        Some(Symbol::Function(v)) => !r ==> errs.len() > 0 && errs.last().level == Level::Error && errs.last().pos == f.loc
            && errs.last().message@ == "overloaded function with this signature already exist"@
            && errs.last().notes@.len() == 1 && errs.last().notes@[0].message@ == "location of previous definition"@
            && exists|m: int| 0 <= m < v@.len() && errs.last().notes@[0].pos == (#[trigger] v@[m]).0
                && c.functions@[v@[m].1 as int].signature@ == sig,
        Some(s) => !r && errs.len() > 0 && errs.last().level == Level::Error && errs.last().pos == id.loc
            && errs.last().message@ == id.name@ + already_defined_text(s),
        None => true,
    }
}

/// Add a constructor, unless the target allows only one and there is one,
/// it is not public, it is declared pure or view, or one with the same
/// signature exists.
fn add_constructor(fdecl: FunctionDecl, f: &ast::FunctionDefinition, ns: &mut Contract, errors: &mut Vec<Output>) -> (r: bool)
    requires
        old(ns).wf(),
        is_ctor(*f),
        function_wf(fdecl, *old(ns)),
        fdecl.visibility == visibility_of(*f),
        fdecl.mutability == first_mutability(f.attributes@),
    ensures
        r == placement_ok(*f, fdecl.signature@, *old(ns)),
        r ==> final(ns).constructors@ == old(ns).constructors@.push(fdecl),
        !r ==> final(ns).constructors@ == old(ns).constructors@,
        final(ns).functions@ == old(ns).functions@,
        overloads_distinct(*old(ns)) ==> overloads_distinct(*final(ns)),
        final(ns).symbols@ == old(ns).symbols@,
        same_decls(*old(ns), *final(ns)),
        final(ns).wf(),
        extends(old(errors)@, final(errors)@),
        !r ==> error_added(old(errors)@, final(errors)@),
        old(ns).target == Target::Ewasm && old(ns).constructors@.len() > 0 ==> !r && final(errors)@.len() > 0
            && ctor_defined_diag(final(errors)@.last(), f.loc, old(ns).constructors@[0].loc),
{
    if ns.target == Target::Ewasm && ns.constructors.len() > 0 {
        let prev = &ns.constructors[0];
        push_error(errors, Output::error_with_note(f.loc, String::from_str("constructor already defined"),
            prev.loc, String::from_str("location of previous definition")));
        proof { crate::output::lemma_pushed_error(old(errors)@, errors@); }
        return false;
    }
    match fdecl.visibility {
        Visibility::Public(_) => {},
        _ => {
            push_error(errors, Output::error(f.loc, String::from_str("constructor function must be declared public")));
            proof { crate::output::lemma_pushed_error(old(errors)@, errors@); }
            return false;
        },
    }
    match fdecl.mutability {
        Some(StateMutability::Pure(loc)) => {
            push_error(errors, Output::error(loc, String::from_str("constructor cannot be declared pure")));
            proof { crate::output::lemma_pushed_error(old(errors)@, errors@); }
            return false;
        },
        Some(StateMutability::View(loc)) => {
            push_error(errors, Output::error(loc, String::from_str("constructor cannot be declared view")));
            proof { crate::output::lemma_pushed_error(old(errors)@, errors@); }
            return false;
        },
        _ => {},
    }
    let mut dup: Option<Loc> = None;
    let mut j: usize = 0;
    while j < ns.constructors.len()
        invariant
            0 <= j <= ns.constructors@.len(),
            dup is None ==> forall|m: int| 0 <= m < j ==> (#[trigger] ns.constructors@[m]).signature@ != fdecl.signature@,
            dup is Some ==> exists|m: int| 0 <= m < ns.constructors@.len()
                && (#[trigger] ns.constructors@[m]).signature@ == fdecl.signature@,
        decreases ns.constructors@.len() - j,
    {
        if dup.is_none() && ns.constructors[j].signature == fdecl.signature {
            dup = Some(ns.constructors[j].loc);
        }
        j += 1;
    }
    if let Some(prev) = dup {
        push_error(errors, Output::error_with_note(f.loc,
            String::from_str("constructor with this signature already exists"),
            prev, String::from_str("location of previous definition")));
        proof { crate::output::lemma_pushed_error(old(errors)@, errors@); }
        return false;
    }
    let ghost c0 = *ns;
    ns.constructors.push(fdecl);
    proof {
        if overloads_distinct(c0) {
            lemma_overloads_kept(c0, *ns);
        }
        assert forall|m: int| 0 <= m < ns.symbols@.len() implies symbol_wf((#[trigger] ns.symbols@[m]).1, *ns) by {
            assert(symbol_wf(c0.symbols@[m].1, c0));
        }
        lemma_wf_extend(c0, *ns);
    }
    true
}

/// Add a named function. A name already used by other functions makes it an
/// overload, refused where one has the same signature; a new name is
/// declared for it. A name taken by something else is an error, and the
/// declaration is kept without a name that refers to it.
fn add_function(fdecl: FunctionDecl, f: &ast::FunctionDefinition, id: &ast::Identifier, ns: &mut Contract, errors: &mut Vec<Output>) -> (r: bool)
    requires
        old(ns).wf(),
        !is_ctor(*f),
        f.name == Some(*id),
        function_wf(fdecl, *old(ns)),
    ensures
        r == placement_ok(*f, fdecl.signature@, *old(ns)),
        final(ns).constructors@ == old(ns).constructors@,
        same_decls(*old(ns), *final(ns)),
        final(ns).wf(),
        extends(old(errors)@, final(errors)@),
        !r ==> error_added(old(errors)@, final(errors)@),
        !r ==> final(ns).symbols@ == old(ns).symbols@,
        !r ==> (final(ns).functions@ == old(ns).functions@
            || (!(lookup(old(ns).symbols@, fn_name(*f)) matches Some(Symbol::Function(_)))
                && final(ns).functions@ == old(ns).functions@.push(fdecl))),
        r ==> final(ns).functions@ == old(ns).functions@.push(fdecl),
        overloads_distinct(*old(ns)) ==> overloads_distinct(*final(ns)),
        name_clash_reported(*f, fdecl.signature@, *old(ns), r, final(errors)@),
        r && lookup(old(ns).symbols@, fn_name(*f)) is None ==> {
            &&& final(ns).symbols@.drop_last() == old(ns).symbols@
            &&& final(ns).symbols@.last().0@ == fn_name(*f)
            &&& final(ns).symbols@.last().1 matches Symbol::Function(w)
                && w@ == seq![(id.loc, old(ns).functions@.len() as usize)]
        },
        (r && lookup(old(ns).symbols@, fn_name(*f)) matches Some(Symbol::Function(_))) ==> {
            let k = symbol_index(old(ns).symbols@, fn_name(*f)).unwrap();
            &&& final(ns).symbols@.len() == old(ns).symbols@.len()
            &&& forall|j: int| 0 <= j < old(ns).symbols@.len() && j != k ==> #[trigger] final(ns).symbols@[j] == old(ns).symbols@[j]
            &&& final(ns).symbols@[k].0@ == fn_name(*f)
            &&& final(ns).symbols@[k].1 matches Symbol::Function(w)
                && w@ == overloads(old(ns).symbols@, fn_name(*f)).push((f.loc, old(ns).functions@.len() as usize))
        },
{
    let ghost c0 = *ns;
    let found = super::find_in_symbols(&ns.symbols, &id.name);
    proof { lemma_symbol_index(c0.symbols@, id.name@); }
    let pos = ns.functions.len();
    match found {
        Some(kk) => {
            let mut dup: Option<Loc> = None;
            let mut is_function = false;
            match &ns.symbols[kk].1 {
                Symbol::Function(v) => {
                    is_function = true;
                    assert(symbol_wf(c0.symbols@[kk as int].1, c0));
                    let mut j: usize = 0;
                    while j < v.len()
                        invariant
                            0 <= j <= v@.len(),
                            forall|m: int| 0 <= m < v@.len() ==> (#[trigger] v@[m]).1 < ns.functions@.len(),
                            dup is None ==> forall|m: int| 0 <= m < j ==>
                                ns.functions@[(#[trigger] v@[m]).1 as int].signature@ != fdecl.signature@,
                            dup matches Some(p) ==> exists|m: int| 0 <= m < v@.len() && p == (#[trigger] v@[m]).0 &&
                                ns.functions@[v@[m].1 as int].signature@ == fdecl.signature@,
                        decreases v@.len() - j,
                    {
                        if dup.is_none() && ns.functions[v[j].1].signature == fdecl.signature {
                            dup = Some(v[j].0);
                        }
                        j += 1;
                    }
                },
                _ => {},
            }
            if is_function {
                if let Some(prev) = dup {
                    push_error(errors, Output::error_with_note(f.loc,
                        String::from_str("overloaded function with this signature already exist"),
                        prev, String::from_str("location of previous definition")));
                    proof { crate::output::lemma_pushed_error(old(errors)@, errors@); }
                    return false;
                }
                let ghost newsig = fdecl.signature@;
                ns.functions.push(fdecl);
                if let Symbol::Function(v) = &mut ns.symbols[kk].1 {
                    v.push((f.loc, pos));
                }
                proof {
                    assert forall|m: int| 0 <= m < ns.symbols@.len() implies symbol_wf((#[trigger] ns.symbols@[m]).1, *ns) by {
                        assert(symbol_wf(c0.symbols@[m].1, c0));
                    }
                    lemma_wf_extend(c0, *ns);
                    if overloads_distinct(c0) {
                        assert forall|i: int| 0 <= i < ns.symbols@.len() implies ((#[trigger] ns.symbols@[i]).1 matches Symbol::Function(v) ==>
                            forall|a: int, b: int| 0 <= a < b < v@.len() ==>
                                ns.functions@[(#[trigger] v@[a]).1 as int].signature@ != ns.functions@[(#[trigger] v@[b]).1 as int].signature@) by {
                            assert(symbol_wf(c0.symbols@[i].1, c0));
                            if let Symbol::Function(v) = ns.symbols@[i].1 {
                                if i == kk {
                                    let v0 = match c0.symbols@[i].1 { Symbol::Function(w) => w@, _ => Seq::empty() };
                                    assert(v@ == v0.push((f.loc, pos)));
                                    assert forall|a: int, b: int| 0 <= a < b < v@.len() implies
                                        ns.functions@[(#[trigger] v@[a]).1 as int].signature@ != ns.functions@[(#[trigger] v@[b]).1 as int].signature@ by {
                                        assert(v@[a] == v0[a]);
                                        assert(ns.functions@[v0[a].1 as int] == c0.functions@[v0[a].1 as int]);
                                        if b < v0.len() {
                                            assert(v@[b] == v0[b]);
                                            assert(ns.functions@[v0[b].1 as int] == c0.functions@[v0[b].1 as int]);
                                        } else {
                                            assert(ns.functions@[pos as int].signature@ == newsig);
                                        }
                                    }
                                } else {
                                    assert forall|a: int, b: int| 0 <= a < b < v@.len() implies
                                        ns.functions@[(#[trigger] v@[a]).1 as int].signature@ != ns.functions@[(#[trigger] v@[b]).1 as int].signature@ by {
                                        assert(ns.functions@[v@[a].1 as int] == c0.functions@[v@[a].1 as int]);
                                        assert(ns.functions@[v@[b].1 as int] == c0.functions@[v@[b].1 as int]);
                                    }
                                }
                            }
                        }
                    }
                }
                true
            } else {
                ns.functions.push(fdecl);
                let ok = super::add_symbol(&mut ns.symbols, id, Symbol::Function(vec![(id.loc, pos)]), errors);
                proof {
                    crate::output::lemma_pushed_error(old(errors)@, errors@);
                    assert forall|m: int| 0 <= m < ns.symbols@.len() implies symbol_wf((#[trigger] ns.symbols@[m]).1, *ns) by {
                        assert(symbol_wf(c0.symbols@[m].1, c0));
                    }
                    lemma_wf_extend(c0, *ns);
                    if overloads_distinct(c0) {
                        lemma_overloads_kept(c0, *ns);
                    }
                }
                ok
            }
        },
        None => {
            ns.functions.push(fdecl);
            let ok = super::add_symbol(&mut ns.symbols, id, Symbol::Function(vec![(id.loc, pos)]), errors);
            proof {
                assert forall|m: int| 0 <= m < ns.symbols@.len() implies symbol_wf((#[trigger] ns.symbols@[m]).1, *ns) by {
                    if m < c0.symbols@.len() {
                        assert(ns.symbols@[m] == c0.symbols@[m]);
                        assert(symbol_wf(c0.symbols@[m].1, c0));
                    }
                }
                assert forall|a: int, b: int| 0 <= a < b < ns.symbols@.len() implies
                    (#[trigger] ns.symbols@[a]).0@ != (#[trigger] ns.symbols@[b]).0@ by {
                    assert(ns.symbols@[a] == c0.symbols@[a]);
                    if b < c0.symbols@.len() {
                        assert(ns.symbols@[b] == c0.symbols@[b]);
                    }
                }
                lemma_wf_extend(c0, *ns);
                if overloads_distinct(c0) {
                    assert forall|i: int| 0 <= i < ns.symbols@.len() implies ((#[trigger] ns.symbols@[i]).1 matches Symbol::Function(v) ==>
                        forall|a: int, b: int| 0 <= a < b < v@.len() ==>
                            ns.functions@[(#[trigger] v@[a]).1 as int].signature@ != ns.functions@[(#[trigger] v@[b]).1 as int].signature@) by {
                        if i < c0.symbols@.len() {
                            assert(ns.symbols@[i] == c0.symbols@[i]);
                            assert(symbol_wf(c0.symbols@[i].1, c0));
                            if let Symbol::Function(v) = ns.symbols@[i].1 {
                                assert forall|a: int, b: int| 0 <= a < b < v@.len() implies
                                    ns.functions@[(#[trigger] v@[a]).1 as int].signature@ != ns.functions@[(#[trigger] v@[b]).1 as int].signature@ by {
                                    assert(ns.functions@[v@[a].1 as int] == c0.functions@[v@[a].1 as int]);
                                    assert(ns.functions@[v@[b].1 as int] == c0.functions@[v@[b].1 as int]);
                                }
                            }
                        }
                    }
                }
            }
            ok
        },
    }
}

/// Add the fallback function, unless there is one already or it is not
/// external.
fn add_fallback(fdecl: FunctionDecl, f: &ast::FunctionDefinition, ns: &mut Contract, errors: &mut Vec<Output>) -> (r: bool)
    requires
        old(ns).wf(),
        is_fallback_def(*f),
        function_wf(fdecl, *old(ns)),
        fdecl.visibility == visibility_of(*f),
    ensures
        r == placement_ok(*f, fdecl.signature@, *old(ns)),
        r ==> final(ns).functions@ == old(ns).functions@.push(fdecl),
        !r ==> final(ns).functions@ == old(ns).functions@,
        final(ns).constructors@ == old(ns).constructors@,
        final(ns).symbols@ == old(ns).symbols@,
        overloads_distinct(*old(ns)) ==> overloads_distinct(*final(ns)),
        same_decls(*old(ns), *final(ns)),
        final(ns).wf(),
        extends(old(errors)@, final(errors)@),
        !r ==> error_added(old(errors)@, final(errors)@),
{
    match ns.fallback_function() {
        Some(k) => {
            push_error(errors, Output::error_with_note(f.loc, String::from_str("fallback function already defined"),
                ns.functions[k].loc, String::from_str("location of previous definition")));
            proof { crate::output::lemma_pushed_error(old(errors)@, errors@); }
            return false;
        },
        None => {},
    }
    match fdecl.visibility {
        Visibility::External(_) => {},
        _ => {
            push_error(errors, Output::error(f.loc, String::from_str("fallback function must be declared external")));
            proof { crate::output::lemma_pushed_error(old(errors)@, errors@); }
            return false;
        },
    }
    let ghost c0 = *ns;
    ns.functions.push(fdecl);
    proof {
        assert forall|m: int| 0 <= m < ns.symbols@.len() implies symbol_wf((#[trigger] ns.symbols@[m]).1, *ns) by {
            assert(symbol_wf(c0.symbols@[m].1, c0));
        }
        lemma_wf_extend(c0, *ns);
        if overloads_distinct(c0) {
            lemma_overloads_kept(c0, *ns);
        }
    }
    true
}

/// What declaring the function definition `f`, part `i` of its contract,
/// does: from contract `c0` and messages `e0` to `c1` and `e1`, with result `r`.
pub open spec fn function_decl_done(f: ast::FunctionDefinition, i: usize, c0: Contract, c1: Contract, e0: Seq<Output>, e1: Seq<Output>, r: bool) -> bool {
    &&& c1.wf()
    &&& same_decls(c0, c1)
    &&& extends(e0, e1)
    &&& r == (header_ok(f, c0) && placement_ok(f, def_signature(f, c0), c0))
    &&& (named_like_contract(f, c0) ==> e1 == e0.push(e1.last())
        && is_diag(e1.last(), Level::Error, ErrorType::SyntaxError, f.loc, "function cannot have same name as the contract"@))
    &&& (header_ok(f, c0) && !is_ctor(f) && f.name is Some ==> name_clash_reported(f, def_signature(f, c0), c0, r, e1))
    &&& (header_ok(f, c0) && is_ctor(f) && c0.target == Target::Ewasm && c0.constructors@.len() > 0
        ==> !r && e1.len() > 0 && ctor_defined_diag(e1.last(), f.loc, c0.constructors@[0].loc))
    &&& (r && is_ctor(f) ==> {
        &&& c1.constructors@ == c0.constructors@.push(c1.constructors@.last())
        &&& decl_of(c1.constructors@.last(), f, i, c0)
        &&& c1.functions@ == c0.functions@
        &&& c1.symbols@ == c0.symbols@
    })
    &&& (r && !is_ctor(f) ==> {
        &&& c1.functions@ == c0.functions@.push(c1.functions@.last())
        &&& decl_of(c1.functions@.last(), f, i, c0)
        &&& c1.constructors@ == c0.constructors@
    })
    &&& (r && is_fallback_def(f) ==> c1.symbols@ == c0.symbols@)
    &&& (r && !is_ctor(f) && f.name is Some && lookup(c0.symbols@, fn_name(f)) is None ==> {
        &&& c1.symbols@.drop_last() == c0.symbols@
        &&& c1.symbols@.last().0@ == fn_name(f)
        &&& c1.symbols@.last().1 matches Symbol::Function(w)
            && w@ == seq![(f.name.unwrap().loc, c0.functions@.len() as usize)]
    })
    &&& ((r && !is_ctor(f) && f.name is Some && lookup(c0.symbols@, fn_name(f)) matches Some(Symbol::Function(_))) ==> {
        let k = symbol_index(c0.symbols@, fn_name(f)).unwrap();
        &&& c1.symbols@.len() == c0.symbols@.len()
        &&& forall|j: int| 0 <= j < c0.symbols@.len() && j != k ==> #[trigger] c1.symbols@[j] == c0.symbols@[j]
        &&& c1.symbols@[k].0@ == fn_name(f)
        &&& c1.symbols@[k].1 matches Symbol::Function(w)
            && w@ == overloads(c0.symbols@, fn_name(f)).push((f.loc, c0.functions@.len() as usize))
    })
    &&& (!r ==> {
        &&& c1.constructors@ == c0.constructors@
        &&& c1.symbols@ == c0.symbols@
        &&& (c1.functions@ == c0.functions@ || (header_ok(f, c0) && f.name is Some
            && !is_ctor(f)
            && !(lookup(c0.symbols@, fn_name(f)) matches Some(Symbol::Function(_)))
            && c1.functions@ == c0.functions@.push(c1.functions@.last())
            && decl_of(c1.functions@.last(), f, i, c0)))
    })
    &&& (!r && !(is_ctor(f) && f.returns@.len() > 0) && !(is_fallback_def(f) && (f.returns@.len() > 0 || f.params@.len() > 0))
        ==> error_added(e0, e1))
    &&& (overloads_distinct(c0) ==> overloads_distinct(c1))
}

/// Resolve a function definition and add it to the contract: as a
/// constructor, as a function or overload under its name, or as the fallback
/// function. Returns whether the declaration was accepted; a refused one adds
/// an error, except where only a warning is given for return values of a
/// constructor or for parameters or return values of the fallback function.
pub fn function_decl(f: &ast::FunctionDefinition, i: usize, ns: &mut Contract, errors: &mut Vec<Output>) -> (r: bool)
    requires
        old(ns).wf(),
    ensures
        function_decl_done(*f, i, *old(ns), *final(ns), old(errors)@, final(errors)@, r),
{
    let ghost c0 = *ns;
    let header = resolve_header(f, ns, errors);
    let (mutability, visibility, params, rets) = match header {
        Some(h) => h,
        None => return false,
    };
    let ghost e1 = errors@;
    let is_constructor = f.ty == FunctionTy::Constructor;
    let (name, fallback) = match &f.name {
        Some(n) => (n.name.clone(), false),
        None => (String::new(), !is_constructor),
    };
    let fdecl = FunctionDecl::new(f.loc, name, f.doc.clone(), fallback, Some(i), mutability, visibility, params, rets, ns);
    proof {
        lemma_def_signature(fdecl.params@, *f, c0);
        assert(decl_of(fdecl, *f, i, c0));
    }
    let ghost d = fdecl;
    if is_constructor {
        add_constructor(fdecl, f, ns, errors)
    } else if let Some(id) = &f.name {
        add_function(fdecl, f, id, ns, errors)
    } else {
        add_fallback(fdecl, f, ns, errors)
    }
}

} // verus!
