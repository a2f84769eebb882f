//! State variables and constants of a contract, and the storage initializer
//! that sets the state variables that have an initial value.
use crate::ast;
use crate::ast::{Loc, Visibility, VariableAttribute};
use crate::output::{Output, Level, ErrorType, is_diag, extends, error_added, join3, push_error, lemma_pushed_error, lemma_extends_trans,
    lemma_error_added_trans};
use super::{Contract, ContractVariable, ContractVariableType, Symbol, Type, TypeV, type_wf, symbol_wf, lookup,
    resolve_type_spec, lemma_wf_vars, lemma_lookup_push, lemma_symbol_index, symbol_index};
use super::cfg::expression_wf;
use super::cfg::{ControlFlowGraph, Vartable, Instr, Storage, state_wf, cfg_wf, instr_wf, emit, set_contract_storage,
    lemma_state_wf_contract, lemma_expression_wf_grow, lemma_table_grew, lemma_progressed_trans};
use super::expression::{expression, expr_ok};
use super::cast::cast;
use vstd::prelude::*;

verus! {

/// The state variable definitions among the parts of a contract.
pub open spec fn var_defs(parts: Seq<ast::ContractPart>) -> Seq<ast::ContractVariableDefinition>
    decreases parts.len(),
{
    if parts.len() == 0 {
        Seq::empty()
    } else {
        var_defs(parts.drop_last()) + match parts.last() {
            ast::ContractPart::ContractVariableDefinition(s) => seq![s],
            _ => Seq::empty(),
        }
    }
}

/// The initializers of the state variables are expressions the resolver
/// takes as they are.
pub open spec fn var_inits_ok(parts: Seq<ast::ContractPart>) -> bool {
    forall|i: int| 0 <= i < parts.len() ==>
        ((#[trigger] parts[i]) matches ast::ContractPart::ContractVariableDefinition(s) ==>
            (s.initializer matches Some(e) ==> expr_ok(e)))
}

/// A variable is constant when some attribute says so.
pub open spec fn is_constant_var(attrs: Seq<VariableAttribute>) -> bool {
    exists|i: int| 0 <= i < attrs.len() && (#[trigger] attrs[i]) is Constant
}

/// The first visibility attribute of a variable.
pub open spec fn first_var_visibility(attrs: Seq<VariableAttribute>) -> Option<Visibility>
    decreases attrs.len(),
{
    if attrs.len() == 0 {
        None
    } else {
        match first_var_visibility(attrs.drop_last()) {
            Some(v) => Some(v),
            None => match attrs.last() {
                VariableAttribute::Visibility(v) => Some(v),
                _ => None,
            },
        }
    }
}

/// The attributes are accepted: no visibility is external, and at most one
/// visibility is given.
pub open spec fn var_attrs_ok(attrs: Seq<VariableAttribute>) -> bool {
    &&& forall|i: int| 0 <= i < attrs.len() ==> !((#[trigger] attrs[i]) matches VariableAttribute::Visibility(Visibility::External(_)))
    &&& forall|i: int, j: int| 0 <= i < j < attrs.len() ==>
        !((#[trigger] attrs[i]) is Visibility && (#[trigger] attrs[j]) is Visibility)
}

/// The visibility of a variable; private where none is given.
pub open spec fn var_visibility(attrs: Seq<VariableAttribute>) -> Visibility {
    match first_var_visibility(attrs) {
        Some(v) => v,
        None => Visibility::Private(Loc(0, 0)),
    }
}

/// The parts of a contract that a state variable declaration changes.
pub open spec fn same_except_vars(c1: Contract, c2: Contract) -> bool {
    &&& c2.name == c1.name
    &&& c2.doc == c1.doc
    &&& c2.enums == c1.enums
    &&& c2.structs == c1.structs
    &&& c2.functions == c1.functions
    &&& c2.constructors == c1.constructors
    &&& c2.target == c1.target
}

/// The variables and constants of `c1` are the first of `c2`.
pub open spec fn vars_grew(c1: Contract, c2: Contract) -> bool {
    &&& c1.variables@.len() <= c2.variables@.len()
    &&& forall|i: int| 0 <= i < c1.variables@.len() ==> #[trigger] c2.variables@[i] == c1.variables@[i]
    &&& c1.constants@.len() <= c2.constants@.len()
    &&& forall|i: int| 0 <= i < c1.constants@.len() ==> #[trigger] c2.constants@[i] == c1.constants@[i]
    &&& c1.top_of_contract_storage <= c2.top_of_contract_storage
}

/// The symbol table of `c1` is the first part of that of `c2`, which adds
/// only variables.
pub open spec fn symbols_grew_vars(c1: Contract, c2: Contract) -> bool {
    &&& c1.symbols@.len() <= c2.symbols@.len()
    &&& forall|i: int| 0 <= i < c1.symbols@.len() ==> #[trigger] c2.symbols@[i] == c1.symbols@[i]
    &&& forall|i: int| c1.symbols@.len() <= i < c2.symbols@.len() ==> (#[trigger] c2.symbols@[i]).1 is Variable
}

/// Is a state variable without initializer refused, in a contract `c` to
/// which the variables `earlier` of the same definition are added before
/// it: its type does not resolve, its attributes are refused, it is a
/// constant (which needs an initializer), or its name is taken in `c` or by
/// an earlier variable.
pub open spec fn var_refused(s: ast::ContractVariableDefinition, c: Contract, earlier: Seq<ast::ContractVariableDefinition>) -> bool {
    ||| resolve_type_spec(c, s.ty) is Err
    ||| !var_attrs_ok(s.attrs@)
    ||| is_constant_var(s.attrs@)
    ||| lookup(c.symbols@, s.name.name@) is Some
    ||| exists|j: int| 0 <= j < earlier.len() && (#[trigger] earlier[j]).name.name@ == s.name.name@
}

/// No state variable of the parts has an initializer.
pub open spec fn no_var_inits(parts: Seq<ast::ContractPart>) -> bool {
    forall|k: int| 0 <= k < parts.len() ==> ((#[trigger] parts[k]) matches ast::ContractPart::ContractVariableDefinition(s)
        ==> s.initializer is None)
}

/// Adding variables to a contract leaves the names it had bound to what they
/// were, and binds new names to variables only, so types resolve as before.
proof fn lemma_resolve_type_grew(c0: Contract, c1: Contract, t: ast::Type)
    requires
        c1.wf(),
        same_except_vars(c0, c1),
        symbols_grew_vars(c0, c1),
    ensures
        resolve_type_spec(c1, t) is Ok <==> resolve_type_spec(c0, t) is Ok,
        forall|n: Seq<char>| #[trigger] lookup(c0.symbols@, n) is Some ==> lookup(c1.symbols@, n) == lookup(c0.symbols@, n),
{
    assert forall|n: Seq<char>| #[trigger] lookup(c0.symbols@, n) is Some implies lookup(c1.symbols@, n) == lookup(c0.symbols@, n) by {
        lemma_symbol_index(c0.symbols@, n);
        lemma_symbol_index(c1.symbols@, n);
        let i = symbol_index(c0.symbols@, n).unwrap();
        assert(c1.symbols@[i] == c0.symbols@[i]);
        let k = symbol_index(c1.symbols@, n).unwrap();
        assert(c1.symbols@[k].0@ == n);
        assert(k == i);
    }
    if let ast::Type::Unresolved(id, _) = t {
        lemma_symbol_index(c0.symbols@, id.name@);
        lemma_symbol_index(c1.symbols@, id.name@);
        if lookup(c0.symbols@, id.name@) is None {
            if let Some(k) = symbol_index(c1.symbols@, id.name@) {
                assert(k >= c0.symbols@.len());
                assert(c1.symbols@[k].1 is Variable);
            }
        }
    }
}

/// The attributes of a variable: constant, and its visibility. An external
/// visibility or a second visibility is an error; a repeated `constant` is a
/// warning.
fn var_attrs(s: &ast::ContractVariableDefinition, errors: &mut Vec<Output>) -> (r: Option<(bool, Visibility)>)
    ensures
        r is Some <==> var_attrs_ok(s.attrs@),
        r matches Some(x) ==> x.0 == is_constant_var(s.attrs@) && x.1 == var_visibility(s.attrs@),
        extends(old(errors)@, final(errors)@),
        r is None ==> error_added(old(errors)@, final(errors)@),
        forall|i: int| old(errors)@.len() <= i < final(errors)@.len() ==> (#[trigger] final(errors)@[i]).level == Level::Warning
            || r is None,
{
    let mut is_constant = false;
    let mut visibility: Option<Visibility> = None;
    let mut k: usize = 0;
    while k < s.attrs.len()
        invariant
            0 <= k <= s.attrs@.len(),
            is_constant == is_constant_var(s.attrs@.take(k as int)),
            visibility == first_var_visibility(s.attrs@.take(k as int)),
            var_attrs_ok(s.attrs@.take(k as int)),
            visibility is None ==> forall|j: int| 0 <= j < k ==> !((#[trigger] s.attrs@[j]) is Visibility),
            extends(old(errors)@, errors@),
            forall|i: int| old(errors)@.len() <= i < errors@.len() ==> (#[trigger] errors@[i]).level == Level::Warning,
        decreases s.attrs@.len() - k,
    {
        let ghost pre = s.attrs@.take(k as int);
        let ghost next = s.attrs@.take(k + 1);
        proof {
            assert(next.drop_last() =~= pre);
            assert forall|j: int| 0 <= j < k implies next[j] == pre[j] && pre[j] == s.attrs@[j] by {}
            assert(next[k as int] == s.attrs@[k as int]);
        }
        match s.attrs[k] {
            VariableAttribute::Constant(loc) => {
                if is_constant {
                    errors.push(Output::warning(loc, String::from_str("duplicate constant attribute")));
                }
                is_constant = true;
                proof {
                    assert(next[k as int] is Constant);
                    assert(is_constant_var(next));
                }
            },
            VariableAttribute::Visibility(Visibility::External(loc)) => {
                let ghost before = errors@;
                push_error(errors, Output::error(loc, String::from_str("variable cannot be declared external")));
                proof {
                    lemma_pushed_error(before, errors@);
                    lemma_error_added_trans(old(errors)@, before, errors@);
                    assert(!var_attrs_ok(s.attrs@.take(k + 1)));
                    lemma_var_attrs_prefix(s.attrs@, k + 1);
                }
                return None;
            },
            VariableAttribute::Visibility(v) => {
                match visibility {
                    Some(e) => {
                        let ghost before = errors@;
                        let msg = join3("variable visibility redeclared `", v.to_string().as_str(), "'");
                        let note = join3("location of previous declaration of `", e.to_string().as_str(), "'");
                        push_error(errors, Output::error_with_note(v.loc(), msg, e.loc(), note));
                        proof {
                            lemma_pushed_error(before, errors@);
                            lemma_error_added_trans(old(errors)@, before, errors@);
                            lemma_first_var_visibility(pre);
                            let j = choose|j: int| 0 <= j < pre.len() && (#[trigger] pre[j]) is Visibility;
                            assert(next[j] is Visibility && next[k as int] is Visibility);
                            assert(!var_attrs_ok(next));
                            lemma_var_attrs_prefix(s.attrs@, k + 1);
                        }
                        return None;
                    },
                    None => {
                        visibility = Some(v);
                    },
                }
            },
        }
        proof {
            if !(s.attrs@[k as int] is Constant) {
                assert(!is_constant_var(pre) ==> !is_constant_var(next)) by {
                    if is_constant_var(next) {
                        let j = choose|j: int| 0 <= j < next.len() && (#[trigger] next[j]) is Constant;
                        assert(pre[j] is Constant);
                    }
                }
                assert(is_constant_var(pre) ==> is_constant_var(next)) by {
                    if is_constant_var(pre) {
                        let j = choose|j: int| 0 <= j < pre.len() && (#[trigger] pre[j]) is Constant;
                        assert(next[j] is Constant);
                    }
                }
            } else {
                assert(is_constant_var(next));
            }
        }
        k += 1;
    }
    assert(s.attrs@.take(s.attrs@.len() as int) =~= s.attrs@);
    let vis = match visibility {
        Some(v) => v,
        None => Visibility::Private(Loc(0, 0)),
    };
    Some((is_constant, vis))
}

/// A visibility attribute is first found exactly when there is one.
proof fn lemma_first_var_visibility(attrs: Seq<VariableAttribute>)
    ensures
        first_var_visibility(attrs) is Some <==> exists|j: int| 0 <= j < attrs.len() && (#[trigger] attrs[j]) is Visibility,
    decreases attrs.len(),
{
    if attrs.len() > 0 {
        let p = attrs.drop_last();
        lemma_first_var_visibility(p);
        if exists|j: int| 0 <= j < p.len() && (#[trigger] p[j]) is Visibility {
            let j = choose|j: int| 0 <= j < p.len() && (#[trigger] p[j]) is Visibility;
            assert(attrs[j] == p[j]);
        }
        if exists|j: int| 0 <= j < attrs.len() && (#[trigger] attrs[j]) is Visibility {
            let j = choose|j: int| 0 <= j < attrs.len() && (#[trigger] attrs[j]) is Visibility;
            if j < attrs.len() - 1 {
                assert(p[j] == attrs[j]);
            }
        }
    }
}

/// Attributes whose prefix is refused are refused.
proof fn lemma_var_attrs_prefix(attrs: Seq<VariableAttribute>, k: int)
    requires
        0 <= k <= attrs.len(),
        !var_attrs_ok(attrs.take(k)),
    ensures
        !var_attrs_ok(attrs),
{
    let p = attrs.take(k);
    if exists|i: int| 0 <= i < p.len() && ((#[trigger] p[i]) matches VariableAttribute::Visibility(Visibility::External(_))) {
        let i = choose|i: int| 0 <= i < p.len() && ((#[trigger] p[i]) matches VariableAttribute::Visibility(Visibility::External(_)));
        assert(attrs[i] == p[i]);
    } else {
        let (i, j) = choose|i: int, j: int| 0 <= i < j < p.len() && ((#[trigger] p[i]) is Visibility && (#[trigger] p[j]) is Visibility);
        assert(attrs[i] == p[i] && attrs[j] == p[j]);
    }
}

/// The symbol table after a new name is declared: the old entries keep
/// referring to what exists, and the names stay distinct.
proof fn lemma_symbols_pushed(c0: Contract, c1: Contract, name: Seq<char>)
    requires
        c0.wf(),
        c1.symbols@.len() == c0.symbols@.len() + 1,
        c1.symbols@.drop_last() == c0.symbols@,
        c1.symbols@.last().0@ == name,
        lookup(c0.symbols@, name) is None,
        symbol_wf(c1.symbols@.last().1, c1),
        c1.enums@.len() >= c0.enums@.len(),
        c1.structs@.len() >= c0.structs@.len(),
        c1.variables@.len() >= c0.variables@.len(),
        c1.functions@.len() >= c0.functions@.len(),
    ensures
        forall|i: int| 0 <= i < c1.symbols@.len() ==> symbol_wf((#[trigger] c1.symbols@[i]).1, c1),
        forall|i: int, j: int| 0 <= i < j < c1.symbols@.len() ==>
            (#[trigger] c1.symbols@[i]).0@ != (#[trigger] c1.symbols@[j]).0@,
{
    lemma_symbol_index(c0.symbols@, name);
    assert forall|i: int| 0 <= i < c1.symbols@.len() implies symbol_wf((#[trigger] c1.symbols@[i]).1, c1) by {
        if i < c0.symbols@.len() {
            assert(c1.symbols@[i] == c0.symbols@[i]);
            assert(symbol_wf(c0.symbols@[i].1, c0));
        }
    }
    assert forall|i: int, j: int| 0 <= i < j < c1.symbols@.len() implies
        (#[trigger] c1.symbols@[i]).0@ != (#[trigger] c1.symbols@[j]).0@ by {
        assert(c1.symbols@[i] == c0.symbols@[i]);
        if j < c0.symbols@.len() {
            assert(c1.symbols@[j] == c0.symbols@[j]);
        }
    }
}

/// Declare a state variable or constant. A constant is evaluated from its
/// initializer, which it must have, and becomes a contract constant; any
/// other variable takes the next storage slot, and its initializer is
/// evaluated into the storage initializer and stored.
fn var_decl(
    s: &ast::ContractVariableDefinition,
    ns: &mut Contract,
    cfg: &mut ControlFlowGraph,
    vartab: &mut Vartable,
    errors: &mut Vec<Output>,
) -> (r: bool)
    requires
        old(ns).wf(),
        state_wf(*old(cfg), *old(vartab), *old(ns)),
        old(ns).top_of_contract_storage < usize::MAX,
        s.initializer matches Some(e) ==> expr_ok(e),
    ensures
        final(ns).wf(),
        same_except_vars(*old(ns), *final(ns)),
        vars_grew(*old(ns), *final(ns)),
        final(ns).variables@.len() <= old(ns).variables@.len() + 1,
        final(ns).top_of_contract_storage <= old(ns).top_of_contract_storage + 1,
        symbols_grew_vars(*old(ns), *final(ns)),
        state_wf(*final(cfg), *final(vartab), *final(ns)),
        extends(old(errors)@, final(errors)@),
        !r ==> error_added(old(errors)@, final(errors)@),
        r ==> {
            let v = final(ns).variables@.last();
            &&& final(ns).variables@.len() == old(ns).variables@.len() + 1
            &&& v.name@ == s.name.name@
            &&& resolve_type_spec(*old(ns), s.ty) == Ok::<TypeV, (Loc, Seq<char>)>(v.ty@)
            &&& v.visibility == var_visibility(s.attrs@)
            &&& v.var == if is_constant_var(s.attrs@) {
                ContractVariableType::Constant(old(ns).constants@.len() as usize)
            } else {
                ContractVariableType::Storage(old(ns).top_of_contract_storage)
            }
            &&& lookup(final(ns).symbols@, s.name.name@) == Some(Symbol::Variable(s.loc, old(ns).variables@.len() as usize))
        },
        resolve_type_spec(*old(ns), s.ty) is Ok && var_attrs_ok(s.attrs@) && is_constant_var(s.attrs@)
            && s.initializer is None ==> {
            &&& !r
            &&& is_diag(final(errors)@.last(), Level::Error, ErrorType::DeclarationError, s.loc, "missing initializer for constant"@)
            &&& final(ns).variables == old(ns).variables
            &&& final(ns).symbols == old(ns).symbols
        },
        s.initializer is None ==> (r <==> resolve_type_spec(*old(ns), s.ty) is Ok && var_attrs_ok(s.attrs@)
            && !is_constant_var(s.attrs@) && lookup(old(ns).symbols@, s.name.name@) is None),
        r ==> final(ns).symbols@ == old(ns).symbols@.push(final(ns).symbols@.last())
            && final(ns).symbols@.last().0@ == s.name.name@ && lookup(old(ns).symbols@, s.name.name@) is None,
{
    let ghost c0 = *ns;
    let ghost e0 = errors@;
    let ty = match ns.resolve_type(&s.ty, errors) {
        Ok(t) => t,
        Err(()) => {
            proof { lemma_pushed_error(e0, errors@); }
            return false;
        },
    };
    let ghost e1 = errors@;
    let (is_constant, visibility) = match var_attrs(s, errors) {
        Some(x) => x,
        None => {
            proof { lemma_error_added_trans(e0, e1, errors@); }
            return false;
        },
    };
    let ghost e2 = errors@;
    proof { lemma_extends_trans(e0, e1, e2); }
    if is_constant {
        let init = match &s.initializer {
            Some(init) => init,
            None => {
                proof { reveal_strlit("missing initializer for constant"); }
                push_error(errors, Output::decl_error(s.loc, String::from_str("missing initializer for constant")));
                proof { lemma_pushed_error(e2, errors@); lemma_error_added_trans(e0, e2, errors@); }
                return false;
            },
        };
        let mut ccfg = ControlFlowGraph::new();
        let mut cvt = Vartable::new();
        let ghost g0 = ccfg;
        let ghost vt0 = cvt;
        let (res, resty) = match expression(init, &mut ccfg, ns, &mut cvt, true, errors) {
            Ok(x) => x,
            Err(()) => {
                proof { lemma_error_added_trans(e0, e2, errors@); }
                return false;
            },
        };
        assert(cvt == vt0);
        assert(expression_wf(res, 0, *ns));
        let ghost e3 = errors@;
        let res = match cast(&s.loc, res, &resty, &ty, false, ns, errors) {
            Ok(x) => x,
            Err(()) => {
                proof { lemma_extends_trans(e0, e2, e3); lemma_error_added_trans(e0, e3, errors@); }
                return false;
            },
        };
        proof { lemma_extends_trans(e0, e2, e3); lemma_extends_trans(e0, e3, errors@); }
        let ghost e4 = errors@;
        let cpos = ns.constants.len();
        ns.constants.push(res);
        let pos = ns.variables.len();
        ns.variables.push(ContractVariable {
            doc: s.doc.clone(),
            name: s.name.name.clone(),
            ty,
            visibility,
            var: ContractVariableType::Constant(cpos),
        });
        let ghost c1 = *ns;
        let ok = super::add_symbol(&mut ns.symbols, &s.name, Symbol::Variable(s.loc, pos), errors);
        proof {
            if ok {
                lemma_symbols_pushed(c0, *ns, s.name.name@);
                lemma_lookup_push(c0.symbols@, ns.symbols@.last(), s.name.name@);
            } else {
                lemma_pushed_error(e4, errors@);
                lemma_error_added_trans(e0, e4, errors@);
                assert forall|i: int| 0 <= i < ns.symbols@.len() implies symbol_wf((#[trigger] ns.symbols@[i]).1, *ns) by {
                    assert(symbol_wf(c0.symbols@[i].1, c0));
                }
            }
            assert(expression_wf(ns.constants@.last(), 0, *ns)) by {
                super::cfg::lemma_expression_wf_decls(res, 0, c0, *ns);
            }
            lemma_wf_vars(c0, *ns);
            lemma_state_wf_contract(*cfg, *vartab, c0, *ns);
        }
        return ok;
    }

    let slot = ns.top_of_contract_storage;
    ns.top_of_contract_storage = slot + 1;
    let pos = ns.variables.len();
    ns.variables.push(ContractVariable {
        doc: s.doc.clone(),
        name: s.name.name.clone(),
        ty,
        visibility,
        var: ContractVariableType::Storage(slot),
    });
    let ok = super::add_symbol(&mut ns.symbols, &s.name, Symbol::Variable(s.loc, pos), errors);
    proof {
        if ok {
            lemma_symbols_pushed(c0, *ns, s.name.name@);
            lemma_lookup_push(c0.symbols@, ns.symbols@.last(), s.name.name@);
        } else {
            lemma_pushed_error(e2, errors@);
            lemma_error_added_trans(e0, e2, errors@);
            assert forall|i: int| 0 <= i < ns.symbols@.len() implies symbol_wf((#[trigger] ns.symbols@[i]).1, *ns) by {
                assert(symbol_wf(c0.symbols@[i].1, c0));
            }
        }
        lemma_wf_vars(c0, *ns);
        lemma_state_wf_contract(*cfg, *vartab, c0, *ns);
    }
    if !ok {
        return false;
    }
    let ghost c2 = *ns;
    let ghost e5 = errors@;
    match &s.initializer {
        None => true,
        Some(init) => {
            let ghost g0 = *cfg;
            let ghost v0 = *vartab;
            let (res, resty) = match expression(init, cfg, ns, vartab, false, errors) {
                Ok(x) => x,
                Err(()) => {
                    proof { lemma_error_added_trans(e0, e5, errors@); }
                    return false;
                },
            };
            let ghost g1 = *cfg;
            let ghost v1 = *vartab;
            let ghost e6 = errors@;
            proof { lemma_extends_trans(e0, e5, e6); }
            let var = match vartab.find(&s.name, ns, errors) {
                Ok(v) => v,
                Err(()) => {
                    proof {
                        lemma_pushed_error(e6, errors@);
                        lemma_error_added_trans(e0, e6, errors@);
                        lemma_table_grew(g1, v1, *vartab, *ns);
                    }
                    return false;
                },
            };
            proof {
                lemma_table_grew(g1, v1, *vartab, *ns);
                vartab.lemma_types_wf_var(*ns, var.pos as int);
                lemma_extends_trans(e0, e6, errors@);
            }
            let ghost e7 = errors@;
            let res = match cast(&s.loc, res, &resty, &var.ty, false, ns, errors) {
                Ok(x) => x,
                Err(()) => {
                    proof { lemma_error_added_trans(e0, e7, errors@); }
                    return false;
                },
            };
            proof {
                lemma_extends_trans(e0, e7, errors@);
                lemma_expression_wf_grow(res, v1.len(), vartab.len(), *ns);
            }
            emit(cfg, vartab, ns, Instr::Assign { res: var.pos, expr: res });
            let ghost e8 = errors@;
            match set_contract_storage(&s.name, &var, cfg, vartab, errors) {
                Ok(()) => true,
                Err(()) => {
                    proof { lemma_pushed_error(e8, errors@); lemma_error_added_trans(e0, e8, errors@); }
                    false
                },
            }
        },
    }
}

/// What declaring the state variables of `def` does; `r` says whether one
/// was refused.
pub open spec fn variables_declared(def: ast::ContractDefinition, c0: Contract, c1: Contract, e0: Seq<Output>, e1: Seq<Output>, r: bool) -> bool {
    &&& c1.wf()
    &&& same_except_vars(c0, c1)
    &&& vars_grew(c0, c1)
    &&& c1.variables@.len() <= c0.variables@.len() + var_defs(def.parts@).len()
    &&& c1.top_of_contract_storage <= c0.top_of_contract_storage + var_defs(def.parts@).len()
    &&& symbols_grew_vars(c0, c1)
    &&& extends(e0, e1)
    &&& (r ==> error_added(e0, e1))
    &&& (!r ==> {
        &&& c1.variables@.len() == c0.variables@.len() + var_defs(def.parts@).len()
        &&& forall|k: int| 0 <= k < var_defs(def.parts@).len() ==>
            (#[trigger] c1.variables@[c0.variables@.len() + k]).name@ == var_defs(def.parts@)[k].name.name@
    })
    &&& cfg_wf(c1.initializer, c1.initializer.vars@.len() as nat, c1)
    &&& (c1.initializer.bb@[c1.initializer.current as int].instr@.last() matches Instr::Return { value }
        && value@.len() == 0)
    &&& (no_var_inits(def.parts@) ==> (r <==> exists|k: int| 0 <= k < var_defs(def.parts@).len()
        && var_refused(#[trigger] var_defs(def.parts@)[k], c0, var_defs(def.parts@).take(k))))
}

/// Declare the state variables and constants of a contract, in order, and
/// build its storage initializer, which ends in a return. Returns whether any
/// declaration was refused.
pub fn contract_variables(def: &ast::ContractDefinition, ns: &mut Contract, errors: &mut Vec<Output>) -> (r: bool)
    requires
        old(ns).wf(),
        old(ns).top_of_contract_storage + def.parts@.len() <= usize::MAX,
        var_inits_ok(def.parts@),
    ensures
        variables_declared(*def, *old(ns), *final(ns), old(errors)@, final(errors)@, r),
{
    let mut broken = false;
    let mut vartab = Vartable::new();
    let mut cfg = ControlFlowGraph::new();
    let ghost c0 = *ns;
    let mut i: usize = 0;
    while i < def.parts.len()
        invariant
            0 <= i <= def.parts@.len(),
            ns.wf(),
            state_wf(cfg, vartab, *ns),
            same_except_vars(c0, *ns),
            vars_grew(c0, *ns),
            symbols_grew_vars(c0, *ns),
            c0.top_of_contract_storage + def.parts@.len() <= usize::MAX,
            var_inits_ok(def.parts@),
            ns.variables@.len() <= c0.variables@.len() + var_defs(def.parts@.take(i as int)).len(),
            ns.top_of_contract_storage <= c0.top_of_contract_storage + var_defs(def.parts@.take(i as int)).len(),
            var_defs(def.parts@.take(i as int)).len() <= i,
            extends(old(errors)@, errors@),
            broken ==> error_added(old(errors)@, errors@),
            !broken ==> {
                &&& ns.variables@.len() == c0.variables@.len() + var_defs(def.parts@.take(i as int)).len()
                &&& forall|k: int| 0 <= k < var_defs(def.parts@.take(i as int)).len() ==>
                    (#[trigger] ns.variables@[c0.variables@.len() + k]).name@ == var_defs(def.parts@.take(i as int))[k].name.name@
            },
            !broken ==> forall|n: Seq<char>| #[trigger] lookup(ns.symbols@, n) is Some <==> (lookup(c0.symbols@, n) is Some
                || exists|j: int| 0 <= j < var_defs(def.parts@.take(i as int)).len()
                    && (#[trigger] var_defs(def.parts@.take(i as int))[j]).name.name@ == n),
            no_var_inits(def.parts@) ==> (broken <==> exists|k: int| 0 <= k < var_defs(def.parts@.take(i as int)).len()
                && var_refused(#[trigger] var_defs(def.parts@.take(i as int))[k], c0, var_defs(def.parts@.take(i as int)).take(k))),
        decreases def.parts@.len() - i,
    {
        let ghost pre = def.parts@.take(i as int);
        let ghost next = def.parts@.take(i + 1);
        let ghost before = errors@;
        let ghost nb = *ns;
        proof {
            assert(next.drop_last() =~= pre);
            assert(next.last() == def.parts@[i as int]);
        }
        match &def.parts[i] {
            ast::ContractPart::ContractVariableDefinition(s) => {
                proof {
                    assert(def.parts@[i as int] matches ast::ContractPart::ContractVariableDefinition(_));
                    assert(var_defs(next) == var_defs(pre).push(*s));
                }
                proof {
                    if no_var_inits(def.parts@) {
                        assert(def.parts@[i as int] matches ast::ContractPart::ContractVariableDefinition(_));
                    }
                    lemma_resolve_type_grew(c0, *ns, s.ty);
                    lemma_symbol_index(c0.symbols@, s.name.name@);
                }
                let ok = var_decl(s, ns, &mut cfg, &mut vartab, errors);
                proof {
                    let dp = var_defs(pre);
                    let dn = var_defs(next);
                    assert forall|k: int| 0 <= k < dp.len() implies #[trigger] dn.take(k) == dp.take(k) && dn[k] == dp[k] by {
                        assert(dn.take(k) =~= dp.take(k));
                    }
                    assert(dn.take(dp.len() as int) =~= dp);
                    if !broken && ok {
                        assert forall|n: Seq<char>| #[trigger] lookup(ns.symbols@, n) is Some <==> (lookup(c0.symbols@, n) is Some
                            || exists|j: int| 0 <= j < dn.len() && (#[trigger] dn[j]).name.name@ == n) by {
                            lemma_symbol_index(nb.symbols@, s.name.name@);
                            lemma_lookup_push(nb.symbols@, ns.symbols@.last(), n);
                            assert(ns.symbols@ =~= nb.symbols@.push(ns.symbols@.last()));
                            if n == s.name.name@ {
                                assert(dn[dp.len() as int].name.name@ == n);
                            }
                            if exists|j: int| 0 <= j < dn.len() && (#[trigger] dn[j]).name.name@ == n {
                                let j = choose|j: int| 0 <= j < dn.len() && (#[trigger] dn[j]).name.name@ == n;
                                if j < dp.len() {
                                    assert(dp[j].name.name@ == n);
                                }
                            }
                        }
                    }
                    if no_var_inits(def.parts@) {
                        if !broken {
                            if exists|j: int| 0 <= j < dp.len() && (#[trigger] dp[j]).name.name@ == s.name.name@ {
                                assert(lookup(nb.symbols@, s.name.name@) is Some);
                            }
                            assert(!ok <==> var_refused(*s, c0, dp));
                            assert(dn[dp.len() as int] == *s);
                        }
                        if broken {
                            let k = choose|k: int| 0 <= k < dp.len() && var_refused(#[trigger] dp[k], c0, dp.take(k));
                            assert(var_refused(dn[k], c0, dn.take(k)));
                        }
                        if !ok && !broken {
                            assert(var_refused(dn[dp.len() as int], c0, dn.take(dp.len() as int)));
                        }
                    }
                    lemma_extends_trans(old(errors)@, before, errors@);
                    if !ok {
                        lemma_error_added_trans(old(errors)@, before, errors@);
                    }
                    if broken {
                        lemma_error_added_trans(old(errors)@, before, errors@);
                    }
                    if !broken && ok {
                        assert forall|k: int| 0 <= k < var_defs(next).len() implies
                            (#[trigger] ns.variables@[c0.variables@.len() + k]).name@ == var_defs(next)[k].name.name@ by {
                            if k < var_defs(pre).len() {
                                assert(ns.variables@[c0.variables@.len() + k] == nb.variables@[c0.variables@.len() + k]);
                            }
                        }
                    }
                }
                if !ok {
                    broken = true;
                }
            },
            _ => {
                proof {
                    assert(var_defs(next) =~= var_defs(pre));
                }
            },
        }
        i += 1;
    }
    assert(def.parts@.take(def.parts@.len() as int) =~= def.parts@);
    let ret = Instr::Return { value: Vec::new() };
    assert(instr_wf(ret, vartab.len(), cfg.bb@.len(), *ns));
    emit(&mut cfg, &mut vartab, ns, ret);
    let ghost cb = *ns;
    let ghost gb = cfg;
    let ghost vb = vartab;
    cfg.vars = vartab.drain();
    ns.initializer = cfg;
    proof {
        assert forall|k: int| 0 <= k < ns.symbols@.len() implies symbol_wf((#[trigger] ns.symbols@[k]).1, *ns) by {
            assert(symbol_wf(cb.symbols@[k].1, cb));
        }
        lemma_wf_vars(cb, *ns);
        lemma_state_wf_contract(gb, vb, cb, *ns);
    }
    broken
}

} // verus!
