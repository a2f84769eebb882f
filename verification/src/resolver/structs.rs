//! Struct declarations.
use crate::ast;
use crate::ast::Loc;
use crate::output::{Output, Level, extends, error_added, join3, join5, push_error, lemma_pushed_error,
    lemma_extends_trans, lemma_error_added_trans};
use super::{Contract, StructDecl, StructField, Symbol, TypeV, type_wf, symbol_wf, lookup, resolve_type_spec,
    lemma_wf_structs, lemma_lookup_push, lemma_symbol_index};
use vstd::prelude::*;

verus! {

/// The fields of a struct as declared: those whose type resolves, each with
/// its name, place and type, where its name is not taken by an earlier one.
pub open spec fn kept_fields(fs: Seq<ast::VariableDeclaration>, c: Contract) -> Seq<(Seq<char>, Loc, TypeV)>
    decreases fs.len(),
{
    if fs.len() == 0 {
        Seq::empty()
    } else {
        let prev = kept_fields(fs.drop_last(), c);
        let f = fs.last();
        match resolve_type_spec(c, f.typ) {
            Err(_) => prev,
            Ok(t) => if exists|k: int| 0 <= k < prev.len() && (#[trigger] prev[k]).0 == f.name.name@ {
                prev
            } else {
                prev.push((f.name.name@, f.name.loc, t))
            },
        }
    }
}

/// The number of fields refused: each whose type does not resolve, whose
/// name an earlier kept field has, or that has a storage location.
pub open spec fn bad_fields(fs: Seq<ast::VariableDeclaration>, c: Contract) -> nat
    decreases fs.len(),
{
    if fs.len() == 0 {
        0
    } else {
        let prev = kept_fields(fs.drop_last(), c);
        let f = fs.last();
        bad_fields(fs.drop_last(), c) + match resolve_type_spec(c, f.typ) {
            Err(_) => 1nat,
            Ok(_) => if exists|k: int| 0 <= k < prev.len() && (#[trigger] prev[k]).0 == f.name.name@ {
                1nat
            } else if f.storage is Some {
                1nat
            } else {
                0nat
            },
        }
    }
}

/// The fields of a declaration, as mathematical values.
pub open spec fn fields_view(fs: Seq<StructField>) -> Seq<(Seq<char>, Loc, TypeV)> {
    fs.map_values(|f: StructField| (f.name@, f.loc, f.ty@))
}

/// The struct is accepted: every field type resolves, no field name is
/// repeated, no field has a storage location, and there is a field.
pub open spec fn struct_ok(def: ast::StructDefinition, c: Contract) -> bool {
    &&& forall|i: int| 0 <= i < def.fields@.len() ==> resolve_type_spec(c, (#[trigger] def.fields@[i]).typ) is Ok
    &&& kept_fields(def.fields@, c).len() == def.fields@.len()
    &&& forall|i: int| 0 <= i < def.fields@.len() ==> (#[trigger] def.fields@[i]).storage is None
    &&& def.fields@.len() > 0
}

/// The kept fields are no more than the fields.
proof fn lemma_kept_len(fs: Seq<ast::VariableDeclaration>, c: Contract)
    ensures
        kept_fields(fs, c).len() <= fs.len(),
    decreases fs.len(),
{
    if fs.len() > 0 {
        lemma_kept_len(fs.drop_last(), c);
    }
}

/// When all fields of a list are kept, so are all fields of its prefixes.
proof fn lemma_kept_prefix(fs: Seq<ast::VariableDeclaration>, c: Contract, k: int)
    requires
        0 <= k <= fs.len(),
        kept_fields(fs, c).len() == fs.len(),
    ensures
        kept_fields(fs.take(k), c).len() == k,
    decreases fs.len(),
{
    if k < fs.len() {
        lemma_kept_len(fs.drop_last(), c);
        assert(kept_fields(fs.drop_last(), c).len() == fs.len() - 1);
        assert(fs.drop_last().take(k) =~= fs.take(k));
        lemma_kept_prefix(fs.drop_last(), c, k);
    } else {
        assert(fs.take(k) =~= fs);
    }
}

/// Does the field list name no field twice?
pub open spec fn distinct_fields(fs: Seq<ast::VariableDeclaration>) -> bool {
    forall|i: int, j: int| 0 <= i < j < fs.len() ==> (#[trigger] fs[i]).name.name@ != (#[trigger] fs[j]).name.name@
}

/// Where every field type resolves, every field is kept exactly where no
/// field name is repeated, and then the kept fields carry the names in order.
pub proof fn lemma_kept_all(fs: Seq<ast::VariableDeclaration>, c: Contract)
    requires
        forall|i: int| 0 <= i < fs.len() ==> resolve_type_spec(c, (#[trigger] fs[i]).typ) is Ok,
    ensures
        (kept_fields(fs, c).len() == fs.len()) == distinct_fields(fs),
        distinct_fields(fs) ==> forall|i: int| 0 <= i < fs.len() ==> (#[trigger] kept_fields(fs, c)[i]).0 == fs[i].name.name@,
    decreases fs.len(),
{
    if fs.len() > 0 {
        let pre = fs.drop_last();
        assert forall|i: int| 0 <= i < pre.len() implies resolve_type_spec(c, (#[trigger] pre[i]).typ) is Ok by {
            assert(pre[i] == fs[i]);
        }
        lemma_kept_all(pre, c);
        lemma_kept_len(pre, c);
        assert(resolve_type_spec(c, fs[fs.len() - 1].typ) is Ok);
        let kp = kept_fields(pre, c);
        if distinct_fields(pre) {
            if distinct_fields(fs) {
                assert forall|k: int| 0 <= k < kp.len() implies (#[trigger] kp[k]).0 != fs.last().name.name@ by {
                    assert(kp[k].0 == pre[k].name.name@);
                    assert(pre[k] == fs[k]);
                }
            } else {
                let (i, j) = choose|i: int, j: int| 0 <= i < j < fs.len() && (#[trigger] fs[i]).name.name@ == (#[trigger] fs[j]).name.name@;
                if j < fs.len() - 1 {
                    assert(pre[i] == fs[i] && pre[j] == fs[j]);
                } else {
                    assert(kp[i].0 == pre[i].name.name@);
                    assert(pre[i] == fs[i]);
                }
            }
        } else {
            let (i, j) = choose|i: int, j: int| 0 <= i < j < pre.len() && (#[trigger] pre[i]).name.name@ == (#[trigger] pre[j]).name.name@;
            assert(fs[i] == pre[i] && fs[j] == pre[j]);
        }
    }
}

/// Resolve a struct definition and add it to the contract; its name is then
/// declared, which fails where the name is taken. A field whose type does not
/// resolve, a repeated field name, a storage location on a field, or a struct
/// without fields is an error, one for each such field: the result is false, but the struct is still
/// added with the fields that resolved, so that the rest of the contract can
/// be checked.
pub fn struct_decl(def: &ast::StructDefinition, ns: &mut Contract, errors: &mut Vec<Output>) -> (r: bool)
    requires
        old(ns).wf(),
    ensures
        final(ns).wf(),
        r == (struct_ok(*def, *old(ns)) && lookup(old(ns).symbols@, def.name.name@) is None),
        final(ns).structs@.len() == old(ns).structs@.len() + 1,
        final(ns).structs@.drop_last() == old(ns).structs@,
        final(ns).structs@.last().name@ == def.name.name@,
        fields_view(final(ns).structs@.last().fields@) == kept_fields(def.fields@, *old(ns)),
        lookup(old(ns).symbols@, def.name.name@) is None ==> {
            &&& final(ns).symbols@.len() == old(ns).symbols@.len() + 1
            &&& final(ns).symbols@.drop_last() == old(ns).symbols@
            &&& final(ns).symbols@.last().0@ == def.name.name@
            &&& final(ns).symbols@.last().1 == Symbol::Struct(def.name.loc, old(ns).structs@.len() as usize)
        },
        lookup(old(ns).symbols@, def.name.name@) is Some ==> final(ns).symbols@ == old(ns).symbols@,
        final(ns).enums == old(ns).enums,
        final(ns).functions == old(ns).functions,
        final(ns).constructors == old(ns).constructors,
        final(ns).variables == old(ns).variables,
        final(ns).constants == old(ns).constants,
        final(ns).name == old(ns).name,
        final(ns).target == old(ns).target,
        final(ns).top_of_contract_storage == old(ns).top_of_contract_storage,
        final(ns).doc == old(ns).doc,
        final(ns).initializer == old(ns).initializer,
        extends(old(errors)@, final(errors)@),
        !r ==> error_added(old(errors)@, final(errors)@),
        final(errors)@.len() == old(errors)@.len() + bad_fields(def.fields@, *old(ns))
            + (if def.fields@.len() == 0 { 1int } else { 0int })
            + (if lookup(old(ns).symbols@, def.name.name@) is Some { 1int } else { 0int }),
        forall|i: int| old(errors)@.len() <= i < final(errors)@.len() ==> (#[trigger] final(errors)@[i]).level == Level::Error,
{
    let ghost c0 = *ns;
    let mut valid = true;
    let mut fields: Vec<StructField> = Vec::new();
    let mut i: usize = 0;
    while i < def.fields.len()
        invariant
            0 <= i <= def.fields@.len(),
            *ns == c0,
            c0.wf(),
            fields_view(fields@) == kept_fields(def.fields@.take(i as int), c0),
            forall|k: int| 0 <= k < fields@.len() ==>
                type_wf((#[trigger] fields@[k]).ty, c0.enums@.len(), c0.structs@.len()),
            valid == ((forall|j: int| 0 <= j < i ==> resolve_type_spec(c0, (#[trigger] def.fields@[j]).typ) is Ok)
                && kept_fields(def.fields@.take(i as int), c0).len() == i
                && (forall|j: int| 0 <= j < i ==> (#[trigger] def.fields@[j]).storage is None)),
            extends(old(errors)@, errors@),
            !valid ==> error_added(old(errors)@, errors@),
            valid ==> errors@ == old(errors)@,
            errors@.len() == old(errors)@.len() + bad_fields(def.fields@.take(i as int), c0),
            forall|j: int| old(errors)@.len() <= j < errors@.len() ==> (#[trigger] errors@[j]).level == Level::Error,
        decreases def.fields@.len() - i,
    {
        let ghost pre = def.fields@.take(i as int);
        let ghost next = def.fields@.take(i + 1);
        let ghost before = errors@;
        let ghost kp = kept_fields(pre, c0);
        proof {
            assert(next.drop_last() =~= pre);
            assert(next.last() == def.fields@[i as int]);
            lemma_kept_len(pre, c0);
        }
        let field = &def.fields[i];
        let mut item_ok = true;
        match ns.resolve_type(&field.typ, errors) {
            Err(()) => {
                proof {
                    lemma_pushed_error(before, errors@);
                    lemma_error_added_trans(old(errors)@, before, errors@);
                    assert(kept_fields(next, c0) == kp);
                }
                item_ok = false;
            },
            Ok(ty) => {
                let mut k: usize = 0;
                let mut other: Option<usize> = None;
                while k < fields.len()
                    invariant
                        0 <= k <= fields@.len(),
                        other matches Some(o) ==> o < fields@.len() && fields@[o as int].name@ == field.name.name@,
                        other is None ==> forall|j: int| 0 <= j < k ==> (#[trigger] fields@[j]).name@ != field.name.name@,
                    decreases fields@.len() - k,
                {
                    if other.is_none() && fields[k].name == field.name.name {
                        other = Some(k);
                    }
                    k += 1;
                }
                match other {
                    Some(o) => {
                        let msg = join5("struct ‘", def.name.name.as_str(), "’ has duplicate struct field ‘",
                            field.name.name.as_str(), "’");
                        let note = join3("location of previous declaration of ‘", fields[o].name.as_str(), "’");
                        push_error(errors, Output::error_with_note(field.name.loc, msg, fields[o].loc, note));
                        proof {
                            lemma_pushed_error(before, errors@);
                            lemma_error_added_trans(old(errors)@, before, errors@);
                            assert(kp[o as int].0 == field.name.name@);
                            assert(kept_fields(next, c0) == kp);
                        }
                        item_ok = false;
                    },
                    None => {
                        proof {
                            assert(!exists|j: int| 0 <= j < kp.len() && (#[trigger] kp[j]).0 == field.name.name@) by {
                                assert forall|j: int| 0 <= j < kp.len() implies (#[trigger] kp[j]).0 != field.name.name@ by {
                                    assert(fields@[j].name@ != field.name.name@);
                                }
                            }
                        }
                        match &field.storage {
                            Some(storage) => {
                                let msg = join3("storage location ‘", storage.to_string().as_str(), "’ not allowed for struct field");
                                push_error(errors, Output::error(storage.loc(), msg));
                                proof {
                                    lemma_pushed_error(before, errors@);
                                    lemma_error_added_trans(old(errors)@, before, errors@);
                                }
                                item_ok = false;
                            },
                            None => {},
                        }
                        let ghost fv = fields_view(fields@);
                        fields.push(StructField { loc: field.name.loc, name: field.name.name.clone(), ty });
                        proof {
                            assert(fields_view(fields@) =~= fv.push((field.name.name@, field.name.loc, ty@)));
                        }
                    },
                }
            },
        }
        let ghost all_ok_next = (forall|j: int| 0 <= j < i + 1 ==> resolve_type_spec(c0, (#[trigger] def.fields@[j]).typ) is Ok)
            && kept_fields(next, c0).len() == i + 1
            && (forall|j: int| 0 <= j < i + 1 ==> (#[trigger] def.fields@[j]).storage is None);
        proof {
            lemma_extends_trans(old(errors)@, before, errors@);
            lemma_kept_len(pre, c0);
            lemma_kept_len(next, c0);
            if valid && item_ok {
                assert(all_ok_next);
            } else {
                if !item_ok {
                    if kept_fields(next, c0).len() == i + 1 && (forall|j: int| 0 <= j < i + 1 ==> resolve_type_spec(c0, (#[trigger] def.fields@[j]).typ) is Ok) {
                        assert(resolve_type_spec(c0, def.fields@[i as int].typ) is Ok);
                        assert(def.fields@[i as int].storage is Some);
                    }
                } else {
                    if kept_fields(pre, c0).len() != i {
                        assert(kept_fields(next, c0).len() < i + 1);
                    } else if !(forall|j: int| 0 <= j < i ==> resolve_type_spec(c0, (#[trigger] def.fields@[j]).typ) is Ok) {
                        let j = choose|j: int| 0 <= j < i && !(resolve_type_spec(c0, (#[trigger] def.fields@[j]).typ) is Ok);
                        assert(!(resolve_type_spec(c0, def.fields@[j].typ) is Ok));
                    } else {
                        let j = choose|j: int| 0 <= j < i && !((#[trigger] def.fields@[j]).storage is None);
                        assert(!(def.fields@[j].storage is None));
                    }
                }
                assert(!all_ok_next);
            }
        }
        valid = valid && item_ok;
        i += 1;
    }
    assert(def.fields@.take(def.fields@.len() as int) =~= def.fields@);
    if fields.len() == 0 {
        if valid {
            let msg = join3("struct definition for ‘", def.name.name.as_str(), "’ has no fields");
            push_error(errors, Output::error(def.name.loc, msg));
            proof { lemma_pushed_error(old(errors)@, errors@); }
        }
        valid = false;
    }
    proof {
        if struct_ok(*def, c0) {
            assert(valid);
        }
    }
    proof {
        if !struct_ok(*def, c0) {
            lemma_kept_len(def.fields@, c0);
        }
    }
    {
        let pos = ns.structs.len();
        ns.structs.push(StructDecl { name: def.name.name.clone(), fields });
        let ghost c1 = *ns;
        let ghost e1 = errors@;
        let ok = super::add_symbol(&mut ns.symbols, &def.name, Symbol::Struct(def.name.loc, pos), errors);
        proof {
            lemma_symbol_index(c0.symbols@, def.name.name@);
            if ok {
                assert forall|m: int| 0 <= m < ns.symbols@.len() implies symbol_wf((#[trigger] ns.symbols@[m]).1, *ns) by {
                    if m < c0.symbols@.len() {
                        assert(ns.symbols@[m] == c0.symbols@[m]);
                        assert(symbol_wf(c0.symbols@[m].1, c0));
                    }
                }
                assert forall|a: int, b: int| 0 <= a < b < ns.symbols@.len() implies
                    (#[trigger] ns.symbols@[a]).0@ != (#[trigger] ns.symbols@[b]).0@ by {
                    assert(ns.symbols@[a] == c0.symbols@[a]);
                    if b < c0.symbols@.len() {
                        assert(ns.symbols@[b] == c0.symbols@[b]);
                    }
                }
            } else {
                lemma_pushed_error(e1, errors@);
                assert forall|m: int| 0 <= m < ns.symbols@.len() implies symbol_wf((#[trigger] ns.symbols@[m]).1, *ns) by {
                    assert(symbol_wf(c0.symbols@[m].1, c0));
                }
            }
            lemma_wf_structs(c0, *ns);
            if !valid && !ok {
                lemma_error_added_trans(old(errors)@, e1, errors@);
            }
        }
        valid && ok
    }
}

} // verus!
