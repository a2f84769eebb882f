//! A lighter contract name space, of enums and function signatures only,
//! with types that are either elementary or an enum.
use crate::ast::{self, Loc, PrimitiveType, primitive_name, is_fixed_width, primitive_bits};
use crate::output::{Output, Note, Level, ErrorType, is_diag, extends, joined, join2, join3, push_error};
use crate::resolver::{symbol_index, lookup, find_in_symbols, lemma_symbol_index};
pub use crate::resolver::{EnumDecl, enum_decl};
use vstd::prelude::*;

verus! {

/// A resolved type: an elementary type, or the enum with this index.
#[derive(PartialEq, Eq, Structural, Clone, Copy, Debug)]
pub enum TypeName {
    Elementary(PrimitiveType),
    Enum(usize),
}

/// How a type is written in messages.
pub open spec fn typename_text(t: TypeName, ns: ContractNameSpace) -> Seq<char> {
    match t {
        TypeName::Elementary(e) => primitive_name(e),
        TypeName::Enum(n) => "enum "@ + ns.enums@[n as int].name@,
    }
}

/// How a type is written in an external signature: an enum by the integer
/// type that holds it.
pub open spec fn typename_sig(t: TypeName, ns: ContractNameSpace) -> Seq<char> {
    match t {
        TypeName::Elementary(e) => primitive_name(e),
        TypeName::Enum(n) => primitive_name(ns.enums@[n as int].ty),
    }
}

/// A type refers only to enums that exist.
pub open spec fn typename_wf(t: TypeName, n_enums: nat) -> bool {
    t matches TypeName::Enum(n) ==> n < n_enums
}

impl TypeName {
    /// The type as it is written in messages.
    pub fn to_string(&self, ns: &ContractNameSpace) -> (r: String)
        requires
            typename_wf(*self, ns.enums@.len()),
        ensures
            r@ == typename_text(*self, *ns),
    {
        match self {
            TypeName::Elementary(e) => e.to_string(),
            TypeName::Enum(n) => {
                proof { reveal_strlit("enum "); }
                join2("enum ", ns.enums[*n].name.as_str())
            }
        }
    }

    /// Width in bits of an elementary type of fixed width; other types have none.
    pub fn bits(&self) -> (r: u16)
        requires
            *self matches TypeName::Elementary(e) && is_fixed_width(e),
        ensures
            *self matches TypeName::Elementary(e) && r == primitive_bits(e),
    {
        match self {
            TypeName::Elementary(e) => e.bits(),
            TypeName::Enum(_) => 0,
        }
    }

    /// Is this a signed integer type? An enum is not.
    pub fn signed(&self) -> (r: bool)
        ensures
            r == (*self matches TypeName::Elementary(e) && e is Int),
    {
        match self {
            TypeName::Elementary(e) => e.signed(),
            TypeName::Enum(_) => false,
        }
    }

    /// Can values of this type be compared with `<`? An enum cannot.
    pub fn ordered(&self) -> (r: bool)
        ensures
            r == (*self matches TypeName::Elementary(e) && (e is Int || e is Uint)),
    {
        match self {
            TypeName::Elementary(e) => e.ordered(),
            TypeName::Enum(_) => false,
        }
    }

    /// The type `bool`.
    pub fn new_bool() -> (r: TypeName)
        ensures
            r == TypeName::Elementary(PrimitiveType::Bool),
    {
        TypeName::Elementary(PrimitiveType::Bool)
    }
}

/// A resolved function signature; a function without a name is the fallback
/// function.
#[derive(Debug)]
pub struct FunctionDecl {
    pub loc: Loc,
    pub name: Option<String>,
    pub sig: String,
    pub ast_index: usize,
    pub params: Vec<TypeName>,
    pub returns: Vec<TypeName>,
}

/// What a name in the contract refers to.
#[derive(Debug)]
pub enum Symbol {
    Enum(Loc, usize),
    Function(Vec<(Loc, usize)>),
}

/// The enums and functions of a contract, and the names they are declared
/// under.
#[derive(Debug)]
pub struct ContractNameSpace {
    pub name: String,
    pub enums: Vec<EnumDecl>,
    pub functions: Vec<FunctionDecl>,
    pub symbols: Vec<(String, Symbol)>,
}

/// All the types of a list refer to enums that exist.
pub open spec fn typenames_wf(ts: Seq<TypeName>, n_enums: nat) -> bool {
    forall|i: int| 0 <= i < ts.len() ==> typename_wf(#[trigger] ts[i], n_enums)
}

/// A symbol refers to a declaration that exists.
pub open spec fn ns_symbol_wf(s: Symbol, ns: ContractNameSpace) -> bool {
    match s {
        Symbol::Enum(_, n) => n < ns.enums@.len(),
        Symbol::Function(v) => forall|i: int| 0 <= i < v@.len() ==> (#[trigger] v@[i]).1 < ns.functions@.len(),
    }
}

impl ContractNameSpace {
    /// Everything the name space refers to exists, enums are held by unsigned
    /// integers, and no name is declared twice.
    pub open spec fn wf(&self) -> bool {
        &&& forall|n: int| 0 <= n < self.enums@.len() ==> (#[trigger] self.enums@[n]).ty is Uint
        &&& forall|i: int| 0 <= i < self.functions@.len() ==> {
            &&& typenames_wf((#[trigger] self.functions@[i]).params@, self.enums@.len())
            &&& typenames_wf(self.functions@[i].returns@, self.enums@.len())
        }
        &&& forall|i: int| 0 <= i < self.symbols@.len() ==> ns_symbol_wf((#[trigger] self.symbols@[i]).1, *self)
        &&& forall|i: int, j: int| 0 <= i < j < self.symbols@.len() ==>
            (#[trigger] self.symbols@[i]).0@ != (#[trigger] self.symbols@[j]).0@
    }
}

/// The end of the message that says what a name is already defined as.
pub open spec fn ns_defined_text(s: Symbol) -> Seq<char> {
    match s {
        Symbol::Enum(_, _) => " is already defined as enum"@,
        Symbol::Function(_) => " is already defined as function"@,
    }
}

/// The message of a refused type name.
pub open spec fn unresolved_text(s: Option<Symbol>, name: Seq<char>) -> Seq<char> {
    "`"@ + name + match s {
        None => "' is not declared"@,
        _ => "' is a function"@,
    }
}

/// The type a parse tree type resolves to in a name space, or `None`.
pub open spec fn resolve_spec(ns: ContractNameSpace, t: ast::Type) -> Option<TypeName> {
    match t {
        ast::Type::Primitive(e, _) => Some(TypeName::Elementary(e)),
        ast::Type::Unresolved(s, _) => match lookup(ns.symbols@, s.name@) {
            Some(Symbol::Enum(_, n)) => Some(TypeName::Enum(n)),
            _ => None,
        },
    }
}

/// A type without array dimensions, the only kind this name space has.
pub open spec fn is_plain(t: ast::Type) -> bool {
    match t {
        ast::Type::Primitive(_, d) => d@.len() == 0,
        ast::Type::Unresolved(_, d) => d@.len() == 0,
    }
}

impl ContractNameSpace {
    /// Declare a name. A name that is already declared is an error that points
    /// at the earlier declaration, and the symbol table stays as it was.
    pub fn add_symbol(&mut self, id: &ast::Identifier, symbol: Symbol, errors: &mut Vec<Output>)
        ensures
            final(self).name == old(self).name,
            final(self).enums == old(self).enums,
            final(self).functions == old(self).functions,
            lookup(old(self).symbols@, id.name@) is None ==> {
                &&& final(self).symbols@ == old(self).symbols@.push(final(self).symbols@.last())
                &&& final(self).symbols@.last().0@ == id.name@
                &&& final(self).symbols@.last().1 == symbol
                &&& final(errors)@ == old(errors)@
            },
            lookup(old(self).symbols@, id.name@) is Some ==> {
                &&& final(self).symbols@ == old(self).symbols@
                &&& final(errors)@ == old(errors)@.push(final(errors)@.last())
                &&& final(errors)@.last().level == Level::Error
                &&& final(errors)@.last().pos == id.loc
                &&& final(errors)@.last().message@ == id.name@ + ns_defined_text(lookup(old(self).symbols@, id.name@).unwrap())
            },
    {
        match find_in_symbols(&self.symbols, &id.name) {
            Some(k) => {
                let o = match &self.symbols[k].1 {
                    Symbol::Enum(e, _) => Output::error_with_note(
                        id.loc,
                        join2(id.name.as_str(), " is already defined as enum"),
                        *e,
                        String::from_str("location of previous definition"),
                    ),
                    Symbol::Function(v) => {
                        let mut notes: Vec<Note> = Vec::new();
                        let mut j: usize = 0;
                        while j < v.len()
                            invariant
                                0 <= j <= v@.len(),
                            decreases v@.len() - j,
                        {
                            notes.push(Note { pos: v[j].0, message: String::from_str("location of previous definition") });
                            j += 1;
                        }
                        Output::error_with_notes(id.loc, join2(id.name.as_str(), " is already defined as function"), notes)
                    },
                };
                errors.push(o);
                proof { reveal_strlit(" is already defined as enum"); reveal_strlit(" is already defined as function"); }
            },
            None => {
                self.symbols.push((id.name.clone(), symbol));
            },
        }
    }

    /// Resolve a parse tree type: an elementary type, or the name of an enum.
    /// Any other name is an error.
    pub fn resolve(&self, id: &ast::Type, errors: &mut Vec<Output>) -> (r: Option<TypeName>)
        requires
            is_plain(*id),
        ensures
            r == resolve_spec(*self, *id),
            r is Some ==> final(errors)@ == old(errors)@,
            r is None ==> (id matches ast::Type::Unresolved(s, _) && final(errors)@ == old(errors)@.push(final(errors)@.last())
                && is_diag(final(errors)@.last(), Level::Error, ErrorType::SyntaxError, s.loc,
                    unresolved_text(lookup(self.symbols@, s.name@), s.name@))),
    {
        match id {
            ast::Type::Primitive(e, _) => Some(TypeName::Elementary(*e)),
            ast::Type::Unresolved(s, _) => {
                match find_in_symbols(&self.symbols, &s.name) {
                    None => {
                        proof { reveal_strlit("`"); reveal_strlit("' is not declared"); }
                        errors.push(Output::error(s.loc, join3("`", s.name.as_str(), "' is not declared")));
                        None
                    },
                    Some(k) => match &self.symbols[k].1 {
                        Symbol::Enum(_, n) => Some(TypeName::Enum(*n)),
                        Symbol::Function(_) => {
                            proof { reveal_strlit("`"); reveal_strlit("' is a function"); }
                            errors.push(Output::error(s.loc, join3("`", s.name.as_str(), "' is a function")));
                            None
                        },
                    },
                }
            },
        }
    }

    /// Warn when a declaration hides an enum or a function of the contract.
    pub fn check_shadowing(&self, id: &ast::Identifier, errors: &mut Vec<Output>)
        ensures
            match lookup(self.symbols@, id.name@) {
                None => final(errors)@ == old(errors)@,
                Some(s) => final(errors)@ == old(errors)@.push(final(errors)@.last())
                    && is_diag(final(errors)@.last(), Level::Warning, ErrorType::Warning, id.loc,
                        "declaration of `"@ + id.name@ + match s {
                            Symbol::Enum(_, _) => "' shadows enum"@,
                            Symbol::Function(_) => "' shadows function"@,
                        }),
            },
    {
        match find_in_symbols(&self.symbols, &id.name) {
            None => {},
            Some(k) => match &self.symbols[k].1 {
                Symbol::Enum(_, _) => {
                    proof { reveal_strlit("declaration of `"); reveal_strlit("' shadows enum"); }
                    errors.push(Output::warning(id.loc, join3("declaration of `", id.name.as_str(), "' shadows enum")));
                },
                Symbol::Function(_) => {
                    proof { reveal_strlit("declaration of `"); reveal_strlit("' shadows function"); }
                    errors.push(Output::warning(id.loc, join3("declaration of `", id.name.as_str(), "' shadows function")));
                },
            },
        }
    }

    /// The first function without a name, if there is one.
    pub fn fallback_function(&self) -> (r: Option<usize>)
        ensures
            r matches Some(i) ==> i < self.functions@.len() && self.functions@[i as int].name is None
                && forall|j: int| 0 <= j < i ==> (#[trigger] self.functions@[j]).name is Some,
            r is None ==> forall|j: int| 0 <= j < self.functions@.len() ==> (#[trigger] self.functions@[j]).name is Some,
    {
        let mut i: usize = 0;
        while i < self.functions.len()
            invariant
                0 <= i <= self.functions@.len(),
                forall|j: int| 0 <= j < i ==> (#[trigger] self.functions@[j]).name is Some,
            decreases self.functions@.len() - i,
        {
            if self.functions[i].name.is_none() {
                return Some(i);
            }
            i += 1;
        }
        None
    }
}

/// The header line of each function: `# function name` or `# constructor`.
pub open spec fn ns_text(fs: Seq<FunctionDecl>) -> Seq<char>
    decreases fs.len(),
{
    if fs.len() == 0 {
        Seq::empty()
    } else {
        ns_text(fs.drop_last()) + match fs.last().name {
            Some(n) => "# function "@ + n@ + "\n"@,
            None => "# constructor\n"@,
        }
    }
}

impl ContractNameSpace {
    /// The functions of the name space, one header line each.
    pub fn to_string(&self) -> (r: String)
        ensures
            r@ == ns_text(self.functions@),
    {
        let mut s = String::new();
        let mut i: usize = 0;
        while i < self.functions.len()
            invariant
                0 <= i <= self.functions@.len(),
                s@ == ns_text(self.functions@.take(i as int)),
            decreases self.functions@.len() - i,
        {
            proof {
                assert(self.functions@.take(i + 1).drop_last() =~= self.functions@.take(i as int));
                reveal_strlit("# function ");
                reveal_strlit("\n");
                reveal_strlit("# constructor\n");
            }
            match &self.functions[i].name {
                Some(n) => {
                    s.append("# function ");
                    s.append(n.as_str());
                    s.append("\n");
                },
                None => {
                    s.append("# constructor\n");
                },
            }
            i += 1;
        }
        assert(self.functions@.take(self.functions@.len() as int) =~= self.functions@);
        s
    }
}

/// The texts of the parameter types of a signature.
pub open spec fn sig_parts(params: Seq<TypeName>, ns: ContractNameSpace) -> Seq<Seq<char>> {
    params.map_values(|p: TypeName| typename_sig(p, ns))
}

/// `name(t1,t2,...)`, where an enum is written as the integer type that holds
/// it; the fallback function has an empty name.
pub open spec fn external_signature_text(name: Option<String>, params: Seq<TypeName>, ns: ContractNameSpace) -> Seq<char> {
    (match name { Some(n) => n@, None => Seq::empty() }) + "("@ + joined(sig_parts(params, ns), ","@) + ")"@
}

/// The external signature of a function, from which its selector is hashed.
pub fn external_signature(name: &Option<String>, params: &Vec<TypeName>, ns: &ContractNameSpace) -> (r: String)
    requires
        typenames_wf(params@, ns.enums@.len()),
    ensures
        r@ == external_signature_text(*name, params@, *ns),
{
    let mut sig = match name {
        Some(n) => n.clone(),
        None => String::new(),
    };
    let ghost start = sig@;
    proof { reveal_strlit("("); reveal_strlit(","); reveal_strlit(")"); }
    sig.append("(");
    let mut i: usize = 0;
    while i < params.len()
        invariant
            0 <= i <= params@.len(),
            typenames_wf(params@, ns.enums@.len()),
            sig@ == start + "("@ + joined(sig_parts(params@.take(i as int), *ns), ","@),
        decreases params@.len() - i,
    {
        let ghost before = sig@;
        if i > 0 {
            sig.append(",");
        }
        assert(typename_wf(params@[i as int], ns.enums@.len()));
        let t = match &params[i] {
            TypeName::Elementary(e) => e.to_string(),
            TypeName::Enum(n) => ns.enums[*n].ty.to_string(),
        };
        sig.append(t.as_str());
        proof {
            let parts = sig_parts(params@.take(i + 1), *ns);
            assert(parts.drop_last() =~= sig_parts(params@.take(i as int), *ns));
            assert(parts.last() == typename_sig(params@[i as int], *ns));
            assert(sig@ =~= start + "("@ + joined(parts, ","@));
        }
        i += 1;
    }
    sig.append(")");
    assert(params@.take(params@.len() as int) =~= params@);
    sig
}

/// The parameters of a definition as this name space takes them: each with
/// a type, written without array dimensions.
pub open spec fn plain_params(ps: Seq<(Loc, Option<ast::Parameter>)>) -> bool {
    forall|i: int| 0 <= i < ps.len() ==> ((#[trigger] ps[i]).1 matches Some(p) && is_plain(p.ty))
}

/// Every parameter type of the list resolves.
pub open spec fn params_resolve(ps: Seq<(Loc, Option<ast::Parameter>)>, ns: ContractNameSpace) -> bool {
    forall|i: int| 0 <= i < ps.len() ==> resolve_spec(ns, (#[trigger] ps[i]).1.unwrap().ty) is Some
}

/// The resolved types of a parameter list.
pub open spec fn param_types(ps: Seq<(Loc, Option<ast::Parameter>)>, ns: ContractNameSpace) -> Seq<TypeName> {
    ps.map_values(|p: (Loc, Option<ast::Parameter>)| resolve_spec(ns, p.1.unwrap().ty).unwrap())
}

/// The signature of a definition whose parameter types resolve.
pub open spec fn def_sig(f: ast::FunctionDefinition, ns: ContractNameSpace) -> Seq<char> {
    external_signature_text(
        match f.name { Some(n) => Some(n.name), None => None },
        param_types(f.params@, ns),
        ns,
    )
}

/// May a declaration with this signature join the name space? An overload
/// needs a new signature; there is one function without a name.
pub open spec fn ns_placement_ok(f: ast::FunctionDefinition, sig: Seq<char>, ns: ContractNameSpace) -> bool {
    match f.name {
        Some(id) => match lookup(ns.symbols@, id.name@) {
            Some(Symbol::Function(v)) => forall|k: int| 0 <= k < v@.len() ==>
                ns.functions@[(#[trigger] v@[k]).1 as int].sig@ != sig,
            _ => true,
        },
        None => forall|k: int| 0 <= k < ns.functions@.len() ==> (#[trigger] ns.functions@[k]).name is Some,
    }
}

/// Resolve the types of a parameter list; an unknown type is an error.
fn resolve_types(ps: &Vec<(Loc, Option<ast::Parameter>)>, ns: &ContractNameSpace, errors: &mut Vec<Output>) -> (r: (bool, Vec<TypeName>))
    requires
        ns.wf(),
        plain_params(ps@),
    ensures
        r.0 == params_resolve(ps@, *ns),
        r.0 ==> r.1@ == param_types(ps@, *ns),
        typenames_wf(r.1@, ns.enums@.len()),
        extends(old(errors)@, final(errors)@),
        r.0 ==> final(errors)@ == old(errors)@,
        !r.0 ==> crate::output::error_added(old(errors)@, final(errors)@),
{
    let mut out: Vec<TypeName> = Vec::new();
    let mut ok = true;
    let mut i: usize = 0;
    while i < ps.len()
        invariant
            0 <= i <= ps@.len(),
            ns.wf(),
            plain_params(ps@),
            ok == params_resolve(ps@.take(i as int), *ns),
            ok ==> out@ == param_types(ps@.take(i as int), *ns),
            typenames_wf(out@, ns.enums@.len()),
            extends(old(errors)@, errors@),
            ok ==> errors@ == old(errors)@,
            !ok ==> crate::output::error_added(old(errors)@, errors@),
        decreases ps@.len() - i,
    {
        let ghost before = errors@;
        let ghost next = ps@.take(i + 1);
        proof {
            assert(next.drop_last() =~= ps@.take(i as int));
            assert(next[i as int] == ps@[i as int]);
        }
        let p = match &ps[i].1 {
            Some(p) => p,
            None => {
                assert(false);
                return (false, out);
            },
        };
        let t = ns.resolve(&p.ty, errors);
        proof {
            lemma_symbol_index(ns.symbols@, match &p.ty { ast::Type::Unresolved(s, _) => s.name@, _ => Seq::empty() });
        }
        match t {
            Some(t) => {
                proof {
                    if let ast::Type::Unresolved(s, _) = &p.ty {
                        if let Some(Symbol::Enum(_, n)) = lookup(ns.symbols@, s.name@) {
                            let k = symbol_index(ns.symbols@, s.name@).unwrap();
                            assert(ns_symbol_wf(ns.symbols@[k].1, *ns));
                        }
                    }
                }
                out.push(t);
                proof {
                    if ok {
                        assert(out@ =~= param_types(next, *ns));
                    }
                    assert forall|j: int| 0 <= j < out@.len() implies typename_wf(#[trigger] out@[j], ns.enums@.len()) by {
                        if j < out@.len() - 1 {
                            assert(out@[j] == out@.drop_last()[j]);
                        }
                    }
                }
            },
            None => {
                proof {
                    crate::output::lemma_pushed_error(before, errors@);
                    crate::output::lemma_error_added_trans(old(errors)@, before, errors@);
                    assert(!params_resolve(next, *ns));
                }
                ok = false;
            },
        }
        proof {
            crate::output::lemma_extends_trans(old(errors)@, before, errors@);
            if !ok {
                crate::output::lemma_error_added_trans(old(errors)@, before, errors@);
                if !params_resolve(ps@.take(i as int), *ns) {
                    let j = choose|j: int| 0 <= j < i && !(resolve_spec(*ns, (#[trigger] ps@.take(i as int)[j]).1.unwrap().ty) is Some);
                    assert(next[j] == ps@.take(i as int)[j]);
                }
            }
        }
        i += 1;
    }
    assert(ps@.take(ps@.len() as int) =~= ps@);
    (ok, out)
}

/// Declare a function in this name space: its parameter and return types
/// are resolved, named return values are warned about, and the function is
/// added as an overload of its name or as the fallback function. A repeated
/// signature or a second fallback function is an error.
pub fn func_decl(f: &ast::FunctionDefinition, i: usize, ns: &mut ContractNameSpace, errors: &mut Vec<Output>)
    requires
        old(ns).wf(),
        plain_params(f.params@),
        plain_params(f.returns@),
    ensures
        final(ns).wf(),
        final(ns).name == old(ns).name,
        final(ns).enums == old(ns).enums,
        extends(old(errors)@, final(errors)@),
        ({
            let ok = params_resolve(f.params@, *old(ns)) && params_resolve(f.returns@, *old(ns));
            let sig = def_sig(*f, *old(ns));
            let added = ok && ns_placement_ok(*f, sig, *old(ns));
            &&& added ==> {
                &&& final(ns).functions@.len() == old(ns).functions@.len() + 1
                &&& final(ns).functions@.drop_last() == old(ns).functions@
                &&& final(ns).functions@.last().loc == f.loc
                &&& final(ns).functions@.last().sig@ == sig
                &&& final(ns).functions@.last().ast_index == i
                &&& final(ns).functions@.last().params@ == param_types(f.params@, *old(ns))
                &&& final(ns).functions@.last().returns@ == param_types(f.returns@, *old(ns))
                &&& (f.name matches Some(id) ==> final(ns).functions@.last().name matches Some(n) && n@ == id.name@)
                &&& (f.name is None ==> final(ns).functions@.last().name is None)
            }
            &&& !added ==> final(ns).functions@ == old(ns).functions@
            &&& !added ==> final(ns).symbols@ == old(ns).symbols@
        }),
{
    let ghost c0 = *ns;
    let (params_ok, params) = resolve_types(&f.params, ns, errors);
    let mut k: usize = 0;
    while k < f.returns.len()
        invariant
            0 <= k <= f.returns@.len(),
            plain_params(f.returns@),
            extends(old(errors)@, errors@),
        decreases f.returns@.len() - k,
    {
        if let (_, Some(r)) = &f.returns[k] {
            if let Some(n) = &r.name {
                let ghost before = errors@;
                errors.push(Output::warning(n.loc, join3("named return value `", n.name.as_str(), "' not allowed")));
                proof { crate::output::lemma_extends_trans(old(errors)@, before, errors@); }
            }
        }
        k += 1;
    }
    let ghost e1 = errors@;
    let (returns_ok, rets) = resolve_types(&f.returns, ns, errors);
    proof { crate::output::lemma_extends_trans(old(errors)@, e1, errors@); }
    if !params_ok || !returns_ok {
        return;
    }
    let name = match &f.name {
        Some(n) => Some(n.name.clone()),
        None => None,
    };
    let sig = external_signature(&name, &params, ns);
    proof {
        assert(sig@ == def_sig(*f, c0));
    }
    let ghost e2 = errors@;
    match &f.name {
        Some(id) => {
            let found = find_in_symbols(&ns.symbols, &id.name);
            proof { lemma_symbol_index(c0.symbols@, id.name@); }
            let pos = ns.functions.len();
            let mut is_function = false;
            let mut dup: Option<Loc> = None;
            if let Some(kk) = found {
                match &ns.symbols[kk].1 {
                    Symbol::Function(v) => {
                        is_function = true;
                        assert(ns_symbol_wf(c0.symbols@[kk as int].1, c0));
                        let mut j: usize = 0;
                        while j < v.len()
                            invariant
                                0 <= j <= v@.len(),
                                forall|m: int| 0 <= m < v@.len() ==> (#[trigger] v@[m]).1 < ns.functions@.len(),
                                dup is None ==> forall|m: int| 0 <= m < j ==>
                                    ns.functions@[(#[trigger] v@[m]).1 as int].sig@ != sig@,
                                dup is Some ==> exists|m: int| 0 <= m < v@.len() &&
                                    ns.functions@[(#[trigger] v@[m]).1 as int].sig@ == sig@,
                            decreases v@.len() - j,
                        {
                            if dup.is_none() && ns.functions[v[j].1].sig == sig {
                                dup = Some(v[j].0);
                            }
                            j += 1;
                        }
                    },
                    _ => {},
                }
            }
            if let Some(prev) = dup {
                errors.push(Output::error_with_note(f.loc,
                    String::from_str("overloaded function with this signature already exist"),
                    prev, String::from_str("location of previous definition")));
                return;
            }
            let fdecl = FunctionDecl { loc: f.loc, name, sig, ast_index: i, params, returns: rets };
            ns.functions.push(fdecl);
            if is_function {
                let kk = found.unwrap();
                if let Symbol::Function(v) = &mut ns.symbols[kk].1 {
                    v.push((f.loc, pos));
                }
                proof {
                    assert forall|m: int| 0 <= m < ns.symbols@.len() implies ns_symbol_wf((#[trigger] ns.symbols@[m]).1, *ns) by {
                        assert(ns_symbol_wf(c0.symbols@[m].1, c0));
                    }
                }
            } else {
                let ghost c1 = *ns;
                ns.add_symbol(id, Symbol::Function(vec![(id.loc, pos)]), errors);
                proof {
                    assert forall|m: int| 0 <= m < ns.symbols@.len() implies ns_symbol_wf((#[trigger] ns.symbols@[m]).1, *ns) by {
                        if m < c0.symbols@.len() {
                            assert(ns.symbols@[m] == c0.symbols@[m]);
                            assert(ns_symbol_wf(c0.symbols@[m].1, c0));
                        }
                    }
                    assert forall|a: int, b: int| 0 <= a < b < ns.symbols@.len() implies
                        (#[trigger] ns.symbols@[a]).0@ != (#[trigger] ns.symbols@[b]).0@ by {
                        assert(ns.symbols@[a] == c0.symbols@[a]);
                        if b < c0.symbols@.len() {
                            assert(ns.symbols@[b] == c0.symbols@[b]);
                        }
                    }
                    crate::output::lemma_extends_trans(old(errors)@, e2, errors@);
                }
            }
        },
        None => {
            match ns.fallback_function() {
                Some(k) => {
                    errors.push(Output::error_with_note(f.loc, String::from_str("fallback function already defined"),
                        ns.functions[k].loc, String::from_str("location of previous definition")));
                    return;
                },
                None => {},
            }
            let fdecl = FunctionDecl { loc: f.loc, name, sig, ast_index: i, params, returns: rets };
            ns.functions.push(fdecl);
            proof {
                assert forall|m: int| 0 <= m < ns.symbols@.len() implies ns_symbol_wf((#[trigger] ns.symbols@[m]).1, *ns) by {
                    assert(ns_symbol_wf(c0.symbols@[m].1, c0));
                }
            }
        },
    }
}

} // verus!
