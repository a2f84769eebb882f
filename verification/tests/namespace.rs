use solang::ast::{FunctionDefinition, FunctionTy, Identifier, Loc, Parameter, PrimitiveType, Statement, Type as AstType};
use solang::namespace::{func_decl, ContractNameSpace, Symbol, TypeName};
use solang::output::{Level, Output};
use solang::resolver::EnumDecl;

fn ident(name: &str, at: usize) -> Identifier {
    Identifier { loc: Loc(at, at + 1), name: name.to_string() }
}

fn param(ty: AstType, name: Option<&str>) -> (Loc, Option<Parameter>) {
    (Loc(0, 0), Some(Parameter { loc: Loc(0, 0), ty, storage: None, name: name.map(|n| ident(n, 50)) }))
}

fn def(name: Option<&str>, at: usize, params: Vec<(Loc, Option<Parameter>)>, returns: Vec<(Loc, Option<Parameter>)>) -> FunctionDefinition {
    FunctionDefinition {
        doc: Vec::new(),
        loc: Loc(at, at + 1),
        ty: FunctionTy::Function,
        name: name.map(|n| ident(n, at)),
        params,
        attributes: Vec::new(),
        returns,
        body: Statement::Block(Loc(0, 0), Vec::new()),
    }
}

fn namespace_with_enum() -> ContractNameSpace {
    let mut ns = ContractNameSpace { name: "c".to_string(), enums: Vec::new(), functions: Vec::new(), symbols: Vec::new() };
    ns.enums.push(EnumDecl { name: "E".to_string(), ty: PrimitiveType::Uint(8), values: Vec::new() });
    let mut errors: Vec<Output> = Vec::new();
    ns.add_symbol(&ident("E", 1), Symbol::Enum(Loc(1, 2), 0), &mut errors);
    ns
}

#[test]
fn first_resolver_declares_functions() {
    let mut ns = namespace_with_enum();
    let mut errors: Vec<Output> = Vec::new();
    let uint8 = AstType::Primitive(PrimitiveType::Uint(8), Vec::new());
    let e = AstType::Unresolved(ident("E", 3), Vec::new());
    let f = def(Some("foo"), 10, vec![param(uint8, None), param(e, None)], Vec::new());
    func_decl(&f, 0, &mut ns, &mut errors);
    assert!(errors.is_empty());
    assert_eq!(ns.functions.len(), 1);
    assert_eq!(ns.functions[0].sig, "foo(uint8,uint8)");
    assert_eq!(ns.functions[0].params[1], TypeName::Enum(0));
    // the same signature again is refused
    let g = def(Some("foo"), 20, vec![param(AstType::Primitive(PrimitiveType::Uint(8), Vec::new()), None),
        param(AstType::Unresolved(ident("E", 4), Vec::new()), None)], Vec::new());
    func_decl(&g, 1, &mut ns, &mut errors);
    assert_eq!(ns.functions.len(), 1);
    assert_eq!(errors.len(), 1);
    assert_eq!(errors[0].message, "overloaded function with this signature already exist");
    assert_eq!(errors[0].notes[0].pos, Loc(10, 11));
    // an overload with other parameters is added
    let h = def(Some("foo"), 30, Vec::new(), vec![param(AstType::Primitive(PrimitiveType::Bool, Vec::new()), Some("ok"))]);
    func_decl(&h, 2, &mut ns, &mut errors);
    assert_eq!(ns.functions.len(), 2);
    assert_eq!(ns.functions[1].sig, "foo()");
    assert_eq!(errors[1].level, Level::Warning);
    assert_eq!(errors[1].message, "named return value `ok' not allowed");
    match &ns.symbols[1].1 {
        Symbol::Function(v) => assert_eq!(v.len(), 2),
        _ => panic!("function expected"),
    }
    assert_eq!(ns.to_string(), "# function foo\n# function foo\n");
}

#[test]
fn first_resolver_fallback_and_unknown_types() {
    let mut ns = namespace_with_enum();
    let mut errors: Vec<Output> = Vec::new();
    let fb = def(None, 5, Vec::new(), Vec::new());
    func_decl(&fb, 0, &mut ns, &mut errors);
    assert_eq!(ns.functions.len(), 1);
    assert_eq!(ns.functions[0].sig, "()");
    assert_eq!(ns.fallback_function(), Some(0));
    func_decl(&fb, 1, &mut ns, &mut errors);
    assert_eq!(errors[0].message, "fallback function already defined");
    let bad = def(Some("bar"), 7, vec![param(AstType::Unresolved(ident("Nope", 8), Vec::new()), None)], Vec::new());
    func_decl(&bad, 2, &mut ns, &mut errors);
    assert_eq!(errors[1].message, "`Nope' is not declared");
    assert_eq!(errors[1].pos, Loc(8, 9));
    assert_eq!(ns.functions.len(), 1);
    assert_eq!(ns.to_string(), "# constructor\n");
}
