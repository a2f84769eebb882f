use solang::ast::{
    AssignOp, ContractDefinition, ContractPart, ContractVariableDefinition, EnumDefinition, Expression, FunctionAttribute,
    FunctionDefinition, FunctionTy, Identifier, Loc, Parameter, PrimitiveType, SourceUnit, SourceUnitPart, Statement,
    StateMutability, StringLiteral, StructDefinition, Type as AstType, VariableAttribute, VariableDeclaration, Visibility,
};
use solang::bignum::BigNum;
use solang::output::{any_errors, Level, Output};
use solang::resolver::cfg::ControlFlowGraph;
use solang::resolver::functions::function_decl;
use solang::resolver::structs::struct_decl;
use solang::resolver::variables::contract_variables;
use solang::resolver::{resolve_contract, resolver, Contract, ContractVariableType, Symbol};
use solang::{parse_and_resolve, Target};

fn ident(name: &str) -> Identifier {
    Identifier { loc: Loc(0, 0), name: name.to_string() }
}

fn ident_at(name: &str, a: usize) -> Identifier {
    Identifier { loc: Loc(a, a + 1), name: name.to_string() }
}

fn empty_contract(target: Target) -> Contract {
    Contract {
        doc: Vec::new(),
        name: String::from("c"),
        enums: Vec::new(),
        structs: Vec::new(),
        constructors: Vec::new(),
        functions: Vec::new(),
        variables: Vec::new(),
        constants: Vec::new(),
        initializer: ControlFlowGraph::new(),
        target,
        top_of_contract_storage: 0,
        symbols: Vec::new(),
    }
}

fn uint(n: u16) -> AstType {
    AstType::Primitive(PrimitiveType::Uint(n), Vec::new())
}

fn param(ty: AstType, name: Option<&str>) -> (Loc, Option<Parameter>) {
    (Loc(0, 0), Some(Parameter { loc: Loc(0, 0), ty, storage: None, name: name.map(|n| ident(n)) }))
}

fn number(n: u64) -> Expression {
    Expression::NumberLiteral(Loc(0, 0), BigNum::from_u64(n))
}

fn function(
    name: Option<&str>,
    at: usize,
    attributes: Vec<FunctionAttribute>,
    params: Vec<(Loc, Option<Parameter>)>,
    returns: Vec<(Loc, Option<Parameter>)>,
    body: Statement,
) -> FunctionDefinition {
    FunctionDefinition {
        doc: Vec::new(),
        loc: Loc(at, at + 1),
        ty: FunctionTy::Function,
        name: name.map(|n| ident_at(n, at)),
        params,
        attributes,
        returns,
        body,
    }
}

fn public() -> FunctionAttribute {
    FunctionAttribute::Visibility(Visibility::Public(Loc(0, 0)))
}

fn return_one() -> Statement {
    Statement::Block(Loc(0, 0), vec![Statement::Return(Loc(0, 0), vec![number(1)])])
}

fn sample_contract() -> ContractDefinition {
    ContractDefinition {
        doc: Vec::new(),
        loc: Loc(1, 100),
        name: ident("c"),
        parts: vec![
            ContractPart::EnumDefinition(EnumDefinition { doc: Vec::new(), name: ident("E"), values: vec![ident("a"), ident("b")] }),
            ContractPart::ContractVariableDefinition(ContractVariableDefinition {
                doc: Vec::new(),
                loc: Loc(10, 20),
                ty: uint(8),
                attrs: Vec::new(),
                name: ident("x"),
                initializer: Some(number(5)),
            }),
            ContractPart::FunctionDefinition(function(Some("foo"), 30, vec![public()], vec![param(uint(8), Some("a"))],
                vec![param(uint(8), None)], return_one())),
        ],
    }
}

#[test]
fn resolve_sample_contract() {
    let mut errors: Vec<Output> = Vec::new();
    let c = resolve_contract(&sample_contract(), Target::Ewasm, &mut errors).unwrap();
    assert_eq!(errors[0].level, Level::Info);
    assert_eq!(errors[0].message, "found contract c");
    assert_eq!(errors[0].pos, Loc(1, 100));
    assert!(!any_errors(&errors));
    assert_eq!(c.name, "c");
    assert_eq!(c.enums.len(), 1);
    assert_eq!(c.enums[0].ty, PrimitiveType::Uint(8));
    assert_eq!(c.variables.len(), 1);
    assert_eq!(c.variables[0].var, ContractVariableType::Storage(0));
    assert_eq!(c.functions.len(), 1);
    assert_eq!(c.functions[0].signature, "foo(uint8)");
    assert!(c.functions[0].cfg.is_some());
    // a function that neither reads nor writes storage can be pure
    assert!(errors.iter().any(|e| e.level == Level::Warning && e.message == "function can be declare pure"));
    // no constructor on ewasm is added
    assert_eq!(c.constructors.len(), 0);
    let text = c.to_string();
    assert!(text.starts_with("#\n# Contract: c\n#\n\n# storage initializer\n"));
    assert!(text.contains("# function(0) foo(uint8)\n"));
}

#[test]
fn substrate_gets_default_constructor() {
    let mut errors: Vec<Output> = Vec::new();
    let c = resolve_contract(&sample_contract(), Target::Substrate, &mut errors).unwrap();
    assert_eq!(c.constructors.len(), 1);
    assert_eq!(c.constructors[0].signature, "()");
    assert!(c.constructors[0].cfg.is_some());
}

#[test]
fn resolver_reports_pragmas_and_contracts() {
    let unit = SourceUnit(vec![
        SourceUnitPart::PragmaDirective(ident_at("solidity", 2), StringLiteral { loc: Loc(9, 9), string: "0.5".to_string() }),
        SourceUnitPart::PragmaDirective(ident_at("experimental", 3), StringLiteral { loc: Loc(7, 8), string: "ABIEncoderV2".to_string() }),
        SourceUnitPart::PragmaDirective(ident_at("foo", 4), StringLiteral { loc: Loc(9, 9), string: "bar".to_string() }),
        SourceUnitPart::ContractDefinition(sample_contract()),
    ]);
    let (contracts, errors) = resolver(unit, Target::Ewasm);
    assert_eq!(contracts.len(), 1);
    assert_eq!(errors[0].level, Level::Info);
    assert_eq!(errors[0].message, "pragma solidity is ignored");
    assert_eq!(errors[0].pos, Loc(2, 3));
    assert_eq!(errors[1].message, "pragma experimental ABIEncoderV2 is ignored");
    assert_eq!(errors[1].pos, Loc(7, 8));
    assert_eq!(errors[2].level, Level::Warning);
    assert_eq!(errors[2].message, "unknown pragma foo ignored");
    assert_eq!(errors[3].message, "found contract c");
}

#[test]
fn parse_errors_pass_through() {
    let parse_errors = vec![Output::error(Loc(3, 4), "unexpected token".to_string())];
    let (contracts, errors) = parse_and_resolve(Err(parse_errors), Target::Substrate);
    assert!(contracts.is_empty());
    assert_eq!(errors.len(), 1);
    assert_eq!(errors[0].message, "unexpected token");
}

#[test]
fn overload_with_same_signature_is_refused() {
    let mut ns = empty_contract(Target::Ewasm);
    let mut errors: Vec<Output> = Vec::new();
    let f1 = function(Some("foo"), 10, vec![public()], vec![param(uint(8), None)], Vec::new(), Statement::Block(Loc(0, 0), Vec::new()));
    let f2 = function(Some("foo"), 20, vec![public()], vec![param(uint(16), None)], Vec::new(), Statement::Block(Loc(0, 0), Vec::new()));
    let f3 = function(Some("foo"), 30, vec![public()], vec![param(uint(8), None)], Vec::new(), Statement::Block(Loc(0, 0), Vec::new()));
    assert!(function_decl(&f1, 0, &mut ns, &mut errors));
    assert!(function_decl(&f2, 1, &mut ns, &mut errors));
    assert!(errors.is_empty());
    assert!(!function_decl(&f3, 2, &mut ns, &mut errors));
    assert_eq!(ns.functions.len(), 2);
    assert_eq!(errors.len(), 1);
    assert_eq!(errors[0].message, "overloaded function with this signature already exist");
    assert_eq!(errors[0].pos, Loc(30, 31));
    assert_eq!(errors[0].notes[0].pos, Loc(10, 11));
    match &ns.symbols[0].1 {
        Symbol::Function(v) => assert_eq!(v.len(), 2),
        _ => panic!("foo is a function"),
    }
}

#[test]
fn function_declaration_errors() {
    let mut ns = empty_contract(Target::Ewasm);
    let mut errors: Vec<Output> = Vec::new();
    // same name as the contract
    let f = function(Some("c"), 1, vec![public()], Vec::new(), Vec::new(), Statement::Block(Loc(0, 0), Vec::new()));
    assert!(!function_decl(&f, 0, &mut ns, &mut errors));
    assert_eq!(errors.last().unwrap().message, "function cannot have same name as the contract");
    // no visibility
    let f = function(Some("g"), 2, Vec::new(), Vec::new(), Vec::new(), Statement::Block(Loc(0, 0), Vec::new()));
    assert!(!function_decl(&f, 0, &mut ns, &mut errors));
    assert_eq!(errors.last().unwrap().message, "no visibility specified");
    // visibility given twice
    let f = function(Some("h"), 3, vec![public(), FunctionAttribute::Visibility(Visibility::Private(Loc(5, 6)))],
        Vec::new(), Vec::new(), Statement::Block(Loc(0, 0), Vec::new()));
    assert!(!function_decl(&f, 0, &mut ns, &mut errors));
    assert_eq!(errors.last().unwrap().message, "function redeclared `private'");
    assert_eq!(errors.last().unwrap().notes[0].message, "location of previous declaration of `public'");
    // missing parameter type
    let f = function(Some("k"), 4, vec![public()], vec![(Loc(7, 8), None)], Vec::new(), Statement::Block(Loc(0, 0), Vec::new()));
    assert!(!function_decl(&f, 0, &mut ns, &mut errors));
    assert_eq!(errors.last().unwrap().message, "missing parameter type");
    assert!(ns.functions.is_empty());
    // a fallback must be external
    let f = function(None, 5, vec![public()], Vec::new(), Vec::new(), Statement::Block(Loc(0, 0), Vec::new()));
    assert!(!function_decl(&f, 0, &mut ns, &mut errors));
    assert_eq!(errors.last().unwrap().message, "fallback function must be declared external");
    let f = function(None, 6, vec![FunctionAttribute::Visibility(Visibility::External(Loc(0, 0)))], Vec::new(), Vec::new(),
        Statement::Block(Loc(0, 0), Vec::new()));
    assert!(function_decl(&f, 0, &mut ns, &mut errors));
    assert!(ns.functions[0].fallback);
    assert!(!function_decl(&f, 1, &mut ns, &mut errors));
    assert_eq!(errors.last().unwrap().message, "fallback function already defined");
    // a constructor cannot be pure
    let mut ctor = function(None, 7, vec![public(), FunctionAttribute::StateMutability(StateMutability::Pure(Loc(8, 9)))],
        Vec::new(), Vec::new(), Statement::Block(Loc(0, 0), Vec::new()));
    ctor.ty = FunctionTy::Constructor;
    assert!(!function_decl(&ctor, 0, &mut ns, &mut errors));
    assert_eq!(errors.last().unwrap().message, "constructor cannot be declared pure");
    assert_eq!(errors.last().unwrap().pos, Loc(8, 9));
}

#[test]
fn constructor_with_return_values_is_only_warned() {
    let mut ns = empty_contract(Target::Ewasm);
    let mut errors: Vec<Output> = Vec::new();
    let mut ctor = function(None, 7, vec![public()], Vec::new(), vec![param(uint(8), None)], Statement::Block(Loc(0, 0), Vec::new()));
    ctor.ty = FunctionTy::Constructor;
    assert!(!function_decl(&ctor, 0, &mut ns, &mut errors));
    assert_eq!(errors.len(), 1);
    assert_eq!(errors[0].level, Level::Warning);
    assert_eq!(errors[0].message, "constructor cannot have return values");
}

#[test]
fn second_constructor_on_ewasm_is_refused() {
    let mut ns = empty_contract(Target::Ewasm);
    let mut errors: Vec<Output> = Vec::new();
    let mut ctor = function(None, 7, vec![public()], Vec::new(), Vec::new(), Statement::Block(Loc(0, 0), Vec::new()));
    ctor.ty = FunctionTy::Constructor;
    assert!(function_decl(&ctor, 0, &mut ns, &mut errors));
    let mut other = function(None, 9, vec![public()], vec![param(uint(8), None)], Vec::new(), Statement::Block(Loc(0, 0), Vec::new()));
    other.ty = FunctionTy::Constructor;
    assert!(!function_decl(&other, 1, &mut ns, &mut errors));
    assert_eq!(errors.last().unwrap().message, "constructor already defined");
    assert_eq!(errors.last().unwrap().notes[0].pos, Loc(7, 8));
    // on Substrate, overloaded constructors are allowed
    let mut sub = empty_contract(Target::Substrate);
    assert!(function_decl(&ctor, 0, &mut sub, &mut errors));
    assert!(function_decl(&other, 1, &mut sub, &mut errors));
    assert_eq!(sub.constructors.len(), 2);
}

#[test]
fn struct_declarations() {
    let mut ns = empty_contract(Target::Substrate);
    let mut errors: Vec<Output> = Vec::new();
    let s = StructDefinition {
        doc: Vec::new(),
        name: ident("S"),
        fields: vec![
            VariableDeclaration { typ: uint(8), storage: None, name: ident_at("a", 1) },
            VariableDeclaration { typ: uint(16), storage: None, name: ident_at("a", 5) },
        ],
    };
    assert!(!struct_decl(&s, &mut ns, &mut errors));
    assert_eq!(errors[0].message, "struct ‘S’ has duplicate struct field ‘a’");
    assert_eq!(errors[0].pos, Loc(5, 6));
    assert_eq!(errors[0].notes[0].message, "location of previous declaration of ‘a’");
    // the struct is still added, with the fields that resolved
    assert_eq!(ns.structs.len(), 1);
    assert_eq!(ns.structs[0].name, "S");
    assert_eq!(ns.structs[0].fields.len(), 1);
    let empty = StructDefinition { doc: Vec::new(), name: ident("T"), fields: Vec::new() };
    assert!(!struct_decl(&empty, &mut ns, &mut errors));
    assert_eq!(errors.last().unwrap().message, "struct definition for ‘T’ has no fields");
    let good = StructDefinition {
        doc: Vec::new(),
        name: ident("U"),
        fields: vec![VariableDeclaration { typ: uint(8), storage: None, name: ident("x") }],
    };
    assert!(struct_decl(&good, &mut ns, &mut errors));
    assert_eq!(ns.structs.len(), 3);
    assert_eq!(ns.structs[2].name, "U");
    assert_eq!(ns.structs[2].fields[0].name, "x");
}

#[test]
fn state_variables_take_slots_and_constants() {
    let mut ns = empty_contract(Target::Substrate);
    let mut errors: Vec<Output> = Vec::new();
    let def = ContractDefinition {
        doc: Vec::new(),
        loc: Loc(0, 0),
        name: ident("c"),
        parts: vec![
            ContractPart::ContractVariableDefinition(ContractVariableDefinition {
                doc: Vec::new(),
                loc: Loc(1, 2),
                ty: uint(8),
                attrs: Vec::new(),
                name: ident("a"),
                initializer: None,
            }),
            ContractPart::ContractVariableDefinition(ContractVariableDefinition {
                doc: Vec::new(),
                loc: Loc(3, 4),
                ty: uint(32),
                attrs: vec![VariableAttribute::Constant(Loc(0, 0))],
                name: ident("k"),
                initializer: Some(number(7)),
            }),
            ContractPart::ContractVariableDefinition(ContractVariableDefinition {
                doc: Vec::new(),
                loc: Loc(5, 6),
                ty: uint(64),
                attrs: vec![VariableAttribute::Visibility(Visibility::Public(Loc(0, 0)))],
                name: ident("b"),
                initializer: Some(number(300)),
            }),
        ],
    };
    let broken = contract_variables(&def, &mut ns, &mut errors);
    assert!(!broken);
    assert!(errors.is_empty());
    assert_eq!(ns.variables.len(), 3);
    assert_eq!(ns.variables[0].var, ContractVariableType::Storage(0));
    assert_eq!(ns.variables[1].var, ContractVariableType::Constant(0));
    assert_eq!(ns.variables[2].var, ContractVariableType::Storage(1));
    assert_eq!(ns.variables[2].visibility, Visibility::Public(Loc(0, 0)));
    assert_eq!(ns.constants.len(), 1);
    assert_eq!(ns.top_of_contract_storage, 2);
}

#[test]
fn variable_errors() {
    let mut ns = empty_contract(Target::Substrate);
    let mut errors: Vec<Output> = Vec::new();
    let def = ContractDefinition {
        doc: Vec::new(),
        loc: Loc(0, 0),
        name: ident("c"),
        parts: vec![
            ContractPart::ContractVariableDefinition(ContractVariableDefinition {
                doc: Vec::new(),
                loc: Loc(1, 2),
                ty: uint(8),
                attrs: vec![VariableAttribute::Constant(Loc(0, 0))],
                name: ident("a"),
                initializer: None,
            }),
            ContractPart::ContractVariableDefinition(ContractVariableDefinition {
                doc: Vec::new(),
                loc: Loc(3, 4),
                ty: uint(8),
                attrs: vec![VariableAttribute::Visibility(Visibility::External(Loc(5, 6)))],
                name: ident("b"),
                initializer: None,
            }),
        ],
    };
    assert!(contract_variables(&def, &mut ns, &mut errors));
    assert_eq!(errors[0].message, "missing initializer for constant");
    assert_eq!(errors[0].pos, Loc(1, 2));
    assert_eq!(errors[1].message, "variable cannot be declared external");
    assert_eq!(errors[1].pos, Loc(5, 6));
    assert!(ns.variables.is_empty());
}

#[test]
fn pure_function_reading_storage_is_refused() {
    let def = ContractDefinition {
        doc: Vec::new(),
        loc: Loc(0, 0),
        name: ident("c"),
        parts: vec![
            ContractPart::ContractVariableDefinition(ContractVariableDefinition {
                doc: Vec::new(),
                loc: Loc(1, 2),
                ty: uint(8),
                attrs: Vec::new(),
                name: ident("x"),
                initializer: None,
            }),
            ContractPart::FunctionDefinition(function(
                Some("get"),
                10,
                vec![public(), FunctionAttribute::StateMutability(StateMutability::Pure(Loc(11, 12)))],
                Vec::new(),
                vec![param(uint(8), None)],
                Statement::Block(Loc(0, 0), vec![Statement::Return(Loc(0, 0), vec![Expression::Variable(ident("x"))])]),
            )),
        ],
    };
    let mut errors: Vec<Output> = Vec::new();
    assert!(resolve_contract(&def, Target::Substrate, &mut errors).is_none());
    assert!(errors.iter().any(|e| e.level == Level::Error && e.message == "function declared pure but reads contract storage"
        && e.pos == Loc(11, 12)));
}

fn contract_with_body(body: Statement, returns: Vec<(Loc, Option<Parameter>)>) -> ContractDefinition {
    ContractDefinition {
        doc: Vec::new(),
        loc: Loc(0, 0),
        name: ident("c"),
        parts: vec![ContractPart::FunctionDefinition(function(Some("f"), 10, vec![public()], Vec::new(), returns, body))],
    }
}

#[test]
fn statement_after_return_is_unreachable() {
    let body = Statement::Block(Loc(0, 0), vec![
        Statement::Return(Loc(1, 2), vec![number(1)]),
        Statement::Expression(Loc(3, 4), number(2)),
    ]);
    let mut errors: Vec<Output> = Vec::new();
    assert!(resolve_contract(&contract_with_body(body, vec![param(uint(8), None)]), Target::Substrate, &mut errors).is_none());
    assert!(errors.iter().any(|e| e.level == Level::Error && e.message == "unreachable statement" && e.pos == Loc(3, 4)));
}

#[test]
fn body_that_completes_needs_a_return() {
    let body = Statement::Block(Loc(5, 6), vec![Statement::Expression(Loc(3, 4), number(2))]);
    let mut errors: Vec<Output> = Vec::new();
    assert!(resolve_contract(&contract_with_body(body, vec![param(uint(8), None)]), Target::Substrate, &mut errors).is_none());
    assert!(errors.iter().any(|e| e.level == Level::Error && e.message == "missing return statement"));
}

#[test]
fn if_with_else_returning_on_both_paths_is_complete() {
    let body = Statement::Block(Loc(0, 0), vec![Statement::If(
        Loc(0, 0),
        Expression::BoolLiteral(Loc(0, 0), true),
        Box::new(Statement::Return(Loc(0, 0), vec![number(1)])),
        Some(Box::new(Statement::Return(Loc(0, 0), vec![number(2)]))),
    )]);
    let mut errors: Vec<Output> = Vec::new();
    assert!(resolve_contract(&contract_with_body(body, vec![param(uint(8), None)]), Target::Substrate, &mut errors).is_some());
    assert!(!any_errors(&errors));
}

#[test]
fn loop_without_condition_ends_only_by_break() {
    // for (;;) {} cannot complete, so the statement after it is unreachable
    let body = Statement::Block(Loc(0, 0), vec![
        Statement::For(Loc(0, 0), None, None, None, Some(Box::new(Statement::Block(Loc(0, 0), Vec::new())))),
        Statement::Expression(Loc(7, 8), number(2)),
    ]);
    let mut errors: Vec<Output> = Vec::new();
    assert!(resolve_contract(&contract_with_body(body, Vec::new()), Target::Substrate, &mut errors).is_none());
    assert!(errors.iter().any(|e| e.message == "unreachable statement" && e.pos == Loc(7, 8)));
    // with a break in the body it can complete
    let body = Statement::Block(Loc(0, 0), vec![
        Statement::For(Loc(0, 0), None, None, None, Some(Box::new(Statement::Break(Loc(0, 0))))),
        Statement::Expression(Loc(7, 8), number(2)),
    ]);
    let mut errors: Vec<Output> = Vec::new();
    assert!(resolve_contract(&contract_with_body(body, Vec::new()), Target::Substrate, &mut errors).is_some());
}

#[test]
fn break_outside_loop_is_refused() {
    let body = Statement::Block(Loc(0, 0), vec![Statement::Break(Loc(4, 5))]);
    let mut errors: Vec<Output> = Vec::new();
    assert!(resolve_contract(&contract_with_body(body, Vec::new()), Target::Substrate, &mut errors).is_none());
    assert!(errors.iter().any(|e| e.message == "break statement not in loop" && e.pos == Loc(4, 5)));
}

#[test]
fn statement_after_plain_return_is_unreachable_whatever_it_is() {
    // the assignment to an unknown name is never resolved: only the
    // unreachable statement is reported
    let body = Statement::Block(Loc(0, 0), vec![
        Statement::Return(Loc(1, 2), Vec::new()),
        Statement::Expression(Loc(3, 4), Expression::Assign(Loc(3, 4), AssignOp::Assign, ident("nope"), Box::new(number(1)))),
    ]);
    let mut errors: Vec<Output> = Vec::new();
    assert!(resolve_contract(&contract_with_body(body, Vec::new()), Target::Substrate, &mut errors).is_none());
    assert!(errors.iter().any(|e| e.level == Level::Error && e.message == "unreachable statement" && e.pos == Loc(3, 4)));
    assert!(!errors.iter().any(|e| e.message.contains("nope")));
}
