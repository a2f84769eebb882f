use solang::ast::{
    BinaryOp, ContractDefinition, ContractPart, ContractVariableDefinition, EnumDefinition, Expression as AstExpression,
    FunctionAttribute, FunctionDefinition, FunctionTy, Identifier, IncDecOp, Loc, PrimitiveType, Statement, StructDefinition,
    Type as AstType, VariableAttribute, VariableDeclaration, Visibility,
};
use solang::ast::{SourceUnit, SourceUnitPart};
use solang::bignum::{u64_to_decimal, BigNum};
use solang::resolver::checks::{contract_def_checked, expr_checked, unit_checked};
use solang::output::{any_errors, Level, Output};
use solang::resolver::cfg::{ControlFlowGraph, Expression, Vartable};
use solang::resolver::expression::expression;
use solang::resolver::structs::struct_decl;
use solang::resolver::{resolve_contract, Contract, Type};
use solang::Target;

fn empty_contract() -> Contract {
    Contract {
        doc: Vec::new(),
        name: String::from("c"),
        enums: Vec::new(),
        structs: Vec::new(),
        constructors: Vec::new(),
        functions: Vec::new(),
        variables: Vec::new(),
        constants: Vec::new(),
        initializer: ControlFlowGraph::new(),
        target: Target::Substrate,
        top_of_contract_storage: 0,
        symbols: Vec::new(),
    }
}

fn num(n: i64) -> AstExpression {
    let digits = if n == 0 { Vec::new() } else { vec![n.unsigned_abs() as u32] };
    AstExpression::NumberLiteral(Loc(0, 0), BigNum { negative: n < 0, digits })
}

fn bin(op: BinaryOp, l: AstExpression, r: AstExpression) -> AstExpression {
    AstExpression::Binary(Loc(2, 9), op, Box::new(l), Box::new(r))
}

fn resolve(e: &AstExpression, errors: &mut Vec<Output>) -> Result<(Expression, Type), ()> {
    let mut cfg = ControlFlowGraph::new();
    let mut vartab = Vartable::new();
    let ns = empty_contract();
    expression(e, &mut cfg, &ns, &mut vartab, false, errors)
}

fn literal(e: &Expression) -> Option<(u16, bool, u32)> {
    match e {
        Expression::NumberLiteral(w, n) => Some((*w, n.negative, n.digits.first().copied().unwrap_or(0))),
        _ => None,
    }
}

#[test]
fn literal_division_is_signed_int16() {
    let mut errors = Vec::new();
    let (e, t) = resolve(&bin(BinaryOp::Divide, num(-6), num(3)), &mut errors).unwrap();
    assert!(matches!(t, Type::Primitive(PrimitiveType::Int(16))));
    match e {
        Expression::SDivide(a, b) => {
            assert_eq!(literal(&a), Some((16, true, 6)));
            assert_eq!(literal(&b), Some((16, false, 3)));
        }
        other => panic!("{:?}", other),
    }
    assert!(errors.is_empty());
}

#[test]
fn literal_comparison_signedness_follows_operands() {
    let mut errors = Vec::new();
    let (e, t) = resolve(&bin(BinaryOp::Less, num(-1), num(1)), &mut errors).unwrap();
    assert!(matches!(t, Type::Primitive(PrimitiveType::Bool)));
    assert!(matches!(e, Expression::SLess(_, _)));
    let (e, _) = resolve(&bin(BinaryOp::Less, num(1), num(300)), &mut errors).unwrap();
    match e {
        Expression::ULess(a, b) => {
            assert_eq!(literal(&a), Some((16, false, 1)));
            assert_eq!(literal(&b), Some((16, false, 300)));
        }
        other => panic!("{:?}", other),
    }
    assert!(errors.is_empty());
}

#[test]
fn literal_power_of_signed_is_refused() {
    let mut errors = Vec::new();
    assert!(resolve(&bin(BinaryOp::Power, num(-2), num(2)), &mut errors).is_err());
    assert_eq!(errors.len(), 1);
    assert_eq!(errors[0].message, "exponation (**) is not allowed with signed types");
    assert_eq!(errors[0].pos, Loc(2, 9));
    let mut errors = Vec::new();
    assert!(resolve(&bin(BinaryOp::Power, num(2), num(3)), &mut errors).is_ok());
    assert!(errors.is_empty());
}

#[test]
fn literal_add_of_bool_and_number_is_refused() {
    let mut errors = Vec::new();
    let e = bin(BinaryOp::Add, AstExpression::BoolLiteral(Loc(0, 0), true), num(1));
    assert!(resolve(&e, &mut errors).is_err());
    assert!(any_errors(&errors));
}

#[test]
fn dirty_tracker_collects_assignments_below_its_limit() {
    let mut vartab = Vartable::new();
    let mut errors = Vec::new();
    let x = vartab.add(&Identifier { loc: Loc(0, 1), name: String::from("x") }, Type::Primitive(PrimitiveType::Bool), &mut errors).unwrap();
    let y = vartab.add(&Identifier { loc: Loc(1, 2), name: String::from("y") }, Type::Primitive(PrimitiveType::Bool), &mut errors).unwrap();
    vartab.new_dirty_tracker();
    let z = vartab.add(&Identifier { loc: Loc(2, 3), name: String::from("z") }, Type::Primitive(PrimitiveType::Bool), &mut errors).unwrap();
    vartab.set_dirty(y);
    vartab.set_dirty(z);
    vartab.set_dirty(y);
    vartab.set_dirty(x);
    let mut set = vartab.pop_dirty_tracker();
    set.sort();
    set.dedup();
    assert_eq!(set, vec![x, y]);
}

fn ident(name: &str, at: usize) -> Identifier {
    Identifier { loc: Loc(at, at + 1), name: name.to_string() }
}

fn var(name: &str, at: usize, attrs: Vec<VariableAttribute>) -> ContractPart {
    ContractPart::ContractVariableDefinition(ContractVariableDefinition {
        doc: Vec::new(),
        loc: Loc(at, at + 1),
        ty: AstType::Primitive(PrimitiveType::Uint(8), Vec::new()),
        attrs,
        name: ident(name, at),
        initializer: None,
    })
}

fn enum_def(name: &str) -> ContractPart {
    ContractPart::EnumDefinition(EnumDefinition { doc: Vec::new(), name: ident(name, 40), values: vec![ident("A", 41)] })
}

fn contract(parts: Vec<ContractPart>) -> ContractDefinition {
    ContractDefinition { doc: Vec::new(), loc: Loc(0, 0), name: ident("c", 0), parts }
}

#[test]
fn contract_of_enums_and_variables_is_accepted() {
    let mut errors = Vec::new();
    let def = contract(vec![enum_def("E"), var("x", 10, Vec::new()), var("y", 12, Vec::new())]);
    let c = resolve_contract(&def, Target::Substrate, &mut errors).unwrap();
    assert_eq!(c.variables.len(), 2);
    assert!(!any_errors(&errors));
}

#[test]
fn variable_named_like_an_enum_is_refused() {
    let mut errors = Vec::new();
    let def = contract(vec![enum_def("E"), var("E", 10, Vec::new())]);
    assert!(resolve_contract(&def, Target::Substrate, &mut errors).is_none());
    assert!(errors.iter().any(|e| e.level == Level::Error && e.pos == Loc(10, 11)));
}

#[test]
fn repeated_variable_is_refused() {
    let mut errors = Vec::new();
    let def = contract(vec![var("x", 10, Vec::new()), var("x", 12, Vec::new())]);
    assert!(resolve_contract(&def, Target::Ewasm, &mut errors).is_none());
    assert!(any_errors(&errors));
}

#[test]
fn constant_without_initializer_is_refused() {
    let mut errors = Vec::new();
    let def = contract(vec![var("k", 10, vec![VariableAttribute::Constant(Loc(0, 0))])]);
    assert!(resolve_contract(&def, Target::Substrate, &mut errors).is_none());
    assert_eq!(errors.last().unwrap().message, "missing initializer for constant");
    assert_eq!(errors.last().unwrap().pos, Loc(10, 11));
}

fn with_body(body: Statement) -> ContractDefinition {
    contract(vec![ContractPart::FunctionDefinition(FunctionDefinition {
        doc: Vec::new(),
        loc: Loc(20, 30),
        ty: FunctionTy::Function,
        name: Some(ident("f", 20)),
        params: Vec::new(),
        attributes: vec![FunctionAttribute::Visibility(Visibility::Public(Loc(0, 0)))],
        returns: Vec::new(),
        body,
    })])
}

#[test]
fn condition_must_convert_to_bool() {
    let ok = Statement::Block(Loc(0, 0), vec![Statement::If(
        Loc(0, 0),
        AstExpression::BoolLiteral(Loc(0, 0), true),
        Box::new(Statement::Expression(Loc(0, 0), num(1))),
        None,
    )]);
    let mut errors = Vec::new();
    assert!(resolve_contract(&with_body(ok), Target::Substrate, &mut errors).is_some());
    let refused = Statement::Block(Loc(0, 0), vec![Statement::While(
        Loc(0, 0),
        num(1),
        Box::new(Statement::Block(Loc(0, 0), Vec::new())),
    )]);
    let mut errors = Vec::new();
    assert!(resolve_contract(&with_body(refused), Target::Substrate, &mut errors).is_none());
    assert!(any_errors(&errors));
}

#[test]
fn implicit_constructor_only_returns() {
    let mut errors = Vec::new();
    let c = resolve_contract(&contract(Vec::new()), Target::Substrate, &mut errors).unwrap();
    assert_eq!(c.constructors.len(), 1);
    let g = c.constructors[0].cfg.as_ref().unwrap();
    assert_eq!(g.bb.len(), 1);
    assert_eq!(g.bb[0].instr.len(), 1);
    assert!(matches!(&g.bb[0].instr[0], solang::resolver::cfg::Instr::Return { value } if value.is_empty()));
}

#[test]
fn each_bad_struct_field_gives_one_error() {
    let mut ns = empty_contract();
    let mut errors = Vec::new();
    let s = StructDefinition {
        doc: Vec::new(),
        name: ident("S", 50),
        fields: vec![
            VariableDeclaration { typ: AstType::Primitive(PrimitiveType::Uint(8), Vec::new()), storage: None, name: ident("a", 51) },
            VariableDeclaration { typ: AstType::Unresolved(ident("Missing", 52), Vec::new()), storage: None, name: ident("b", 53) },
            VariableDeclaration { typ: AstType::Primitive(PrimitiveType::Uint(8), Vec::new()), storage: None, name: ident("a", 54) },
            VariableDeclaration { typ: AstType::Primitive(PrimitiveType::Uint(8), Vec::new()), storage: None, name: ident("c", 55) },
        ],
    };
    assert!(!struct_decl(&s, &mut ns, &mut errors));
    assert_eq!(errors.len(), 2);
    assert!(errors.iter().all(|e| e.level == Level::Error));
    assert_eq!(ns.structs[0].fields.len(), 2);
}

fn struct_def(name: &str, fields: Vec<&str>) -> ContractPart {
    ContractPart::StructDefinition(StructDefinition {
        doc: Vec::new(),
        name: ident(name, 60),
        fields: fields
            .into_iter()
            .map(|f| VariableDeclaration {
                typ: AstType::Primitive(PrimitiveType::Uint(8), Vec::new()),
                storage: None,
                name: ident(f, 61),
            })
            .collect(),
    })
}

#[test]
fn contract_with_structs_is_accepted_or_refused_by_its_parts() {
    let mut errors = Vec::new();
    let def = contract(vec![enum_def("E"), struct_def("S", vec!["a", "b"]), var("x", 10, Vec::new())]);
    let c = resolve_contract(&def, Target::Substrate, &mut errors).unwrap();
    assert_eq!(c.structs.len(), 1);
    assert!(!any_errors(&errors));
    let mut errors = Vec::new();
    let def = contract(vec![struct_def("S", vec!["a", "a"])]);
    assert!(resolve_contract(&def, Target::Substrate, &mut errors).is_none());
    let mut errors = Vec::new();
    let def = contract(vec![struct_def("S", vec!["a"]), var("S", 10, Vec::new())]);
    assert!(resolve_contract(&def, Target::Substrate, &mut errors).is_none());
    let mut errors = Vec::new();
    let def = contract(vec![enum_def("S"), struct_def("S", vec!["a"])]);
    assert!(resolve_contract(&def, Target::Substrate, &mut errors).is_none());
}

#[test]
fn logical_operators_need_bool_operands() {
    let t = AstExpression::BoolLiteral(Loc(0, 0), true);
    let f = AstExpression::BoolLiteral(Loc(0, 0), false);
    let mut errors = Vec::new();
    let (_, ty) = resolve(&bin(BinaryOp::Or, t, f), &mut errors).unwrap();
    assert!(matches!(ty, Type::Primitive(PrimitiveType::Bool)));
    assert!(errors.is_empty());
    let t = AstExpression::BoolLiteral(Loc(0, 0), true);
    assert!(resolve(&bin(BinaryOp::And, t, num(1)), &mut errors).is_err());
    assert!(any_errors(&errors));
}

#[test]
fn function_named_like_contract_is_refused() {
    let def = contract(vec![ContractPart::FunctionDefinition(FunctionDefinition {
        doc: Vec::new(),
        loc: Loc(20, 30),
        ty: FunctionTy::Function,
        name: Some(ident("c", 20)),
        params: Vec::new(),
        attributes: vec![FunctionAttribute::Visibility(Visibility::Public(Loc(0, 0)))],
        returns: Vec::new(),
        body: Statement::Block(Loc(0, 0), Vec::new()),
    })]);
    let mut errors = Vec::new();
    assert!(resolve_contract(&def, Target::Substrate, &mut errors).is_none());
    assert!(errors.iter().any(|e| e.message == "function cannot have same name as the contract" && e.pos == Loc(20, 30)));
}

#[test]
fn parse_tree_checks() {
    let good = contract(vec![enum_def("E"), var("x", 10, Vec::new())]);
    assert!(contract_def_checked(&good.parts));
    let empty_enum = ContractPart::EnumDefinition(EnumDefinition { doc: Vec::new(), name: ident("F", 40), values: Vec::new() });
    let bad = contract(vec![empty_enum]);
    assert!(!contract_def_checked(&bad.parts));
    assert!(unit_checked(&SourceUnit(vec![SourceUnitPart::ContractDefinition(good)])));
    assert!(!unit_checked(&SourceUnit(vec![SourceUnitPart::ContractDefinition(bad)])));
    assert!(expr_checked(&AstExpression::AddressLiteral(Loc(0, 0), String::from("0x5aAeb6053F3E94C9b9A09f33669435E7Ef1BeAed"))));
    assert!(!expr_checked(&AstExpression::AddressLiteral(Loc(0, 0), String::from("0x5aAeb6053F3E94C9b9A09f33669435E7Ef1BeAeg"))));
}

#[test]
fn decimal_text_of_machine_integers() {
    assert_eq!(u64_to_decimal(0), "0");
    assert_eq!(u64_to_decimal(1234567890), "1234567890");
    assert_eq!(u64_to_decimal(u64::MAX), u64::MAX.to_string());
}

#[test]
fn conditional_of_signed_variables_divides_signed() {
    let mut cfg = ControlFlowGraph::new();
    let mut vartab = Vartable::new();
    let mut errors = Vec::new();
    let ns = empty_contract();
    vartab.add(&ident("a", 0), Type::Primitive(PrimitiveType::Int(8)), &mut errors).unwrap();
    vartab.add(&ident("b", 2), Type::Primitive(PrimitiveType::Int(8)), &mut errors).unwrap();
    let pick = AstExpression::Ternary(
        Loc(0, 9),
        Box::new(AstExpression::BoolLiteral(Loc(0, 1), true)),
        Box::new(AstExpression::Variable(ident("a", 4))),
        Box::new(AstExpression::Variable(ident("b", 6))),
    );
    let e = bin(BinaryOp::Divide, pick, AstExpression::Variable(ident("b", 8)));
    let (r, t) = expression(&e, &mut cfg, &ns, &mut vartab, false, &mut errors).unwrap();
    assert!(matches!(t, Type::Primitive(PrimitiveType::Int(8))));
    assert!(matches!(r, Expression::SDivide(..)));
    assert!(errors.is_empty());
}

#[test]
fn increment_of_signed_variable_compares_signed() {
    let mut cfg = ControlFlowGraph::new();
    let mut vartab = Vartable::new();
    let mut errors = Vec::new();
    let ns = empty_contract();
    vartab.add(&ident("a", 0), Type::Primitive(PrimitiveType::Int(8)), &mut errors).unwrap();
    let e = bin(
        BinaryOp::Less,
        AstExpression::IncDec(Loc(3, 6), IncDecOp::PostIncrement, ident("a", 3)),
        AstExpression::Variable(ident("a", 8)),
    );
    let (r, t) = expression(&e, &mut cfg, &ns, &mut vartab, false, &mut errors).unwrap();
    assert!(matches!(t, Type::Primitive(PrimitiveType::Bool)));
    assert!(matches!(r, Expression::SLess(..)));
    assert!(errors.is_empty());
}
