use solang::ast::{BinaryOp, Loc, PrimitiveType, UnaryOp, Visibility};
use solang::bignum::BigNum;
use solang::output::Output;
use solang::resolver::cast::cast;
use solang::resolver::cfg::{ControlFlowGraph, Expression, Instr, LoopScopes, Vartable};
use solang::resolver::expression::{binary, call, unary};
use solang::resolver::{Contract, FunctionDecl, Parameter, Type};
use solang::Target;

fn empty_contract() -> Contract {
    Contract {
        doc: Vec::new(),
        name: String::from("c"),
        enums: Vec::new(),
        structs: Vec::new(),
        constructors: Vec::new(),
        functions: Vec::new(),
        variables: Vec::new(),
        constants: Vec::new(),
        initializer: ControlFlowGraph::new(),
        target: Target::Substrate,
        top_of_contract_storage: 0,
        symbols: Vec::new(),
    }
}

fn uint(n: u16) -> Type {
    Type::Primitive(PrimitiveType::Uint(n))
}

fn sint(n: u16) -> Type {
    Type::Primitive(PrimitiveType::Int(n))
}

fn var(pos: usize) -> Expression {
    Expression::Variable(Loc(pos, pos), pos)
}

fn apply(op: BinaryOp, lt: Type, rt: Type, errors: &mut Vec<Output>) -> Result<(Expression, Type), ()> {
    let ns = empty_contract();
    binary(&Loc(0, 9), op, var(0), &lt, &Loc(0, 0), var(1), &rt, &Loc(1, 1), &ns, errors)
}

#[test]
fn add_widens_the_narrower_operand() {
    let mut errors = Vec::new();
    let (e, t) = apply(BinaryOp::Add, uint(8), uint(16), &mut errors).unwrap();
    assert!(matches!(t, Type::Primitive(PrimitiveType::Uint(16))));
    match e {
        Expression::Add(a, b) => {
            match *a {
                Expression::ZeroExt(Type::Primitive(PrimitiveType::Uint(16)), x) => {
                    assert!(matches!(*x, Expression::Variable(_, 0)))
                }
                other => panic!("{:?}", other),
            }
            assert!(matches!(*b, Expression::Variable(_, 1)));
        }
        other => panic!("{:?}", other),
    }
    assert!(errors.is_empty());
}

#[test]
fn mixed_signs_meet_in_a_wider_signed_type() {
    let mut errors = Vec::new();
    let (e, t) = apply(BinaryOp::Divide, sint(8), uint(8), &mut errors).unwrap();
    assert!(matches!(t, Type::Primitive(PrimitiveType::Int(16))));
    match e {
        Expression::SDivide(a, b) => {
            assert!(matches!(*a, Expression::SignExt(Type::Primitive(PrimitiveType::Int(16)), _)));
            assert!(matches!(*b, Expression::ZeroExt(Type::Primitive(PrimitiveType::Int(16)), _)));
        }
        other => panic!("{:?}", other),
    }
}

#[test]
fn unsigned_comparison_gives_bool() {
    let mut errors = Vec::new();
    let (e, t) = apply(BinaryOp::Less, uint(32), uint(32), &mut errors).unwrap();
    assert!(matches!(t, Type::Primitive(PrimitiveType::Bool)));
    assert!(matches!(e, Expression::ULess(_, _)));
}

#[test]
fn shift_fits_amount_to_left_operand() {
    let mut errors = Vec::new();
    let (e, t) = apply(BinaryOp::ShiftLeft, uint(8), uint(64), &mut errors).unwrap();
    assert!(matches!(t, Type::Primitive(PrimitiveType::Uint(8))));
    match e {
        Expression::ShiftLeft(a, b) => {
            assert!(matches!(*a, Expression::Variable(_, 0)));
            assert!(matches!(*b, Expression::Trunc(Type::Primitive(PrimitiveType::Uint(8)), _)));
        }
        other => panic!("{:?}", other),
    }
}

#[test]
fn power_of_signed_is_refused() {
    let mut errors = Vec::new();
    assert!(apply(BinaryOp::Power, sint(8), uint(8), &mut errors).is_err());
    assert_eq!(errors.len(), 1);
    assert_eq!(errors[0].message, "exponation (**) is not allowed with signed types");
}

#[test]
fn equal_on_bools_compares_as_is() {
    let mut errors = Vec::new();
    let b = Type::Primitive(PrimitiveType::Bool);
    let (e, t) = apply(BinaryOp::Equal, b, Type::Primitive(PrimitiveType::Bool), &mut errors).unwrap();
    assert!(matches!(t, Type::Primitive(PrimitiveType::Bool)));
    match e {
        Expression::Equal(a, b) => {
            assert!(matches!(*a, Expression::Variable(_, 0)));
            assert!(matches!(*b, Expression::Variable(_, 1)));
        }
        other => panic!("{:?}", other),
    }
}

#[test]
fn add_on_bool_is_refused() {
    let mut errors = Vec::new();
    assert!(apply(BinaryOp::Add, Type::Primitive(PrimitiveType::Bool), uint(8), &mut errors).is_err());
    assert_eq!(errors[0].message, "expression of type bool not allowed");
}

#[test]
fn unary_operators() {
    let ns = empty_contract();
    let mut errors = Vec::new();
    let (e, t) = unary(&Loc(0, 1), UnaryOp::Not, var(0), Type::Primitive(PrimitiveType::Bool), &ns, &mut errors).unwrap();
    assert!(matches!(t, Type::Primitive(PrimitiveType::Bool)));
    match e {
        Expression::Not(x) => assert!(matches!(*x, Expression::Variable(_, 0))),
        other => panic!("{:?}", other),
    }
    let (e, _) = unary(&Loc(0, 1), UnaryOp::UnaryMinus, var(0), sint(8), &ns, &mut errors).unwrap();
    assert!(matches!(e, Expression::UnaryMinus(_)));
    let (e, _) = unary(&Loc(0, 1), UnaryOp::UnaryPlus, var(0), sint(8), &ns, &mut errors).unwrap();
    assert!(matches!(e, Expression::Variable(_, 0)));
    assert!(errors.is_empty());
    assert!(unary(&Loc(0, 1), UnaryOp::Not, var(0), uint(8), &ns, &mut errors).is_err());
    assert_eq!(errors.len(), 1);
}

fn function(name: &str, params: Vec<Type>, returns: Vec<Type>, ns: &Contract) -> FunctionDecl {
    let params = params.into_iter().map(|ty| Parameter { name: String::new(), ty }).collect();
    let returns = returns.into_iter().map(|ty| Parameter { name: String::new(), ty }).collect();
    FunctionDecl::new(Loc(0, 0), name.to_string(), Vec::new(), false, None, None, Visibility::Public(Loc(0, 0)),
        params, returns, ns)
}

#[test]
fn call_picks_first_overload_that_fits() {
    let mut ns = empty_contract();
    let f0 = function("f", vec![Type::Primitive(PrimitiveType::Bool)], vec![], &ns);
    ns.functions.push(f0);
    let f1 = function("f", vec![uint(64)], vec![sint(32)], &ns);
    ns.functions.push(f1);
    let funcs = vec![(Loc(0, 0), 0), (Loc(0, 0), 1)];
    let args = vec![Expression::NumberLiteral(8, BigNum::from_u64(7))];
    let types = vec![uint(8)];
    let mut cfg = ControlFlowGraph::new();
    let mut vartab = Vartable::new();
    let mut errors = Vec::new();
    let (e, t) = call(&Loc(1, 2), &funcs, &args, &types, &mut cfg, &ns, &mut vartab, &mut errors).unwrap();
    assert!(errors.is_empty());
    assert!(matches!(t, Type::Primitive(PrimitiveType::Int(32))));
    let p = match e {
        Expression::Variable(_, p) => p,
        other => panic!("{:?}", other),
    };
    match cfg.bb[cfg.current].instr.last() {
        Some(Instr::Call { res, func, args }) => {
            assert_eq!(*func, 1);
            assert_eq!(res, &vec![p]);
            assert!(matches!(args[0], Expression::NumberLiteral(64, _)));
        }
        other => panic!("{:?}", other),
    }
}

#[test]
fn call_without_fitting_overload() {
    let mut ns = empty_contract();
    let f0 = function("f", vec![Type::Primitive(PrimitiveType::Bool)], vec![], &ns);
    ns.functions.push(f0);
    let f1 = function("f", vec![uint(8), uint(8)], vec![], &ns);
    ns.functions.push(f1);
    let args = vec![var(0)];
    let types = vec![uint(8)];
    let mut cfg = ControlFlowGraph::new();
    let mut vartab = Vartable::new();
    let mut errors = Vec::new();
    let both = vec![(Loc(0, 0), 0), (Loc(0, 0), 1)];
    assert!(call(&Loc(1, 2), &both, &args, &types, &mut cfg, &ns, &mut vartab, &mut errors).is_err());
    assert_eq!(errors.len(), 1);
    assert_eq!(errors[0].message, "cannot find overloaded function which matches signature");
    let only = vec![(Loc(0, 0), 1)];
    assert!(call(&Loc(1, 2), &only, &args, &types, &mut cfg, &ns, &mut vartab, &mut errors).is_err());
    assert_eq!(errors[1].message, "function expects 2 arguments, 1 provided");
}

#[test]
fn call_of_function_without_result() {
    let mut ns = empty_contract();
    let f0 = function("g", vec![], vec![], &ns);
    ns.functions.push(f0);
    let mut cfg = ControlFlowGraph::new();
    let mut vartab = Vartable::new();
    let mut errors = Vec::new();
    let (e, t) = call(&Loc(1, 2), &vec![(Loc(0, 0), 0)], &Vec::new(), &Vec::new(), &mut cfg, &ns, &mut vartab, &mut errors).unwrap();
    assert!(matches!(e, Expression::Poison));
    assert!(matches!(t, Type::Undef));
}

#[test]
fn literal_converts_where_it_fits() {
    let ns = empty_contract();
    let mut errors = Vec::new();
    let lit = |v: u64| Expression::NumberLiteral(16, BigNum::from_u64(v));
    assert!(matches!(cast(&Loc(0, 0), lit(255), &uint(16), &uint(8), true, &ns, &mut errors),
        Ok(Expression::NumberLiteral(8, _))));
    assert!(errors.is_empty());
    assert!(cast(&Loc(0, 0), lit(256), &uint(16), &uint(8), true, &ns, &mut errors).is_err());
    assert_eq!(errors[0].message, "implicit conversion would truncate from uint16 to uint8");
    assert!(matches!(cast(&Loc(0, 0), lit(127), &uint(16), &sint(8), true, &ns, &mut errors),
        Ok(Expression::NumberLiteral(8, _))));
    assert!(cast(&Loc(0, 0), lit(128), &uint(16), &sint(8), true, &ns, &mut errors).is_err());
    let neg = |v: u32| Expression::NumberLiteral(16, BigNum { negative: true, digits: vec![v] });
    assert!(matches!(cast(&Loc(0, 0), neg(128), &sint(16), &sint(8), true, &ns, &mut errors),
        Ok(Expression::NumberLiteral(8, _))));
    assert!(cast(&Loc(0, 0), neg(129), &sint(16), &sint(8), true, &ns, &mut errors).is_err());
}

#[test]
fn loop_scope_counts_rise_by_one() {
    let mut loops = LoopScopes::new();
    loops.new_scope(1, 2);
    loops.new_scope(3, 4);
    assert_eq!(loops.do_break(), Some(3));
    assert_eq!(loops.do_continue(), Some(4));
    let inner = loops.leave_scope();
    assert_eq!((inner.break_bb, inner.continue_bb, inner.no_breaks, inner.no_continues), (3, 4, 1, 1));
    assert_eq!(loops.do_break(), Some(1));
    assert_eq!(LoopScopes::new().do_break(), None);
}
