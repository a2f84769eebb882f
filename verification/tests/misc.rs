use solang::ast::{HexLiteral, Identifier, Loc, PrimitiveType, StringLiteral, Type as AstType};
use solang::bignum::BigNum;
use solang::codegen::HashTy;
use solang::emit::{EthAbiEncoder, SubstrateTarget};
use solang::namespace::{ContractNameSpace, Symbol as NsSymbol, TypeName};
use solang::output::{Level, Output};
use solang::resolver::cfg::{ControlFlowGraph, Expression};
use solang::resolver::expression::{hex_literal, string_literal};
use solang::resolver::{Contract, EnumDecl, StructDecl, StructField, Type};
use solang::Target;

fn empty_contract() -> Contract {
    Contract {
        doc: Vec::new(),
        name: String::from("c"),
        enums: Vec::new(),
        structs: Vec::new(),
        constructors: Vec::new(),
        functions: Vec::new(),
        variables: Vec::new(),
        constants: Vec::new(),
        initializer: ControlFlowGraph::new(),
        target: Target::Substrate,
        top_of_contract_storage: 0,
        symbols: Vec::new(),
    }
}

fn big(n: u64) -> BigNum {
    BigNum::from_u64(n)
}

#[test]
fn target_names() {
    assert_eq!(Target::Substrate.to_string(), "Substrate");
    assert_eq!(Target::Ewasm.to_string(), "ewasm");
    assert_eq!(Target::Sabre.to_string(), "Sawtooth Sabre");
}

#[test]
fn hash_names() {
    assert_eq!(HashTy::Keccak256.to_string(), "keccak256");
    assert_eq!(HashTy::Ripemd160.to_string(), "ripemd160");
    assert_eq!(HashTy::Sha256.to_string(), "sha256");
    assert_eq!(HashTy::Blake2_256.to_string(), "blake2_256");
    assert_eq!(HashTy::Blake2_128.to_string(), "blake2_128");
}

#[test]
fn eth_fixed_lengths() {
    let mut c = empty_contract();
    c.structs.push(StructDecl {
        name: "S".to_string(),
        fields: vec![
            StructField { name: "a".to_string(), loc: Loc(0, 0), ty: Type::Primitive(PrimitiveType::Uint(8)) },
            StructField { name: "b".to_string(), loc: Loc(0, 0), ty: Type::Primitive(PrimitiveType::String) },
        ],
    });
    let enc = EthAbiEncoder {};
    assert_eq!(enc.encoded_fixed_length(&Type::Primitive(PrimitiveType::Bool), &c), 32);
    assert_eq!(enc.encoded_fixed_length(&Type::Primitive(PrimitiveType::DynamicBytes), &c), 32);
    assert_eq!(enc.encoded_fixed_length(&Type::FixedArray(Box::new(Type::Primitive(PrimitiveType::Uint(8))), vec![big(3)]), &c), 96);
    assert_eq!(enc.encoded_fixed_length(&Type::Struct(0), &c), 64);
    assert_eq!(enc.encoded_fixed_length(&Type::FixedArray(Box::new(Type::Struct(0)), vec![big(2), big(5)]), &c), 640);
}

#[test]
fn substrate_lengths() {
    let mut c = empty_contract();
    c.enums.push(EnumDecl { name: "E".to_string(), ty: PrimitiveType::Uint(16), values: Vec::new() });
    c.structs.push(StructDecl {
        name: "S".to_string(),
        fields: vec![
            StructField { name: "a".to_string(), loc: Loc(0, 0), ty: Type::Primitive(PrimitiveType::Address) },
            StructField { name: "b".to_string(), loc: Loc(0, 0), ty: Type::Primitive(PrimitiveType::Bytes(4)) },
        ],
    });
    let t = SubstrateTarget {};
    assert_eq!(t.encoded_length(&Type::Primitive(PrimitiveType::Bool), &c), 1);
    assert_eq!(t.encoded_length(&Type::Primitive(PrimitiveType::Int(32)), &c), 4);
    assert_eq!(t.encoded_length(&Type::Enum(0), &c), 2);
    assert_eq!(t.encoded_length(&Type::Struct(0), &c), 24);
    assert_eq!(t.encoded_length(&Type::FixedArray(Box::new(Type::Primitive(PrimitiveType::Uint(16))), vec![big(2), big(3)]), &c), 12);
}

#[test]
fn string_literals_are_unescaped() {
    let mut errors: Vec<Output> = Vec::new();
    let v = vec![
        StringLiteral { loc: Loc(0, 0), string: "a\\n".to_string() },
        StringLiteral { loc: Loc(0, 0), string: "b".to_string() },
    ];
    match string_literal(&v, &mut errors) {
        Ok((Expression::BytesLiteral(b), Type::Primitive(PrimitiveType::Bytes(n)))) => {
            assert_eq!(b, vec![b'a', b'\n', b'b']);
            assert_eq!(n, 3);
        },
        _ => panic!("bytes literal expected"),
    }
    let bad = vec![StringLiteral { loc: Loc(4, 5), string: "\\q".to_string() }];
    assert!(string_literal(&bad, &mut errors).is_err());
    assert_eq!(errors.len(), 1);
    assert_eq!(errors[0].level, Level::Error);
    assert_eq!(errors[0].pos, Loc(4, 5));
}

#[test]
fn hex_literals_are_decoded() {
    let mut errors: Vec<Output> = Vec::new();
    let v = vec![HexLiteral { loc: Loc(0, 0), hex: "41ff".to_string() }];
    match hex_literal(&v, &mut errors) {
        Ok((Expression::BytesLiteral(b), Type::Primitive(PrimitiveType::Bytes(n)))) => {
            assert_eq!(b, vec![0x41, 0xff]);
            assert_eq!(n, 2);
        },
        _ => panic!("bytes literal expected"),
    }
    assert!(errors.is_empty());
}

#[test]
fn namespace_type_names() {
    let mut ns = ContractNameSpace { name: "c".to_string(), enums: Vec::new(), functions: Vec::new(), symbols: Vec::new() };
    ns.enums.push(EnumDecl { name: "E".to_string(), ty: PrimitiveType::Uint(8), values: Vec::new() });
    let mut errors: Vec<Output> = Vec::new();
    ns.add_symbol(&Identifier { loc: Loc(1, 2), name: "E".to_string() }, NsSymbol::Enum(Loc(1, 2), 0), &mut errors);
    assert!(errors.is_empty());
    assert_eq!(TypeName::Enum(0).to_string(&ns), "enum E");
    assert_eq!(TypeName::Elementary(PrimitiveType::Int(24)).to_string(&ns), "int24");
    assert_eq!(TypeName::Elementary(PrimitiveType::Bytes(4)).bits(), 32);
    assert!(TypeName::Elementary(PrimitiveType::Int(8)).signed());
    assert!(!TypeName::Enum(0).signed());
    assert!(TypeName::Elementary(PrimitiveType::Uint(8)).ordered());
    assert!(!TypeName::Enum(0).ordered());
    assert_eq!(TypeName::new_bool(), TypeName::Elementary(PrimitiveType::Bool));
    // the name resolves to the enum; an unknown name is an error
    let e = ns.resolve(&AstType::Unresolved(Identifier { loc: Loc(3, 4), name: "E".to_string() }, Vec::new()), &mut errors);
    assert_eq!(e, Some(TypeName::Enum(0)));
    let x = ns.resolve(&AstType::Unresolved(Identifier { loc: Loc(5, 6), name: "X".to_string() }, Vec::new()), &mut errors);
    assert_eq!(x, None);
    assert_eq!(errors[0].message, "`X' is not declared");
    // declaring E again is refused
    ns.add_symbol(&Identifier { loc: Loc(7, 8), name: "E".to_string() }, NsSymbol::Enum(Loc(7, 8), 0), &mut errors);
    assert_eq!(errors[1].message, "E is already defined as enum");
    assert_eq!(errors[1].notes[0].pos, Loc(1, 2));
    ns.check_shadowing(&Identifier { loc: Loc(9, 9), name: "E".to_string() }, &mut errors);
    assert_eq!(errors[2].level, Level::Warning);
    assert_eq!(errors[2].message, "declaration of `E' shadows enum");
    assert_eq!(ns.to_string(), "");
}

#[test]
fn storage_slots_of_types() {
    let mut c = empty_contract();
    c.structs.push(StructDecl {
        name: "S".to_string(),
        fields: vec![
            StructField { name: "a".to_string(), loc: Loc(0, 0), ty: Type::Primitive(PrimitiveType::Uint(8)) },
            StructField { name: "b".to_string(), loc: Loc(0, 0), ty: Type::Primitive(PrimitiveType::Bool) },
        ],
    });
    let one = Type::Primitive(PrimitiveType::Uint(256)).storage_slots(&c);
    assert_eq!(solang::bignum::big_to_u64(&one), Some(1));
    let s = Type::Struct(0).storage_slots(&c);
    assert_eq!(solang::bignum::big_to_u64(&s), Some(2));
    let arr = Type::FixedArray(Box::new(Type::Struct(0)), vec![big(3), big(4)]).storage_slots(&c);
    assert_eq!(solang::bignum::big_to_u64(&arr), Some(24));
}
