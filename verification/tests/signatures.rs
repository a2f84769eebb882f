use solang::ast::{Loc, PrimitiveType, Visibility};
use solang::namespace::{external_signature, ContractNameSpace, TypeName};
use solang::resolver::cfg::ControlFlowGraph;
use solang::resolver::{Contract, FunctionDecl, Parameter, Type};
use solang::Target;

fn empty_contract(target: Target) -> Contract {
    Contract {
        doc: Vec::new(),
        name: String::from("c"),
        enums: Vec::new(),
        structs: Vec::new(),
        constructors: Vec::new(),
        functions: Vec::new(),
        variables: Vec::new(),
        constants: Vec::new(),
        initializer: ControlFlowGraph::new(),
        target,
        top_of_contract_storage: 0,
        symbols: Vec::new(),
    }
}

fn param(ty: Type) -> Parameter {
    Parameter { name: String::new(), ty }
}

#[test]
fn resolver_signatures() {
    let ns = ContractNameSpace {
        name: String::from("foo"),
        enums: Vec::new(),
        functions: Vec::new(),
        symbols: Vec::new(),
    };

    assert_eq!(
        external_signature(
            &Some("foo".to_string()),
            &vec!(
                TypeName::Elementary(PrimitiveType::Uint(8)),
                TypeName::Elementary(PrimitiveType::Address)
            ),
            &ns
        ),
        "foo(uint8,address)"
    );
}

#[test]
fn functions_signatures() {
    let ns = empty_contract(Target::Ewasm);

    let fdecl = FunctionDecl::new(
        Loc(0, 0),
        "foo".to_owned(),
        vec![],
        false,
        Some(0),
        None,
        Visibility::Public(Loc(0, 0)),
        vec![param(Type::Primitive(PrimitiveType::Uint(8))), param(Type::Primitive(PrimitiveType::Address))],
        Vec::new(),
        &ns,
    );

    assert_eq!(fdecl.signature, "foo(uint8,address)");
}

#[test]
fn fallback_signature_is_empty_name() {
    let ns = ContractNameSpace { name: String::from("c"), enums: Vec::new(), functions: Vec::new(), symbols: Vec::new() };
    assert_eq!(external_signature(&None, &Vec::new(), &ns), "()");
}

#[test]
fn selector_is_keccak_of_signature() {
    let ns = empty_contract(Target::Substrate);
    let fdecl = FunctionDecl::new(
        Loc(0, 0),
        "transfer".to_owned(),
        vec![],
        false,
        Some(0),
        None,
        Visibility::Public(Loc(0, 0)),
        vec![param(Type::Primitive(PrimitiveType::Address)), param(Type::Primitive(PrimitiveType::Uint(256)))],
        Vec::new(),
        &ns,
    );
    assert_eq!(fdecl.signature, "transfer(address,uint256)");
    // keccak256("transfer(address,uint256)") starts with a9 05 9c bb
    assert_eq!(fdecl.selector(), 0xbb9c05a9);
}

#[test]
fn wasm_symbol_joins_parameter_types() {
    let ns = empty_contract(Target::Substrate);
    let fdecl = FunctionDecl::new(
        Loc(0, 0),
        "foo".to_owned(),
        vec![],
        false,
        Some(0),
        None,
        Visibility::Public(Loc(0, 0)),
        vec![param(Type::Primitive(PrimitiveType::Uint(8))), param(Type::Primitive(PrimitiveType::Bool))],
        Vec::new(),
        &ns,
    );
    assert_eq!(fdecl.wasm_symbol(&ns), "foo__uint8_bool");
    let bare = FunctionDecl::new(
        Loc(0, 0),
        "bar".to_owned(),
        vec![],
        false,
        None,
        None,
        Visibility::Public(Loc(0, 0)),
        Vec::new(),
        Vec::new(),
        &ns,
    );
    assert_eq!(bare.wasm_symbol(&ns), "bar");
    assert_eq!(bare.signature, "bar()");
}

#[test]
fn wasm_return_only_for_single_stack_value() {
    let ns = empty_contract(Target::Substrate);
    let one = FunctionDecl::new(
        Loc(0, 0),
        "f".to_owned(),
        vec![],
        false,
        None,
        None,
        Visibility::Public(Loc(0, 0)),
        Vec::new(),
        vec![param(Type::Primitive(PrimitiveType::Uint(64)))],
        &ns,
    );
    assert!(one.wasm_return);
    let two = FunctionDecl::new(
        Loc(0, 0),
        "g".to_owned(),
        vec![],
        false,
        None,
        None,
        Visibility::Public(Loc(0, 0)),
        Vec::new(),
        vec![param(Type::Primitive(PrimitiveType::Uint(64))), param(Type::Primitive(PrimitiveType::Bool))],
        &ns,
    );
    assert!(!two.wasm_return);
}
