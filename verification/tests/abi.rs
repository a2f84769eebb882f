use solang::abi::substrate::{gen_abi, solty_to_scalety, Registry, StorageFieldLayout, StructField, Type as RegType};
use solang::ast::{Loc, PrimitiveType, Visibility};
use solang::resolver::cfg::ControlFlowGraph;
use solang::resolver::{Contract, ContractVariable, ContractVariableType, EnumDecl, FunctionDecl, Parameter, Type};
use solang::Target;

fn empty_contract(target: Target) -> Contract {
    Contract {
        doc: Vec::new(),
        name: String::from("flipper"),
        enums: Vec::new(),
        structs: Vec::new(),
        constructors: Vec::new(),
        functions: Vec::new(),
        variables: Vec::new(),
        constants: Vec::new(),
        initializer: ControlFlowGraph::new(),
        target,
        top_of_contract_storage: 0,
        symbols: Vec::new(),
    }
}

#[test]
fn registry_interns_strings() {
    let mut reg = Registry::new();
    let a = reg.string("foo");
    let b = reg.string("bar");
    let c = reg.string("foo");
    assert_eq!(a, 1);
    assert_eq!(b, 2);
    assert_eq!(c, a);
    assert_eq!(reg.strings.len(), 2);
    assert_eq!(reg.get_str(a), "foo");
    assert_eq!(reg.get_str(b), "bar");
}

#[test]
fn registry_interns_builtin_types() {
    let mut reg = Registry::new();
    let a = reg.builtin_type("u8");
    let s = reg.struct_type("storage", vec![StructField { name: 1, ty: a }]);
    let b = reg.builtin_type("u8");
    let c = reg.builtin_type("bool");
    assert_eq!(a, 1);
    assert_eq!(s, 2);
    assert_eq!(b, 1);
    assert_eq!(c, 3);
    match &reg.types[0] {
        RegType::Builtin { id, def } => {
            assert_eq!(id, "u8");
            assert_eq!(def, "builtin");
        },
        _ => panic!("builtin expected"),
    }
    assert_eq!(reg.get_str(1), "storage");
}

#[test]
fn scale_types_of_solidity_types() {
    let mut c = empty_contract(Target::Substrate);
    c.enums.push(EnumDecl { name: "E".to_string(), ty: PrimitiveType::Uint(16), values: Vec::new() });
    assert_eq!(solty_to_scalety(&Type::Primitive(PrimitiveType::Bool), &c), ("bool".to_string(), 1));
    assert_eq!(solty_to_scalety(&Type::Primitive(PrimitiveType::Uint(32)), &c), ("u32".to_string(), 4));
    assert_eq!(solty_to_scalety(&Type::Primitive(PrimitiveType::Int(64)), &c), ("i64".to_string(), 8));
    assert_eq!(solty_to_scalety(&Type::Enum(0), &c), ("u16".to_string(), 2));
}

#[test]
fn metadata_of_a_contract() {
    let mut c = empty_contract(Target::Substrate);
    c.variables.push(ContractVariable {
        doc: Vec::new(),
        name: "value".to_string(),
        ty: Type::Primitive(PrimitiveType::Bool),
        visibility: Visibility::Private(Loc(0, 0)),
        var: ContractVariableType::Storage(0),
    });
    c.variables.push(ContractVariable {
        doc: Vec::new(),
        name: "limit".to_string(),
        ty: Type::Primitive(PrimitiveType::Uint(64)),
        visibility: Visibility::Private(Loc(0, 0)),
        var: ContractVariableType::Storage(26),
    });
    let ctor = FunctionDecl::new(Loc(0, 0), String::new(), Vec::new(), false, None, None,
        Visibility::Public(Loc(0, 0)),
        vec![Parameter { name: "initvalue".to_string(), ty: Type::Primitive(PrimitiveType::Bool) }],
        Vec::new(), &c);
    c.constructors.push(ctor);
    let get = FunctionDecl::new(Loc(0, 0), "get".to_string(), Vec::new(), false, None,
        Some(solang::ast::StateMutability::View(Loc(0, 0))),
        Visibility::Public(Loc(0, 0)), Vec::new(),
        vec![Parameter { name: String::new(), ty: Type::Primitive(PrimitiveType::Bool) }], &c);
    c.functions.push(get);
    let flip = FunctionDecl::new(Loc(0, 0), "flip".to_string(), Vec::new(), false, None, None,
        Visibility::Public(Loc(0, 0)), Vec::new(), Vec::new(), &c);
    c.functions.push(flip);

    let m = gen_abi(&c);
    assert_eq!(m.registry.get_str(m.contract.name), "flipper");
    assert_eq!(m.contract.constructors.len(), 1);
    assert_eq!(m.registry.get_str(m.contract.constructors[0].name), "new");
    assert_eq!(m.contract.constructors[0].args.len(), 1);
    assert_eq!(m.registry.get_str(m.contract.constructors[0].args[0].name), "initvalue");
    assert_eq!(m.contract.messages.len(), 2);
    assert_eq!(m.registry.get_str(m.contract.messages[0].name), "get");
    assert!(!m.contract.messages[0].mutates);
    assert!(m.contract.messages[0].return_type.is_some());
    assert_eq!(m.registry.get_str(m.contract.messages[1].name), "flip");
    assert!(m.contract.messages[1].mutates);
    assert!(m.contract.messages[1].return_type.is_none());
    assert_eq!(m.contract.messages[1].selector, c.functions[1].selector());

    assert_eq!(m.storage.fields.len(), 1);
    assert_eq!(m.registry.get_str(m.storage.fields[0].name), "Storage");
    match &m.storage.fields[0].layout {
        StorageFieldLayout::Storage(inner) => {
            assert_eq!(inner.ty, m.storage.ty);
            assert_eq!(inner.fields.len(), 2);
            match &inner.fields[1].layout {
                StorageFieldLayout::Field(f) => {
                    assert_eq!(f.offset, format!("0x{:064X}", 26));
                    assert_eq!(f.len, 8);
                },
                _ => panic!("field expected"),
            }
            assert_eq!(m.registry.get_str(inner.fields[1].name), "limit");
        },
        _ => panic!("nested storage expected"),
    }
    assert!(m.get_function("flip").is_some());
    assert_eq!(m.get_function("flip").unwrap().selector, c.functions[1].selector());
    assert!(m.get_function("nope").is_none());
}
