use solang::ast::{EnumDefinition, Identifier, Loc, PrimitiveType};
use solang::namespace;
use solang::output::{Level, Output};
use solang::resolver;

fn ident(name: &str) -> Identifier {
    Identifier { loc: Loc(0, 0), name: name.to_string() }
}

#[test]
fn resolver_enum_256values_is_uint8() {
    let mut e = EnumDefinition { doc: Vec::new(), name: ident("foo"), values: Vec::new() };

    e.values.push(ident("first"));

    let f = namespace::enum_decl(&e, &mut Vec::new());
    assert_eq!(f.ty, PrimitiveType::Uint(8));

    for i in 1..256 {
        e.values.push(ident(&format!("val{}", i)));
    }

    assert_eq!(e.values.len(), 256);

    let r = namespace::enum_decl(&e, &mut Vec::new());
    assert_eq!(r.ty, PrimitiveType::Uint(8));

    e.values.push(ident("another"));

    let r2 = namespace::enum_decl(&e, &mut Vec::new());
    assert_eq!(r2.ty, PrimitiveType::Uint(16));
}

#[test]
fn mod_enum_256values_is_uint8() {
    let mut e = EnumDefinition { doc: Vec::new(), name: ident("foo"), values: Vec::new() };

    e.values.push(ident("first"));

    let f = resolver::enum_decl(&e, &mut Vec::new());
    assert_eq!(f.ty, PrimitiveType::Uint(8));

    for i in 1..256 {
        e.values.push(ident(&format!("val{}", i)));
    }

    assert_eq!(e.values.len(), 256);

    let r = resolver::enum_decl(&e, &mut Vec::new());
    assert_eq!(r.ty, PrimitiveType::Uint(8));

    e.values.push(ident("another"));

    let r2 = resolver::enum_decl(&e, &mut Vec::new());
    assert_eq!(r2.ty, PrimitiveType::Uint(16));
}

#[test]
fn types_enum_256values_is_uint8() {
    let mut e = EnumDefinition { doc: Vec::new(), name: ident("foo"), values: Vec::new() };
    let mut errors: Vec<Output> = Vec::new();

    e.values.push(ident("first"));

    let d = resolver::enum_decl(&e, &mut errors);
    assert_eq!(d.name, "foo");
    assert_eq!(d.ty, PrimitiveType::Uint(8));

    for i in 1..256 {
        e.values.push(ident(&format!("val{}", i)));
    }

    assert_eq!(e.values.len(), 256);

    e.name.name = "foo2".to_owned();
    let d = resolver::enum_decl(&e, &mut errors);
    assert_eq!(d.name, "foo2");
    assert_eq!(d.ty, PrimitiveType::Uint(8));

    e.values.push(ident("another"));

    e.name.name = "foo3".to_owned();
    let d = resolver::enum_decl(&e, &mut errors);
    assert_eq!(d.name, "foo3");
    assert_eq!(d.ty, PrimitiveType::Uint(16));
    assert!(errors.is_empty());
}

#[test]
fn enum_duplicate_value_is_an_error() {
    let mut e = EnumDefinition { doc: Vec::new(), name: ident("e"), values: Vec::new() };
    e.values.push(Identifier { loc: Loc(1, 2), name: "a".to_string() });
    e.values.push(Identifier { loc: Loc(3, 4), name: "b".to_string() });
    e.values.push(Identifier { loc: Loc(5, 6), name: "a".to_string() });
    let mut errors: Vec<Output> = Vec::new();
    let d = resolver::enum_decl(&e, &mut errors);
    assert_eq!(d.values.len(), 2);
    assert_eq!(d.values[0].0, "a");
    assert_eq!(d.values[0].2, 0);
    assert_eq!(d.values[1].0, "b");
    assert_eq!(d.values[1].2, 1);
    assert_eq!(errors.len(), 1);
    assert_eq!(errors[0].level, Level::Error);
    assert_eq!(errors[0].pos, Loc(5, 6));
    assert_eq!(errors[0].message, "duplicate enum value a");
    assert_eq!(errors[0].notes.len(), 1);
    assert_eq!(errors[0].notes[0].pos, Loc(1, 2));
    assert_eq!(errors[0].notes[0].message, "location of previous definition");
}
