use genco::js::{collate, import, import_default, local, Tokens, TypeEnum};
use genco::Error;

#[test]
fn named_imports_collate() {
    let mut toks = Tokens::new();
    toks.append(import("collections", "vec"));
    toks.push();
    toks.append(import("collections", "vec").alias("list"));
    assert_eq!(
        vec![
            "import {vec, vec as list} from \"collections\";",
            "",
            "vec",
            "list",
        ],
        toks.to_file_vec().unwrap()
    );
}

#[test]
fn default_and_named_imports() {
    let mut toks = Tokens::new();
    toks.append(import_default("collections", "defaultVec"));
    toks.push();
    toks.append(import("collections", "vec"));
    toks.push();
    toks.append(import("collections", "vec").alias("list"));
    assert_eq!(
        vec![
            "import defaultVec, {vec, vec as list} from \"collections\";",
            "",
            "defaultVec",
            "vec",
            "list",
        ],
        toks.to_file_vec().unwrap()
    );
}

#[test]
fn default_import_alone_has_no_braces() {
    let mut toks = Tokens::new();
    toks.append(import_default("react", "React"));
    toks.append(import_default("react", "React"));
    assert_eq!(
        "import React from \"react\";\n\nReactReact",
        toks.to_file_string().unwrap()
    );
}

#[test]
fn conflicting_default_imports_fail() {
    let mut toks = Tokens::new();
    toks.append(import_default("collections", "a"));
    toks.append(import_default("collections", "b"));
    assert_eq!(
        Err(Error::DefaultConflict {
            module: "collections".to_string(),
            first: "a".to_string(),
            second: "b".to_string(),
        }),
        toks.to_file_string()
    );
}

#[test]
fn modules_in_lexical_order_and_named_in_order() {
    let mut toks = Tokens::new();
    toks.register(TypeEnum::Import(import("b", "z")));
    toks.register(TypeEnum::Import(import("a", "y").alias("w")));
    toks.register(TypeEnum::Import(import("a", "y")));
    toks.register(TypeEnum::Import(import("a", "x").alias("v")));
    toks.register(TypeEnum::Import(import("a", "y")));
    toks.append("body");
    assert_eq!(
        vec![
            "import {x as v, y, y as w} from \"a\";",
            "import {z} from \"b\";",
            "",
            "body",
        ],
        toks.to_file_vec().unwrap()
    );
}

#[test]
fn import_order_does_not_matter() {
    let mut a = Tokens::new();
    a.register(TypeEnum::Import(import("m2", "b")));
    a.register(TypeEnum::ImportDefault(import_default("m1", "D")));
    a.register(TypeEnum::Import(import("m1", "a")));
    let mut b = Tokens::new();
    b.register(TypeEnum::Import(import("m1", "a")));
    b.register(TypeEnum::Import(import("m2", "b")));
    b.register(TypeEnum::ImportDefault(import_default("m1", "D")));
    b.register(TypeEnum::Import(import("m1", "a")));
    let fa = a.to_file_string().unwrap();
    assert_eq!(fa, b.to_file_string().unwrap());
    assert_eq!("import D, {a} from \"m1\";\nimport {b} from \"m2\";", fa);
}

#[test]
fn local_names_are_not_imported() {
    let mut toks = Tokens::new();
    toks.append(local("MyType"));
    assert_eq!(vec!["MyType"], toks.to_file_vec().unwrap());
}

#[test]
fn module_names_are_escaped() {
    let mut toks = Tokens::new();
    toks.append(import("a\"b", "x"));
    assert_eq!(
        "import {x} from \"a\\\"b\";\n\nx",
        toks.to_file_string().unwrap()
    );
}

#[test]
fn body_starting_with_break_keeps_one_empty_line() {
    let mut toks = Tokens::new();
    toks.append(import("m", "x"));
    let mut body = Tokens::new();
    body.line();
    body.append(toks);
    assert_eq!(
        vec!["import {x} from \"m\";", "", "x"],
        body.to_file_vec().unwrap()
    );
}

#[test]
fn collate_groups_by_module() {
    let imports = vec![
        TypeEnum::Import(import("z", "b")),
        TypeEnum::Local(local("skip")),
        TypeEnum::ImportDefault(import_default("a", "A")),
        TypeEnum::Import(import("z", "a")),
        TypeEnum::Import(import("z", "b")),
    ];
    let mods = collate(&imports).unwrap();
    assert_eq!(2, mods.len());
    assert_eq!("a", mods[0].module());
    assert_eq!(Some("A"), mods[0].default_name());
    assert!(mods[0].named().is_empty());
    assert_eq!("z", mods[1].module());
    assert_eq!(None, mods[1].default_name());
    let names: Vec<&str> = mods[1].named().iter().map(|n| n.0.as_str()).collect();
    assert_eq!(vec!["a", "b"], names);
}

#[test]
fn collate_reports_the_conflict() {
    let imports = vec![
        TypeEnum::ImportDefault(import_default("m", "x")),
        TypeEnum::ImportDefault(import_default("m", "x")),
        TypeEnum::ImportDefault(import_default("m", "y")),
    ];
    match collate(&imports) {
        Err(Error::DefaultConflict { module, first, second }) => {
            assert_eq!("m", module);
            assert_eq!("x", first);
            assert_eq!("y", second);
        }
        _ => panic!("expected a conflict"),
    }
}

#[test]
fn named_imports_in_lexical_order_of_names() {
    let mut toks = Tokens::new();
    toks.register(TypeEnum::Import(import("m", "b")));
    toks.register(TypeEnum::Import(import("m", "a").alias("z")));
    assert_eq!("import {a as z, b} from \"m\";", toks.to_file_string().unwrap());
}

#[test]
fn first_conflict_in_walk_order_is_reported() {
    let mut toks = Tokens::new();
    toks.register(TypeEnum::ImportDefault(import_default("z", "a")));
    toks.register(TypeEnum::ImportDefault(import_default("y", "p")));
    toks.register(TypeEnum::ImportDefault(import_default("z", "a")));
    toks.register(TypeEnum::ImportDefault(import_default("y", "q")));
    toks.register(TypeEnum::ImportDefault(import_default("z", "b")));
    toks.register(TypeEnum::ImportDefault(import_default("y", "r")));
    let expected = Err(Error::DefaultConflict {
        module: "y".to_string(),
        first: "p".to_string(),
        second: "q".to_string(),
    });
    assert_eq!(expected, toks.to_file_string());
    assert_eq!(expected, toks.to_file_string());
}
