use delink::ida::{generate, IdaFunction, IdaModel, Scope, SymbolDef};

fn function(name: &str, start: u64, size: u64, public: bool) -> IdaFunction {
    IdaFunction {
        name: name.to_string(),
        start,
        size,
        public,
    }
}

#[test]
fn scopes_tell_public_symbols_apart() {
    assert!(Scope::from_public(true).is_global());
    assert!(!Scope::from_public(false).is_global());
    assert_eq!(Scope::from_public(false), Scope::Static);
}

#[test]
fn every_function_with_code_gets_a_file() {
    let model = IdaModel {
        functions: vec![
            function("?f@@YAX", 0x1000, 42, true),
            function("empty", 0x2000, 0, true),
            function("_f__YAX", 0x3000, 8, false),
            function("main", 0x4000, 1, true),
        ],
    };
    let json = generate(&model, "obj");
    let files: Vec<&str> = json.entries.iter().map(|e| e.0.as_str()).collect();
    assert_eq!(files, vec!["f__YAX.obj", "f__YAX@2.obj", "main.obj"]);
    assert!(json.entries.iter().all(|e| e.1.entries.len() == 1));
    assert_eq!(json.entries[0].1.entries[0].0, "?f@@YAX");
    assert_eq!(
        json.entries[0].1.entries[0].1,
        SymbolDef {
            address: 0x1000,
            size: 42,
            scope: Scope::Global
        }
    );
    assert_eq!(json.entries[1].1.entries[0].0, "_f__YAX");
    assert_eq!(json.entries[1].1.entries[0].1.scope, Scope::Static);
}

#[test]
fn functions_of_one_name_get_different_files() {
    let model = IdaModel {
        functions: vec![function("f", 1, 1, true), function("f", 2, 3, false)],
    };
    let json = generate(&model, "o");
    assert_eq!(json.entries.len(), 2);
    assert_eq!(json.entries[0].0, "f.o");
    assert_eq!(json.entries[0].1.entries[0].1.address, 1);
    assert_eq!(json.entries[1].0, "f@1.o");
    assert_eq!(json.entries[1].1.entries[0].1.address, 2);
}
