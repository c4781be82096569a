use ipdl_parser::ast::{SourceDir, SourceFile};
use ipdl_parser::compiler::compile;
use ipdl_parser::parser::parse;

fn sf(name: &str, text: &str) -> SourceFile {
    SourceFile { name: name.chars().collect(), text: text.chars().collect() }
}

fn dir(files: Vec<SourceFile>) -> SourceDir {
    SourceDir { files }
}

#[test]
fn valid_file_set_compiles() {
    let dirs: Vec<SourceDir> = Vec::new();
    let files = vec![sf(
        "main",
        "using int;\n\
         protocol Ping {\n\
           child async Poke(int n);\n\
           parent sync Ask(int a) returns (int);\n\
         }\n",
    )];
    assert_eq!(compile(&dirs, files), Ok(()));
}

#[test]
fn compiling_twice_succeeds_twice() {
    let dirs: Vec<SourceDir> = Vec::new();
    let text = "using int;\nprotocol P { child async M(int x); }\n";
    let r1 = compile(&dirs, vec![sf("main", text)]);
    let r2 = compile(&dirs, vec![sf("main", text)]);
    assert_eq!(r1, Ok(()));
    assert_eq!(r2, Ok(()));
}

#[test]
fn duplicate_protocol_fails() {
    let dirs: Vec<SourceDir> = Vec::new();
    let files = vec![sf("main", "protocol P { }\nprotocol P { }\n")];
    let err = compile(&dirs, files).unwrap_err();
    assert!(err.contains("multiple declaration"), "{err}");
    assert!(err.contains("P"), "{err}");
}

#[test]
fn duplicate_detected_even_when_identical() {
    let dirs: Vec<SourceDir> = Vec::new();
    let files = vec![sf("main", "struct S { }\nstruct S { }\n")];
    let err = compile(&dirs, files).unwrap_err();
    assert!(err.contains("multiple declaration"), "{err}");
}

#[test]
fn unresolved_parameter_type_fails_and_declaring_it_passes() {
    let dirs: Vec<SourceDir> = Vec::new();
    let bad = vec![sf("main", "protocol P { child async M(Point p); }\n")];
    let err = compile(&dirs, bad).unwrap_err();
    assert!(err.contains("unresolved"), "{err}");
    assert!(err.contains("Point"), "{err}");

    let good = vec![sf(
        "main",
        "struct Point { }\nprotocol P { child async M(Point p); }\n",
    )];
    assert_eq!(compile(&dirs, good), Ok(()));
}

#[test]
fn unresolved_type_declared_in_imported_file_passes() {
    let dirs = vec![dir(vec![sf("defs", "struct Point { }\n")])];
    let files = vec![sf("main", "import defs;\nprotocol P { child async M(Point p); }\n")];
    assert_eq!(compile(&dirs, files), Ok(()));
}

#[test]
fn transition_to_undeclared_state_fails_and_declaring_it_passes() {
    let dirs: Vec<SourceDir> = Vec::new();
    let bad = vec![sf(
        "main",
        "protocol P { state A; child async M() from A goto B; }\n",
    )];
    let err = compile(&dirs, bad).unwrap_err();
    assert!(err.contains("undeclared state"), "{err}");
    assert!(err.contains("B"), "{err}");

    let good = vec![sf(
        "main",
        "protocol P { state A; state B; child async M() from A goto B; }\n",
    )];
    assert_eq!(compile(&dirs, good), Ok(()));
}

#[test]
fn missing_import_fails_and_adding_directory_passes() {
    let empty: Vec<SourceDir> = Vec::new();
    let files = vec![sf("main", "import defs;\n")];
    let err = compile(&empty, files).unwrap_err();
    assert!(err.contains("cannot find file"), "{err}");
    assert!(err.contains("defs"), "{err}");

    let dirs = vec![dir(vec![sf("defs", "struct Point { }\n")])];
    let files = vec![sf("main", "import defs;\n")];
    assert_eq!(compile(&dirs, files), Ok(()));
}

#[test]
fn import_cycles_terminate() {
    let dirs = vec![dir(vec![
        sf("a", "import b;\nstruct A0 { }\n"),
        sf("b", "import a;\nstruct B0 { }\n"),
    ])];
    let files = vec![sf("main", "import a;\nprotocol P { child async M(B0 x); }\n")];
    assert_eq!(compile(&dirs, files), Ok(()));
}

#[test]
fn async_reply_is_rejected_by_the_shape_table() {
    let dirs: Vec<SourceDir> = Vec::new();
    let files = vec![sf(
        "main",
        "using int;\nprotocol P { child async M() returns (int); }\n",
    )];
    let err = compile(&dirs, files).unwrap_err();
    assert!(err.contains("illegal reply or direction"), "{err}");
    assert!(err.contains("M"), "{err}");
}

#[test]
fn sync_towards_child_is_rejected() {
    let dirs: Vec<SourceDir> = Vec::new();
    let files = vec![sf("main", "protocol P { child sync M(); }\n")];
    let err = compile(&dirs, files).unwrap_err();
    assert!(err.contains("illegal reply or direction"), "{err}");
}

#[test]
fn rpc_without_reply_is_rejected() {
    let dirs: Vec<SourceDir> = Vec::new();
    let files = vec![sf("main", "protocol P { parent rpc M(); }\n")];
    let err = compile(&dirs, files).unwrap_err();
    assert!(err.contains("illegal reply or direction"), "{err}");
}

#[test]
fn rpc_with_reply_towards_parent_passes() {
    let dirs: Vec<SourceDir> = Vec::new();
    let files = vec![sf(
        "main",
        "using int;\nprotocol P { parent rpc M() returns (int); }\n",
    )];
    assert_eq!(compile(&dirs, files), Ok(()));
}

#[test]
fn manager_managed_pair_must_be_bidirectional() {
    let dirs: Vec<SourceDir> = Vec::new();
    let good = vec![sf(
        "main",
        "protocol A { manages B; }\nprotocol B { manager A; }\n",
    )];
    assert_eq!(compile(&dirs, good), Ok(()));

    let one_sided = vec![sf("main", "protocol A { manages B; }\nprotocol B { }\n")];
    let err = compile(&dirs, one_sided).unwrap_err();
    assert!(err.contains("inconsistent manager"), "{err}");
}

#[test]
fn syntax_error_reports_unexpected_token() {
    let dirs: Vec<SourceDir> = Vec::new();
    let files = vec![sf("main", "protocol { }\n")];
    let err = compile(&dirs, files).unwrap_err();
    assert!(err.contains("Unexpected token"), "{err}");

    let files = vec![sf("main", "protocol P { child async M(int n) }\n")];
    let err = compile(&dirs, files).unwrap_err();
    assert!(err.contains("Unexpected token"), "{err}");
}

#[test]
fn comments_are_ignored_by_the_grammar() {
    let dirs: Vec<SourceDir> = Vec::new();
    let files = vec![sf(
        "main",
        "// leading comment\nprotocol P { /* inside */ child async M(); }\n",
    )];
    assert_eq!(compile(&dirs, files), Ok(()));
}

#[test]
fn namespaces_separate_scopes() {
    let dirs: Vec<SourceDir> = Vec::new();
    // Same declaration name in two different namespaces is no duplicate.
    let files = vec![
        sf("one", "namespace n1;\nstruct S { }\n"),
        sf("two", "namespace n2;\nstruct S { }\n"),
    ];
    assert_eq!(compile(&dirs, files), Ok(()));
    // In the same namespace, across files, it is.
    let files = vec![
        sf("one", "namespace n;\nstruct S { }\n"),
        sf("two", "namespace n;\nstruct S { }\n"),
    ];
    let err = compile(&dirs, files).unwrap_err();
    assert!(err.contains("multiple declaration"), "{err}");
}

#[test]
fn checker_reports_all_problems_in_order() {
    let dirs: Vec<SourceDir> = Vec::new();
    let files = vec![sf(
        "main",
        "protocol P { child async M(Foo x); child async M2(Bar y); }\n",
    )];
    let err = compile(&dirs, files).unwrap_err();
    let foo = err.find("Foo").unwrap();
    let bar = err.find("Bar").unwrap();
    assert!(foo < bar, "{err}");
}

#[test]
fn error_text_is_stable_across_runs() {
    let dirs: Vec<SourceDir> = Vec::new();
    let text = "protocol P { child async M(Foo x); }\nprotocol P { }\n";
    let e1 = compile(&dirs, vec![sf("main", text)]).unwrap_err();
    let e2 = compile(&dirs, vec![sf("main", text)]).unwrap_err();
    assert_eq!(e1, e2);
}

#[test]
fn parse_gives_units_only_on_success() {
    let dirs: Vec<SourceDir> = Vec::new();
    let units = parse(&dirs, vec![sf("main", "struct S { }\n")]);
    assert!(units.is_some());
    let us = units.unwrap();
    assert_eq!(us.len(), 1);
    assert_eq!(us[0].decls.len(), 1);

    let none = parse(&dirs, vec![sf("main", "struct {\n")]);
    assert!(none.is_none());
}

#[test]
fn parse_returns_transitive_units() {
    let dirs = vec![dir(vec![
        sf("a", "import b;\nstruct A0 { }\n"),
        sf("b", "struct B0 { }\n"),
    ])];
    let units = parse(&dirs, vec![sf("main", "import a;\n")]).unwrap();
    assert_eq!(units.len(), 3);
    let names: Vec<String> = units.iter().map(|u| u.file.iter().collect()).collect();
    assert_eq!(names, vec!["main".to_string(), "a".to_string(), "b".to_string()]);
}

#[test]
fn unresolved_reply_type_fails() {
    let dirs: Vec<SourceDir> = Vec::new();
    let files = vec![sf("main", "protocol P { parent rpc M() returns (Missing); }\n")];
    let err = compile(&dirs, files).unwrap_err();
    assert!(err.contains("unresolved"), "{err}");
    assert!(err.contains("Missing"), "{err}");
}

#[test]
fn unresolved_union_alternative_fails() {
    let dirs: Vec<SourceDir> = Vec::new();
    let files = vec![sf("main", "using int;\nunion U { int; Missing; }\n")];
    let err = compile(&dirs, files).unwrap_err();
    assert!(err.contains("unresolved"), "{err}");
    assert!(err.contains("Missing"), "{err}");
}

#[test]
fn unresolved_managed_protocol_fails() {
    let dirs: Vec<SourceDir> = Vec::new();
    let files = vec![sf("main", "protocol A { manages B; }\n")];
    let err = compile(&dirs, files).unwrap_err();
    assert!(err.contains("unresolved"), "{err}");
    assert!(err.contains("B"), "{err}");
}

#[test]
fn struct_fields_resolve_through_using() {
    let dirs: Vec<SourceDir> = Vec::new();
    let files = vec![sf("main", "using int;\nstruct S { int a; int b; }\n")];
    assert_eq!(compile(&dirs, files), Ok(()));
}

#[test]
fn repeated_manager_line_is_a_syntax_error() {
    let dirs: Vec<SourceDir> = Vec::new();
    let files = vec![sf(
        "main",
        "protocol A { manages B; }\nprotocol B { manager A; manager A; }\n",
    )];
    let err = compile(&dirs, files).unwrap_err();
    assert!(err.contains("Unexpected token"), "{err}");
}
