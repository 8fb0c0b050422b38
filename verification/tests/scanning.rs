use linkcore::{
    AstScanner, AstScopes, BuildWarning, Declaration, DynamicImportMention, DynamicImportUse,
    ExportAllDecl, ExportDefaultDecl, ExportDefaultKind, ExportNamedDecl, ExportSpecifier,
    ExportsKind, ImportDecl, ImportKind, ImportSpecifier, ModuleDecl, ModuleDefFormat, PlainStmt,
    Program, RefSite, Span, Specifier, SymbolRef, SymbolTable, TopLevelStmt,
};

fn empty_scopes() -> AstScopes {
    AstScopes {
        root_scope_id: 0,
        root_binding_names: vec![],
        root_binding_symbols: vec![],
        references: vec![],
    }
}

fn scanner(module_type: ModuleDefFormat) -> AstScanner {
    AstScanner::new(
        0,
        empty_scopes(),
        SymbolTable::new(),
        "mod".to_owned(),
        module_type,
        "mod.js".to_owned(),
    )
}

fn plain() -> PlainStmt {
    PlainStmt {
        declared: vec![],
        references: vec![],
        uses_exports_ref: false,
        uses_module_ref: false,
        dynamic_usages: vec![],
        dynamic_imports: vec![],
    }
}

#[test]
fn scanner_synthesizes_default_and_namespace_bindings() {
    let s = scanner(ModuleDefFormat::Unknown);
    assert_eq!(s.result.default_export_ref, SymbolRef { owner: 0, symbol: 0 });
    assert_eq!(s.namespace_object_ref, SymbolRef { owner: 0, symbol: 1 });
    assert_eq!(s.symbols.names[0], "mod_default");
    assert_eq!(s.symbols.names[1], "mod_ns");
    assert_eq!(s.result.stmt_infos.len(), 1);
    assert!(s.result.stmt_infos[0].stmt_idx.is_none());
}

#[test]
fn export_star_as_alias_makes_one_import_and_one_export() {
    // export * as ns from './m'
    let program = Program {
        body: vec![TopLevelStmt::Module(ModuleDecl::ExportAll(ExportAllDecl {
            span: Span::new(0, 25),
            source: "./m".to_owned(),
            exported: Some("ns".to_owned()),
        }))],
    };
    let (result, symbols) = scanner(ModuleDefFormat::Unknown).scan(&program);
    assert_eq!(result.import_records.len(), 1);
    assert_eq!(result.import_records[0].module_request, "./m");
    assert!(result.import_records[0].contains_import_star);
    assert_eq!(result.named_imports.len(), 1);
    let (key, import) = &result.named_imports[0];
    assert!(matches!(import.imported, Specifier::Star));
    assert_eq!(import.record_id, 0);
    assert_eq!(import.imported_as, *key);
    assert_eq!(result.named_exports.len(), 1);
    assert_eq!(result.named_exports[0].0, "ns");
    assert_eq!(result.named_exports[0].1.referenced, *key);
    // the synthesized binding carries the alias name
    assert_eq!(symbols.names[key.symbol as usize], "ns");
    assert_eq!(result.exports_kind, ExportsKind::Esm);
}

#[test]
fn export_star_without_alias_lands_in_star_exports() {
    let program = Program {
        body: vec![TopLevelStmt::Module(ModuleDecl::ExportAll(ExportAllDecl {
            span: Span::new(0, 20),
            source: "./m".to_owned(),
            exported: None,
        }))],
    };
    let (result, _) = scanner(ModuleDefFormat::Unknown).scan(&program);
    assert_eq!(result.star_exports, vec![0]);
    assert!(result.named_imports.is_empty());
    assert!(result.named_exports.is_empty());
}

#[test]
fn re_export_goes_through_a_synthesized_symbol() {
    // export { x as y } from './m'
    let program = Program {
        body: vec![TopLevelStmt::Module(ModuleDecl::ExportNamed(ExportNamedDecl {
            span: Span::new(0, 30),
            source: Some("./m".to_owned()),
            specifiers: vec![ExportSpecifier {
                exported: "y".to_owned(),
                local: "x".to_owned(),
                local_span: Span::new(9, 10),
            }],
            declaration: None,
        }))],
    };
    let (result, symbols) = scanner(ModuleDefFormat::Unknown).scan(&program);
    assert_eq!(result.named_imports.len(), 1);
    let (key, import) = &result.named_imports[0];
    match &import.imported {
        Specifier::Literal(name) => assert_eq!(name, "x"),
        other => panic!("unexpected specifier {other:?}"),
    }
    assert_eq!(import.record_id, 0);
    assert_eq!(result.named_exports.len(), 1);
    assert_eq!(result.named_exports[0].0, "y");
    // the export references the synthesized symbol, never './m''s own `x`
    assert_eq!(result.named_exports[0].1.referenced, *key);
    assert_eq!(symbols.names[key.symbol as usize], "y");
    assert!(!result.import_records[0].contains_import_default);
}

#[test]
fn default_import_flags_the_record() {
    // import d from './m'
    let program = Program {
        body: vec![TopLevelStmt::Module(ModuleDecl::Import(ImportDecl {
            span: Span::new(0, 20),
            source: "./m".to_owned(),
            specifiers: Some(vec![ImportSpecifier::Default {
                local: 2,
                span: Span::new(7, 8),
            }]),
        }))],
    };
    let (result, _) = scanner(ModuleDefFormat::Unknown).scan(&program);
    assert!(result.import_records[0].contains_import_default);
    assert!(!result.import_records[0].is_plain_import);
    match &result.named_imports[0].1.imported {
        Specifier::Literal(name) => assert_eq!(name, "default"),
        other => panic!("unexpected specifier {other:?}"),
    }
}

#[test]
fn bare_import_is_plain() {
    let program = Program {
        body: vec![TopLevelStmt::Module(ModuleDecl::Import(ImportDecl {
            span: Span::new(0, 12),
            source: "./m".to_owned(),
            specifiers: None,
        }))],
    };
    let (result, _) = scanner(ModuleDefFormat::Unknown).scan(&program);
    assert!(result.import_records[0].is_plain_import);
}

#[test]
fn export_kind_follows_the_precedence_ladder() {
    // format hint alone: ESM-by-extension with no statements resolves to Esm
    let (r1, _) = scanner(ModuleDefFormat::EsmMjs).scan(&Program { body: vec![] });
    assert_eq!(r1.exports_kind, ExportsKind::Esm);
    // no hint, no export syntax, but a module.exports-style reference: CommonJs
    let mut cjs_stmt = plain();
    cjs_stmt.uses_module_ref = true;
    let (r2, _) = scanner(ModuleDefFormat::Unknown)
        .scan(&Program { body: vec![TopLevelStmt::Plain(cjs_stmt)] });
    assert_eq!(r2.exports_kind, ExportsKind::CommonJs);
    // explicit `export default 1` wins over a CommonJS format hint
    let program = Program {
        body: vec![TopLevelStmt::Module(ModuleDecl::ExportDefault(ExportDefaultDecl {
            span: Span::new(0, 16),
            kind: ExportDefaultKind::Expression,
        }))],
    };
    let (r3, _) = scanner(ModuleDefFormat::Cjs).scan(&program);
    assert_eq!(r3.exports_kind, ExportsKind::Esm);
    // nothing at all: no exports
    let (r4, _) = scanner(ModuleDefFormat::Unknown).scan(&Program { body: vec![] });
    assert_eq!(r4.exports_kind, ExportsKind::NoExports);
    // only an import keyword, with no format hint: Esm
    let program5 = Program {
        body: vec![TopLevelStmt::Module(ModuleDecl::Import(ImportDecl {
            span: Span::new(0, 12),
            source: "./m".to_owned(),
            specifiers: None,
        }))],
    };
    let (r5, _) = scanner(ModuleDefFormat::Unknown).scan(&program5);
    assert_eq!(r5.exports_kind, ExportsKind::Esm);
}

#[test]
fn export_default_expression_uses_the_synthesized_binding() {
    let program = Program {
        body: vec![TopLevelStmt::Module(ModuleDecl::ExportDefault(ExportDefaultDecl {
            span: Span::new(0, 16),
            kind: ExportDefaultKind::Expression,
        }))],
    };
    let (result, _) = scanner(ModuleDefFormat::Unknown).scan(&program);
    assert_eq!(result.named_exports.len(), 1);
    assert_eq!(result.named_exports[0].0, "default");
    assert_eq!(result.named_exports[0].1.referenced, result.default_export_ref);
    // the binding is recorded as declared by that statement
    assert_eq!(
        result.stmt_infos[1].declared_symbols,
        vec![result.default_export_ref]
    );
}

#[test]
fn exported_declarations_export_their_names() {
    // export const a = ..., b = ...
    let mut symbols = SymbolTable::new();
    symbols.create_symbol("a".to_owned(), 0);
    symbols.create_symbol("b".to_owned(), 0);
    let s = AstScanner::new(
        0,
        empty_scopes(),
        symbols,
        "mod".to_owned(),
        ModuleDefFormat::Unknown,
        "mod.js".to_owned(),
    );
    let program = Program {
        body: vec![TopLevelStmt::Module(ModuleDecl::ExportNamed(ExportNamedDecl {
            span: Span::new(0, 24),
            source: None,
            specifiers: vec![],
            declaration: Some(Declaration::Variable {
                ids: vec![("a".to_owned(), 0), ("b".to_owned(), 1)],
            }),
        }))],
    };
    let (result, _) = s.scan(&program);
    assert_eq!(result.named_exports.len(), 2);
    assert_eq!(result.named_exports[0].0, "a");
    assert_eq!(result.named_exports[1].0, "b");
}

#[test]
fn dynamic_import_usage_is_rekeyed_by_record() {
    // import('./m').then(r => r.a): partial usage keyed to ./m's record
    let span = Span::new(4, 14);
    let mut stmt = plain();
    stmt.dynamic_usages = vec![(span, DynamicImportUse::Partial(vec!["a".to_owned()]))];
    stmt.dynamic_imports = vec![DynamicImportMention {
        span,
        specifier: "./m".to_owned(),
    }];
    let (result, _) = scanner(ModuleDefFormat::Unknown)
        .scan(&Program { body: vec![TopLevelStmt::Plain(stmt)] });
    assert_eq!(result.import_records.len(), 1);
    assert_eq!(result.import_records[0].kind, ImportKind::DynamicImport);
    assert_eq!(result.normalized_dynamic_import_usage.len(), 1);
    let (rec, usage) = &result.normalized_dynamic_import_usage[0];
    assert_eq!(*rec, 0);
    match usage {
        DynamicImportUse::Partial(names) => assert_eq!(names, &vec!["a".to_owned()]),
        other => panic!("unexpected usage {other:?}"),
    }
}

#[test]
fn bare_dynamic_import_defaults_to_all() {
    let span = Span::new(4, 14);
    let mut stmt = plain();
    stmt.dynamic_imports = vec![DynamicImportMention {
        span,
        specifier: "./m".to_owned(),
    }];
    let (result, _) = scanner(ModuleDefFormat::Unknown)
        .scan(&Program { body: vec![TopLevelStmt::Plain(stmt)] });
    assert_eq!(result.normalized_dynamic_import_usage.len(), 1);
    assert!(matches!(
        result.normalized_dynamic_import_usage[0],
        (0, DynamicImportUse::All)
    ));
}

#[test]
fn writes_to_an_immutable_binding_warn_per_site() {
    let mut symbols = SymbolTable::new();
    symbols.create_symbol("k".to_owned(), 0);
    symbols.is_const[0] = true;
    symbols.spans[0] = Span::new(6, 7);
    let scopes = AstScopes {
        root_scope_id: 0,
        root_binding_names: vec!["k".to_owned()],
        root_binding_symbols: vec![0],
        references: vec![vec![
            RefSite { span: Span::new(20, 21), is_write: true },
            RefSite { span: Span::new(30, 31), is_write: false },
            RefSite { span: Span::new(40, 41), is_write: true },
        ]],
    };
    let s = AstScanner::new(
        0,
        scopes,
        symbols,
        "mod".to_owned(),
        ModuleDefFormat::Unknown,
        "mod.js".to_owned(),
    );
    let mut stmt = plain();
    stmt.references = vec![linkcore::ReferenceFact {
        resolved: Some(0),
        member_chain: vec![],
    }];
    let (result, _) = s.scan(&Program { body: vec![TopLevelStmt::Plain(stmt)] });
    // one warning per write site, each carrying both locations; the scan
    // still completed
    assert_eq!(result.warnings.len(), 2);
    for (w, expected) in result.warnings.iter().zip([Span::new(20, 21), Span::new(40, 41)]) {
        match w {
            BuildWarning::ForbidConstAssign { filename, symbol_name, declared_span, write_span } => {
                assert_eq!(filename, "mod.js");
                assert_eq!(symbol_name, "k");
                assert_eq!(*declared_span, Span::new(6, 7));
                assert_eq!(*write_span, expected);
            }
            other => panic!("unexpected warning {other:?}"),
        }
    }
    assert_eq!(result.exports_kind, ExportsKind::NoExports);
}
