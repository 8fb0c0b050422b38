use linkcore::{ImportKind, ImportRecord, Span, Specifier, SymbolRef, SymbolTable};

#[test]
fn span_carries_bounds() {
    let s = Span::new(3, 9);
    assert_eq!(s.start, 3);
    assert_eq!(s.end, 9);
}

#[test]
fn import_record_starts_clean() {
    let r = ImportRecord::new("./m".to_owned(), ImportKind::Import, SymbolRef::new(0, 1));
    assert!(!r.contains_import_default);
    assert!(!r.contains_import_star);
    assert!(!r.is_plain_import);
    assert!(r.kind.is_static());
}

#[test]
fn dynamic_import_is_not_static() {
    assert!(!ImportKind::DynamicImport.is_static());
    assert!(ImportKind::Require.is_static());
}

#[test]
fn default_specifier_detection() {
    assert!(Specifier::Literal("default".to_owned()).is_default());
    assert!(!Specifier::Literal("other".to_owned()).is_default());
    assert!(!Specifier::Star.is_default());
}

#[test]
fn symbol_table_appends() {
    let mut t = SymbolTable::new();
    let a = t.create_symbol("a".to_owned(), 0);
    let b = t.create_symbol("b".to_owned(), 0);
    assert_eq!(a, 0);
    assert_eq!(b, 1);
    assert_eq!(t.len(), 2);
    assert_eq!(t.get_name(1), "b");
    assert!(!t.is_const_symbol(0));
}
