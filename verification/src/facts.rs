use vstd::prelude::*;
use crate::span::Span;
use crate::symbols::SymbolRef;

verus! {

/// What a named import binds to on the exporting side: a concrete exported
/// name, or the whole module namespace object (`import * as ns`).
#[derive(Clone, Debug)]
pub enum Specifier {
    Star,
    Literal(String),
}

impl Specifier {
    /// Whether this specifier is the literal name `default`.
    pub open spec fn spec_is_default(&self) -> bool {
        match self {
            Specifier::Literal(name) => name@ == "default"@,
            Specifier::Star => false,
        }
    }

    pub fn is_default(&self) -> (r: bool)
        ensures
            r == self.spec_is_default(),
    {
        match self {
            Specifier::Literal(name) => {
                let default_name: String = "default".to_owned();
                name.eq(&default_name)
            },
            Specifier::Star => false,
        }
    }
}

/// How a module reference was written down in the source.
#[derive(Clone, Copy, Debug, PartialEq, Eq, Structural)]
pub enum ImportKind {
    /// A static `import ... from '...'` declaration.
    Import,
    /// An `import('...')` expression.
    DynamicImport,
    /// A CommonJS `require('...')` call.
    Require,
}

impl ImportKind {
    /// Static references constrain execution order; dynamic ones do not.
    pub open spec fn spec_is_static(&self) -> bool {
        match self {
            ImportKind::Import => true,
            ImportKind::Require => true,
            ImportKind::DynamicImport => false,
        }
    }

    pub fn is_static(&self) -> (r: bool)
        ensures
            r == self.spec_is_static(),
    {
        match self {
            ImportKind::Import => true,
            ImportKind::Require => true,
            ImportKind::DynamicImport => false,
        }
    }
}

/// One distinct imported source reference of a module, before cross-module
/// resolution. Records are append-only and referred to by their index.
#[derive(Clone, Debug)]
pub struct ImportRecord {
    /// The requested specifier string, e.g. `./m`.
    pub module_request: String,
    pub kind: ImportKind,
    /// Symbol synthesized up front to hold a namespace-wrapped value of the
    /// imported module, should linking decide one is needed.
    pub namespace_ref: SymbolRef,
    /// A `default` import use was seen against this record.
    pub contains_import_default: bool,
    /// A star (namespace) import use was seen against this record.
    pub contains_import_star: bool,
    /// A bare, side-effect-only import (no specifiers at all).
    pub is_plain_import: bool,
}

impl ImportRecord {
    pub fn new(module_request: String, kind: ImportKind, namespace_ref: SymbolRef) -> (r:
        ImportRecord)
        ensures
            r.module_request == module_request,
            r.kind == kind,
            r.namespace_ref == namespace_ref,
            !r.contains_import_default,
            !r.contains_import_star,
            !r.is_plain_import,
    {
        ImportRecord {
            module_request,
            kind,
            namespace_ref,
            contains_import_default: false,
            contains_import_star: false,
            is_plain_import: false,
        }
    }
}

/// A local binding that takes its value from another module.
#[derive(Clone, Debug)]
pub struct NamedImport {
    /// The name it was imported as, or the whole-namespace marker.
    pub imported: Specifier,
    /// The local symbol the value is bound to.
    pub imported_as: SymbolRef,
    /// Source location of the imported name.
    pub span_imported: Span,
    /// The import record the binding came from.
    pub record_id: usize,
}

/// An export name bound to a module-local symbol.
#[derive(Clone, Copy, Debug, PartialEq, Eq, Structural)]
pub struct LocalExport {
    pub referenced: SymbolRef,
}

/// A symbol referenced by a statement: either the bare binding or a
/// member-access chain rooted at it (`obj.a.b`, recorded as the suffix).
#[derive(Clone, Debug)]
pub enum SymbolOrMemberExprRef {
    Symbol(SymbolRef),
    MemberExpr(SymbolRef, Vec<String>),
}

/// Dependency bookkeeping for one top-level statement. Index 0 of a module's
/// statement list is reserved for the pseudo-statement that constructs the
/// module namespace object.
#[derive(Clone, Debug)]
pub struct StmtInfo {
    /// Position in the module body, `None` for the reserved pseudo-statement.
    pub stmt_idx: Option<usize>,
    pub declared_symbols: Vec<SymbolRef>,
    pub referenced_symbols: Vec<SymbolOrMemberExprRef>,
    pub import_records: Vec<usize>,
}

impl StmtInfo {
    pub fn new_empty() -> (r: StmtInfo)
        ensures
            r.stmt_idx is None,
            r.declared_symbols@.len() == 0,
            r.referenced_symbols@.len() == 0,
            r.import_records@.len() == 0,
    {
        StmtInfo {
            stmt_idx: None,
            declared_symbols: Vec::new(),
            referenced_symbols: Vec::new(),
            import_records: Vec::new(),
        }
    }

    pub fn new_at(idx: usize) -> (r: StmtInfo)
        ensures
            r.stmt_idx == Some(idx),
            r.declared_symbols@.len() == 0,
            r.referenced_symbols@.len() == 0,
            r.import_records@.len() == 0,
    {
        StmtInfo {
            stmt_idx: Some(idx),
            declared_symbols: Vec::new(),
            referenced_symbols: Vec::new(),
            import_records: Vec::new(),
        }
    }
}

/// Classification of a module's export surface, decided once after the scan.
#[derive(Clone, Copy, Debug, PartialEq, Eq, Structural)]
pub enum ExportsKind {
    NoExports,
    Esm,
    CommonJs,
}

/// The module format declared by or inferred for a module before scanning.
#[derive(Clone, Copy, Debug, PartialEq, Eq, Structural)]
pub enum ModuleDefFormat {
    Cjs,
    CjsPackageJson,
    EsmMjs,
    EsmPackageJson,
    Unknown,
}

/// How the value of one dynamic import is used: wholly, or only through an
/// explicit set of named exports read off the imported namespace.
#[derive(Clone, Debug)]
pub enum DynamicImportUse {
    All,
    Partial(Vec<String>),
}

/// A non-fatal diagnostic. Both variants let the build proceed.
#[derive(Clone, Debug)]
pub enum BuildWarning {
    /// A write to a binding declared immutable, one per write site.
    ForbidConstAssign {
        filename: String,
        symbol_name: String,
        declared_span: Span,
        write_span: Span,
    },
    /// A circular static-import chain, named by the involved modules'
    /// source identifiers.
    CircularDependency { paths: Vec<String> },
}

} // verus!
