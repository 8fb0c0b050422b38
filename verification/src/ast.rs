use vstd::prelude::*;
use crate::facts::DynamicImportUse;
use crate::span::Span;

verus! {

/// One import specifier of a static `import` declaration.
#[derive(Clone, Debug)]
pub enum ImportSpecifier {
    /// `import { imported as local }` — the local binding's symbol index and
    /// the name it was imported as.
    Named { local: u32, imported: String, imported_span: Span },
    /// `import local from ...`.
    Default { local: u32, span: Span },
    /// `import * as local from ...`.
    Namespace { local: u32, span: Span },
}

/// `import ... from source`. `specifiers` is `None` for a bare
/// `import 'source'` and `Some` (possibly empty) otherwise.
#[derive(Clone, Debug)]
pub struct ImportDecl {
    pub span: Span,
    pub source: String,
    pub specifiers: Option<Vec<ImportSpecifier>>,
}

/// `export * from source` (no alias) or `export * as name from source`.
#[derive(Clone, Debug)]
pub struct ExportAllDecl {
    pub span: Span,
    pub source: String,
    pub exported: Option<String>,
}

/// One `local as exported` specifier of an `export { ... }` declaration.
/// With a source, `local` is the name imported from it; without one,
/// `local` names a top-level binding.
#[derive(Clone, Debug)]
pub struct ExportSpecifier {
    pub exported: String,
    pub local: String,
    pub local_span: Span,
}

/// A declaration exported by `export <declaration>`.
#[derive(Clone, Debug)]
pub enum Declaration {
    /// Each declared binding's name and symbol index.
    Variable { ids: Vec<(String, u32)> },
    Function { name: String, symbol: u32 },
    Class { name: String, symbol: u32 },
}

/// `export { ... } [from source]` or `export <declaration>`.
#[derive(Clone, Debug)]
pub struct ExportNamedDecl {
    pub span: Span,
    pub source: Option<String>,
    pub specifiers: Vec<ExportSpecifier>,
    pub declaration: Option<Declaration>,
}

/// What follows `export default`: a named or anonymous function or class,
/// or any other expression.
#[derive(Clone, Debug)]
pub enum ExportDefaultKind {
    Expression,
    Function { id: Option<u32> },
    Class { id: Option<u32> },
}

#[derive(Clone, Debug)]
pub struct ExportDefaultDecl {
    pub span: Span,
    pub kind: ExportDefaultKind,
}

/// The module-level declaration shapes the scanner dispatches over; an
/// unrecognized shape cannot arise, the sum type is closed.
#[derive(Clone, Debug)]
pub enum ModuleDecl {
    Import(ImportDecl),
    ExportAll(ExportAllDecl),
    ExportNamed(ExportNamedDecl),
    ExportDefault(ExportDefaultDecl),
}

/// An identifier reference of a plain statement, as the upstream resolution
/// pass reports it: the resolved local symbol (`None` for a global), and the
/// member-access suffix when the reference roots a chain like `obj.a.b`.
#[derive(Clone, Debug)]
pub struct ReferenceFact {
    pub resolved: Option<u32>,
    pub member_chain: Vec<String>,
}

/// One `import('specifier')` expression of a plain statement.
#[derive(Clone, Debug)]
pub struct DynamicImportMention {
    pub span: Span,
    pub specifier: String,
}

/// The dependency facts of a top-level statement that is no module
/// declaration, as the traversal reports them: declared symbols, resolved
/// references, CommonJS interop marker uses, dynamic-import expressions, and
/// the usage derived from how each dynamic import's value is destructured
/// (keyed by the import expression's span, collected before the expression
/// itself is visited).
#[derive(Clone, Debug)]
pub struct PlainStmt {
    pub declared: Vec<u32>,
    pub references: Vec<ReferenceFact>,
    pub uses_exports_ref: bool,
    pub uses_module_ref: bool,
    pub dynamic_usages: Vec<(Span, DynamicImportUse)>,
    pub dynamic_imports: Vec<DynamicImportMention>,
}

/// A top-level statement: a module declaration, or a plain statement with
/// its extracted facts.
#[derive(Clone, Debug)]
pub enum TopLevelStmt {
    Module(ModuleDecl),
    Plain(PlainStmt),
}

/// A parsed module body, one entry per top-level statement.
#[derive(Clone, Debug)]
pub struct Program {
    pub body: Vec<TopLevelStmt>,
}

} // verus!
