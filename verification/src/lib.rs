//! Linking core of a module bundler: per-module scanning of import/export
//! facts and a deterministic whole-graph execution-order resolver.

mod ast;
mod facts;
mod link;
mod scanner;
mod span;
mod symbols;
mod text;

pub use facts::{
    BuildWarning, DynamicImportUse, ExportsKind, ImportKind, ImportRecord, LocalExport,
    ModuleDefFormat, NamedImport, Specifier, StmtInfo, SymbolOrMemberExprRef,
};
pub use link::{ExternalModule, LinkStage, ModuleId, ModuleTable, NormalModule, ResolvedImportRecord, EXEC_ORDER_UNSET};
pub use link::{acyclic, distinct_module_sets, has_path, is_cycle, is_path, normal_paths, normals_of, reachable_from_roots, topological_up_to_cycles};
pub use ast::{
    Declaration, DynamicImportMention, ExportAllDecl, ExportDefaultDecl, ExportDefaultKind,
    ExportNamedDecl, ExportSpecifier, ImportDecl, ImportSpecifier, ModuleDecl, PlainStmt, Program,
    ReferenceFact, TopLevelStmt,
};
pub use scanner::{
    body_has_esm_export, body_has_esm_import, body_input_ok, body_symbol_budget, body_uses_cjs,
    body_usage, body_warnings,
    const_assign_warnings, decl_input_ok, decl_symbol_budget, import_spec_entry_matches,
    import_specs_have_default, import_specs_have_star, lookup_name, lookup_span, lookup_symbol,
    export_all_decl_effect, export_default_decl_effect, export_named_decl_effect,
    import_decl_effect, normalize_dynamic_import_usage, plain_ref_warnings,
    reference_entry_matches, resolve_exports_kind, resolved_count, respecs_have_default,
    spec_exports_kind, spec_normalize, stmt_symbol_budget, usage_views, usage_with_defaults,
    uview, AstScanner, ScanResult, UsageView,
};
pub use span::Span;
pub use text::{file_stem_of, path_file_stem, spec_decimal, usize_to_string};
pub use symbols::{lemma_symbols_extends_trans, symbols_extends, AstScopes, RefSite, SymbolRef, SymbolTable};
