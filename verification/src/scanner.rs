use vstd::prelude::*;
use vstd::string::StringExecFns;
use crate::ast::{
    Declaration, DynamicImportMention, ExportAllDecl, ExportDefaultDecl, ExportDefaultKind,
    ExportNamedDecl, ExportSpecifier, ImportDecl, ImportSpecifier, ModuleDecl, PlainStmt, Program,
    ReferenceFact, TopLevelStmt,
};
use crate::facts::{
    BuildWarning, DynamicImportUse, ExportsKind, ImportKind, ImportRecord, LocalExport,
    ModuleDefFormat, NamedImport, Specifier, StmtInfo, SymbolOrMemberExprRef,
};
use crate::span::Span;
use crate::symbols::{lemma_symbols_extends_trans, symbols_extends, AstScopes, RefSite, SymbolRef, SymbolTable};
use crate::text::{file_stem_of, path_file_stem, spec_decimal, usize_to_string};

verus! {

/// The live binding of `k` in a record list kept in write order: the latest
/// entry wins, the declared last-write-wins policy for named imports and
/// exports.
pub open spec fn lookup_symbol<V>(s: Seq<(SymbolRef, V)>, k: SymbolRef) -> Option<V>
    decreases s.len(),
{
    if s.len() == 0 {
        None
    } else if s.last().0 == k {
        Some(s.last().1)
    } else {
        lookup_symbol(s.drop_last(), k)
    }
}

/// The live binding of the name `k`, latest entry first.
pub open spec fn lookup_name<V>(s: Seq<(String, V)>, k: Seq<char>) -> Option<V>
    decreases s.len(),
{
    if s.len() == 0 {
        None
    } else if s.last().0@ == k {
        Some(s.last().1)
    } else {
        lookup_name(s.drop_last(), k)
    }
}

/// The live binding of the span `k`, latest entry first.
pub open spec fn lookup_span<V>(s: Seq<(Span, V)>, k: Span) -> Option<V>
    decreases s.len(),
{
    if s.len() == 0 {
        None
    } else if s.last().0 == k {
        Some(s.last().1)
    } else {
        lookup_span(s.drop_last(), k)
    }
}

/// The per-module fact sheet the scanner produces. The keyed collections are
/// kept in write order; the `lookup_*` functions above give the live binding
/// (the latest entry for a key shadows earlier ones).
pub struct ScanResult {
    pub repr_name: String,
    /// Local symbol to the named import that binds it.
    pub named_imports: Vec<(SymbolRef, NamedImport)>,
    /// Export name to the local symbol it refers to.
    pub named_exports: Vec<(String, LocalExport)>,
    /// Index 0 is the reserved namespace-construction pseudo-statement.
    pub stmt_infos: Vec<StmtInfo>,
    /// Append-only; a record's index is its identity.
    pub import_records: Vec<ImportRecord>,
    /// Import records of `export * from ...` declarations.
    pub star_exports: Vec<usize>,
    /// The pre-synthesized binding for `export default <expression>`.
    pub default_export_ref: SymbolRef,
    /// Source span of each import-like construct to its import record.
    pub imports: Vec<(Span, usize)>,
    pub exports_kind: ExportsKind,
    pub warnings: Vec<BuildWarning>,
    /// Dynamic-import usage, re-keyed from spans to import records.
    pub normalized_dynamic_import_usage: Vec<(usize, DynamicImportUse)>,
    /// The span-keyed usage collection the scan gathered, kept for
    /// specification: the normalized map is its image under `spec_normalize`.
    pub collected_usage: Ghost<Seq<(Span, UsageView)>>,
}

/// §4.1's export-kind precedence: explicit export syntax wins over CommonJS
/// interop references, those over the declared format, and a lone ESM import
/// keyword only breaks the tie when no format is known.
pub open spec fn spec_exports_kind(
    saw_esm_export: bool,
    used_exports_or_module: bool,
    format: ModuleDefFormat,
    saw_esm_import: bool,
) -> ExportsKind {
    if saw_esm_export {
        ExportsKind::Esm
    } else if used_exports_or_module {
        ExportsKind::CommonJs
    } else {
        match format {
            ModuleDefFormat::Cjs => ExportsKind::CommonJs,
            ModuleDefFormat::CjsPackageJson => ExportsKind::CommonJs,
            ModuleDefFormat::EsmMjs => ExportsKind::Esm,
            ModuleDefFormat::EsmPackageJson => ExportsKind::Esm,
            ModuleDefFormat::Unknown => if saw_esm_import {
                ExportsKind::Esm
            } else {
                ExportsKind::NoExports
            },
        }
    }
}

pub fn resolve_exports_kind(
    saw_esm_export: bool,
    used_exports_or_module: bool,
    format: ModuleDefFormat,
    saw_esm_import: bool,
) -> (r: ExportsKind)
    ensures
        r == spec_exports_kind(saw_esm_export, used_exports_or_module, format, saw_esm_import),
{
    if saw_esm_export {
        ExportsKind::Esm
    } else if used_exports_or_module {
        ExportsKind::CommonJs
    } else {
        match format {
            ModuleDefFormat::Cjs => ExportsKind::CommonJs,
            ModuleDefFormat::CjsPackageJson => ExportsKind::CommonJs,
            ModuleDefFormat::EsmMjs => ExportsKind::Esm,
            ModuleDefFormat::EsmPackageJson => ExportsKind::Esm,
            ModuleDefFormat::Unknown => {
                if saw_esm_import {
                    ExportsKind::Esm
                } else {
                    ExportsKind::NoExports
                }
            },
        }
    }
}

/// Scans one module's statements into its fact sheet. Owns its inputs: the
/// symbol table it extends with synthesized bindings stays readable through
/// `symbols` after the scan.
pub struct AstScanner {
    pub idx: u32,
    pub module_type: ModuleDefFormat,
    pub file_path: String,
    pub scopes: AstScopes,
    pub symbols: SymbolTable,
    pub current_stmt_info: StmtInfo,
    pub result: ScanResult,
    pub esm_export_keyword: Option<Span>,
    pub esm_import_keyword: Option<Span>,
    /// The synthesized binding for the module namespace object.
    pub namespace_object_ref: SymbolRef,
    pub used_exports_ref: bool,
    pub used_module_ref: bool,
    /// Usage per dynamic-import expression span, before normalization.
    pub dynamic_import_usage: Vec<(Span, DynamicImportUse)>,
}

impl AstScanner {
    pub open spec fn wf(&self) -> bool {
        &&& self.symbols.wf()
        &&& self.scopes.wf()
    }

    /// Builds a scanner over one module's resolved tables, synthesizing the
    /// default-export binding (`<repr_name>_default`) and the module
    /// namespace binding (`<repr_name>_ns`) up front, and reserving
    /// statement slot 0 for the namespace-construction pseudo-statement.
    pub fn new(
        idx: u32,
        scopes: AstScopes,
        mut symbols: SymbolTable,
        repr_name: String,
        module_type: ModuleDefFormat,
        file_path: String,
    ) -> (r: AstScanner)
        requires
            symbols.wf(),
            scopes.wf(),
            symbols.spec_len() + 2 <= u32::MAX,
        ensures
            r.wf(),
            r.idx == idx,
            r.module_type == module_type,
            r.file_path == file_path,
            r.scopes == scopes,
            r.symbols.spec_len() == symbols.spec_len() + 2,
            r.symbols.names@ == symbols.names@.push(r.symbols.names@[symbols.spec_len() as int]).push(
                r.symbols.names@[symbols.spec_len() as int + 1],
            ),
            r.symbols.names@[symbols.spec_len() as int]@ == repr_name@ + "_default"@,
            r.symbols.names@[symbols.spec_len() as int + 1]@ == repr_name@ + "_ns"@,
            r.result.default_export_ref == (SymbolRef { owner: idx, symbol: symbols.spec_len() as u32 }),
            r.namespace_object_ref == (SymbolRef {
                owner: idx,
                symbol: (symbols.spec_len() + 1) as u32,
            }),
            r.result.repr_name == repr_name,
            r.result.named_imports@.len() == 0,
            r.result.named_exports@.len() == 0,
            r.result.stmt_infos@.len() == 1,
            r.result.stmt_infos@[0].stmt_idx is None,
            r.result.stmt_infos@[0].declared_symbols@.len() == 0,
            r.result.stmt_infos@[0].referenced_symbols@.len() == 0,
            r.result.stmt_infos@[0].import_records@.len() == 0,
            r.result.import_records@.len() == 0,
            r.result.star_exports@.len() == 0,
            r.result.imports@.len() == 0,
            r.result.exports_kind == ExportsKind::NoExports,
            r.result.warnings@.len() == 0,
            r.result.normalized_dynamic_import_usage@.len() == 0,
            r.current_stmt_info.stmt_idx is None,
            r.current_stmt_info.declared_symbols@.len() == 0,
            r.current_stmt_info.referenced_symbols@.len() == 0,
            r.current_stmt_info.import_records@.len() == 0,
            r.esm_export_keyword is None,
            r.esm_import_keyword is None,
            !r.used_exports_ref,
            !r.used_module_ref,
            r.dynamic_import_usage@.len() == 0,
    {
        let root = scopes.root_scope_id();
        let default_name = repr_name.clone().concat("_default");
        let default_symbol = symbols.create_symbol(default_name, root);
        let ns_name = repr_name.clone().concat("_ns");
        let ns_symbol = symbols.create_symbol(ns_name, root);
        let mut stmt_infos: Vec<StmtInfo> = Vec::new();
        stmt_infos.push(StmtInfo::new_empty());
        let result = ScanResult {
            repr_name,
            named_imports: Vec::new(),
            named_exports: Vec::new(),
            stmt_infos,
            import_records: Vec::new(),
            star_exports: Vec::new(),
            default_export_ref: SymbolRef { owner: idx, symbol: default_symbol },
            imports: Vec::new(),
            exports_kind: ExportsKind::NoExports,
            warnings: Vec::new(),
            normalized_dynamic_import_usage: Vec::new(),
            collected_usage: Ghost(Seq::empty()),
        };
        AstScanner {
            idx,
            module_type,
            file_path,
            scopes,
            symbols,
            current_stmt_info: StmtInfo::new_empty(),
            result,
            esm_export_keyword: None,
            esm_import_keyword: None,
            namespace_object_ref: SymbolRef { owner: idx, symbol: ns_symbol },
            used_exports_ref: false,
            used_module_ref: false,
            dynamic_import_usage: Vec::new(),
        }
    }

    /// Remembers the first span of ESM export syntax.
    pub fn set_esm_export_keyword(&mut self, span: Span)
        ensures
            final(self).esm_export_keyword == (if old(self).esm_export_keyword is None {
                Some(span)
            } else {
                old(self).esm_export_keyword
            }),
            *final(self) == (AstScanner {
                esm_export_keyword: final(self).esm_export_keyword,
                ..*old(self)
            }),
    {
        if self.esm_export_keyword.is_none() {
            self.esm_export_keyword = Some(span);
        }
    }

    /// Records a symbol as declared by the current statement.
    pub fn add_declared_id(&mut self, id: u32)
        ensures
            final(self).current_stmt_info.declared_symbols@ == old(self).current_stmt_info.declared_symbols@.push(SymbolRef { owner: old(self).idx, symbol: id }),
            final(self).current_stmt_info == (StmtInfo {
                declared_symbols: final(self).current_stmt_info.declared_symbols,
                ..old(self).current_stmt_info
            }),
            *final(self) == (AstScanner {
                current_stmt_info: final(self).current_stmt_info,
                ..*old(self)
            }),
    {
        let r = SymbolRef { owner: self.idx, symbol: id };
        self.current_stmt_info.declared_symbols.push(r);
    }

    /// Looks an exported local name up among the top-level bindings.
    pub fn get_root_binding(&self, name: &String) -> (r: u32)
        requires
            self.wf(),
            self.scopes.spec_has_root_binding(name@),
        ensures
            r == self.scopes.spec_root_binding(name@),
    {
        self.scopes.get_root_binding(name)
    }

    /// Records a symbol as referenced by the current statement.
    pub fn add_referenced_symbol(&mut self, id: u32)
        ensures
            final(self).current_stmt_info.referenced_symbols@ == old(self).current_stmt_info.referenced_symbols@.push(
                SymbolOrMemberExprRef::Symbol(SymbolRef { owner: old(self).idx, symbol: id }),
            ),
            final(self).current_stmt_info == (StmtInfo {
                referenced_symbols: final(self).current_stmt_info.referenced_symbols,
                ..old(self).current_stmt_info
            }),
            *final(self) == (AstScanner {
                current_stmt_info: final(self).current_stmt_info,
                ..*old(self)
            }),
    {
        let r = SymbolOrMemberExprRef::Symbol(SymbolRef { owner: self.idx, symbol: id });
        self.current_stmt_info.referenced_symbols.push(r);
    }

    /// Records a member-access chain rooted at a local symbol as referenced
    /// by the current statement.
    pub fn add_member_expr_reference(&mut self, id: u32, chains: Vec<String>)
        ensures
            final(self).current_stmt_info.referenced_symbols@ == old(self).current_stmt_info.referenced_symbols@.push(
                SymbolOrMemberExprRef::MemberExpr(
                    SymbolRef { owner: old(self).idx, symbol: id },
                    chains,
                ),
            ),
            final(self).current_stmt_info == (StmtInfo {
                referenced_symbols: final(self).current_stmt_info.referenced_symbols,
                ..old(self).current_stmt_info
            }),
            *final(self) == (AstScanner {
                current_stmt_info: final(self).current_stmt_info,
                ..*old(self)
            }),
    {
        let r = SymbolOrMemberExprRef::MemberExpr(
            SymbolRef { owner: self.idx, symbol: id },
            chains,
        );
        self.current_stmt_info.referenced_symbols.push(r);
    }

    /// The symbol a reference resolved to, or `None` for a global.
    pub fn resolve_symbol_from_reference(&self, id_ref: &ReferenceFact) -> (r: Option<u32>)
        ensures
            r == id_ref.resolved,
    {
        id_ref.resolved
    }

    /// Whether a symbol's scope is the module's root scope.
    pub fn is_top_level(&self, symbol_id: u32) -> (r: bool)
        requires
            self.wf(),
            symbol_id < self.symbols.spec_len(),
        ensures
            r == (self.scopes.root_scope_id == self.symbols.scope_ids@[symbol_id as int]),
    {
        self.scopes.root_scope_id() == self.symbols.scope_id_for(symbol_id)
    }
}


/// One warning per write site among `refs`, in site order, each carrying the
/// declaration span and the write span.
pub open spec fn const_assign_warnings(
    filename: String,
    symbol_name: String,
    declared_span: Span,
    refs: Seq<RefSite>,
) -> Seq<BuildWarning>
    decreases refs.len(),
{
    if refs.len() == 0 {
        Seq::empty()
    } else {
        let rest = const_assign_warnings(filename, symbol_name, declared_span, refs.drop_last());
        if refs.last().is_write {
            rest.push(
                BuildWarning::ForbidConstAssign {
                    filename,
                    symbol_name,
                    declared_span,
                    write_span: refs.last().span,
                },
            )
        } else {
            rest
        }
    }
}

impl AstScanner {
    /// Appends one import record for a module reference, synthesizing its
    /// namespace binding (`#LOCAL_NAMESPACE_IN_<stmt>#`) up front, and
    /// charges the record to the current statement.
    pub fn add_import_record(&mut self, module_request: String, kind: ImportKind) -> (id: usize)
        requires
            old(self).wf(),
            old(self).symbols.spec_len() < u32::MAX,
        ensures
            final(self).wf(),
            id == old(self).result.import_records@.len(),
            final(self).result.import_records@ == old(self).result.import_records@.push(
                ImportRecord {
                    module_request,
                    kind,
                    namespace_ref: SymbolRef {
                        owner: old(self).idx,
                        symbol: old(self).symbols.spec_len() as u32,
                    },
                    contains_import_default: false,
                    contains_import_star: false,
                    is_plain_import: false,
                },
            ),
            final(self).current_stmt_info.import_records@ == old(self).current_stmt_info.import_records@.push(id),
            final(self).symbols.spec_len() == old(self).symbols.spec_len() + 1,
            final(self).symbols.names@ == old(self).symbols.names@.push(
                final(self).symbols.names@.last(),
            ),
            symbols_extends(old(self).symbols, final(self).symbols),
            final(self).symbols.names@.last()@ == "#LOCAL_NAMESPACE_IN_"@ + spec_decimal(
                (match old(self).current_stmt_info.stmt_idx {
                    Some(i) => i,
                    None => 0,
                }) as nat,
            ) + "#"@,
            final(self).current_stmt_info == (StmtInfo {
                import_records: final(self).current_stmt_info.import_records,
                ..old(self).current_stmt_info
            }),
            final(self).result == (ScanResult {
                import_records: final(self).result.import_records,
                ..old(self).result
            }),
            *final(self) == (AstScanner {
                symbols: final(self).symbols,
                current_stmt_info: final(self).current_stmt_info,
                result: final(self).result,
                ..*old(self)
            }),
    {
        let stmt_idx = match self.current_stmt_info.stmt_idx {
            Some(i) => i,
            None => 0,
        };
        let num = usize_to_string(stmt_idx);
        let name = "#LOCAL_NAMESPACE_IN_".to_owned().concat(num.as_str()).concat("#");
        let sym = self.symbols.create_symbol(name, self.scopes.root_scope_id());
        let namespace_ref = SymbolRef { owner: self.idx, symbol: sym };
        let rec = ImportRecord::new(module_request, kind, namespace_ref);
        let id = self.result.import_records.len();
        self.result.import_records.push(rec);
        self.current_stmt_info.import_records.push(id);
        id
    }

    /// Binds a local symbol to a name imported from a record.
    pub fn add_named_import(
        &mut self,
        local: u32,
        imported: String,
        record_id: usize,
        span_imported: Span,
    )
        ensures
            final(self).result.named_imports@ == old(self).result.named_imports@.push(
                (
                    SymbolRef { owner: old(self).idx, symbol: local },
                    NamedImport {
                        imported: Specifier::Literal(imported),
                        imported_as: SymbolRef { owner: old(self).idx, symbol: local },
                        span_imported,
                        record_id,
                    },
                ),
            ),
            final(self).result == (ScanResult {
                named_imports: final(self).result.named_imports,
                ..old(self).result
            }),
            *final(self) == (AstScanner { result: final(self).result, ..*old(self) }),
    {
        let local_ref = SymbolRef { owner: self.idx, symbol: local };
        let entry = NamedImport {
            imported: Specifier::Literal(imported),
            imported_as: local_ref,
            span_imported,
            record_id,
        };
        self.result.named_imports.push((local_ref, entry));
    }

    /// Binds a local symbol to the whole namespace of a record's module.
    pub fn add_star_import(&mut self, local: u32, record_id: usize, span_imported: Span)
        ensures
            final(self).result.named_imports@ == old(self).result.named_imports@.push(
                (
                    SymbolRef { owner: old(self).idx, symbol: local },
                    NamedImport {
                        imported: Specifier::Star,
                        imported_as: SymbolRef { owner: old(self).idx, symbol: local },
                        span_imported,
                        record_id,
                    },
                ),
            ),
            final(self).result == (ScanResult {
                named_imports: final(self).result.named_imports,
                ..old(self).result
            }),
            *final(self) == (AstScanner { result: final(self).result, ..*old(self) }),
    {
        let local_ref = SymbolRef { owner: self.idx, symbol: local };
        let entry = NamedImport {
            imported: Specifier::Star,
            imported_as: local_ref,
            span_imported,
            record_id,
        };
        self.result.named_imports.push((local_ref, entry));
    }

    /// Registers an export name for a local symbol.
    pub fn add_local_export(&mut self, export_name: String, local: u32)
        ensures
            final(self).result.named_exports@ == old(self).result.named_exports@.push(
                (
                    export_name,
                    LocalExport { referenced: SymbolRef { owner: old(self).idx, symbol: local } },
                ),
            ),
            final(self).result == (ScanResult {
                named_exports: final(self).result.named_exports,
                ..old(self).result
            }),
            *final(self) == (AstScanner { result: final(self).result, ..*old(self) }),
    {
        let entry = LocalExport { referenced: SymbolRef { owner: self.idx, symbol: local } };
        self.result.named_exports.push((export_name, entry));
    }

    /// Registers a local symbol as the `default` export.
    pub fn add_local_default_export(&mut self, local: u32)
        ensures
            final(self).result.named_exports@.len() == old(self).result.named_exports@.len() + 1,
            final(self).result.named_exports@.drop_last() == old(self).result.named_exports@,
            final(self).result.named_exports@.last().0@ == "default"@,
            final(self).result.named_exports@.last().1 == (LocalExport {
                referenced: SymbolRef { owner: old(self).idx, symbol: local },
            }),
            final(self).result == (ScanResult {
                named_exports: final(self).result.named_exports,
                ..old(self).result
            }),
            *final(self) == (AstScanner { result: final(self).result, ..*old(self) }),
    {
        let name: String = "default".to_owned();
        let entry = LocalExport { referenced: SymbolRef { owner: self.idx, symbol: local } };
        self.result.named_exports.push((name, entry));
        proof {
            assert(self.result.named_exports@.drop_last() =~= old(self).result.named_exports@);
        }
    }

    /// Records `export { imported as export_name } from <record>` as an
    /// import followed by an export: a fresh local symbol (named after the
    /// export name, or `<file-stem>_default` when re-exporting as `default`)
    /// is declared by the current statement, bound as a named import of
    /// `imported`, and registered as the local export `export_name`.
    pub fn add_re_export(
        &mut self,
        export_name: String,
        imported: String,
        record_id: usize,
        span_imported: Span,
    )
        requires
            old(self).wf(),
            record_id < old(self).result.import_records@.len(),
            old(self).symbols.spec_len() < u32::MAX,
        ensures
            final(self).wf(),
            ({
                let gref = SymbolRef {
                    owner: old(self).idx,
                    symbol: old(self).symbols.spec_len() as u32,
                };
                &&& final(self).symbols.spec_len() == old(self).symbols.spec_len() + 1
                &&& final(self).symbols.names@ == old(self).symbols.names@.push(
                    final(self).symbols.names@.last(),
                )
                &&& symbols_extends(old(self).symbols, final(self).symbols)
                &&& final(self).symbols.names@.last()@ == (if export_name@ == "default"@ {
                    file_stem_of(
                        old(self).result.import_records@[record_id as int].module_request@,
                    ) + "_default"@
                } else {
                    export_name@
                })
                &&& final(self).current_stmt_info.declared_symbols@ == old(self).current_stmt_info.declared_symbols@.push(gref)
                &&& final(self).result.named_imports@ == old(self).result.named_imports@.push(
                    (
                        gref,
                        NamedImport {
                            imported: Specifier::Literal(imported),
                            imported_as: gref,
                            span_imported,
                            record_id,
                        },
                    ),
                )
                &&& final(self).result.named_exports@ == old(self).result.named_exports@.push(
                    (export_name, LocalExport { referenced: gref }),
                )
                &&& final(self).result.import_records@ == (if imported@ == "default"@ {
                    old(self).result.import_records@.update(
                        record_id as int,
                        ImportRecord {
                            contains_import_default: true,
                            ..old(self).result.import_records@[record_id as int]
                        },
                    )
                } else {
                    old(self).result.import_records@
                })
            }),
            final(self).current_stmt_info == (StmtInfo {
                declared_symbols: final(self).current_stmt_info.declared_symbols,
                ..old(self).current_stmt_info
            }),
            final(self).result == (ScanResult {
                named_imports: final(self).result.named_imports,
                named_exports: final(self).result.named_exports,
                import_records: final(self).result.import_records,
                ..old(self).result
            }),
            *final(self) == (AstScanner {
                symbols: final(self).symbols,
                current_stmt_info: final(self).current_stmt_info,
                result: final(self).result,
                ..*old(self)
            }),
    {
        let default_name: String = "default".to_owned();
        let generated_name = if export_name.eq(&default_name) {
            let stem = path_file_stem(&self.result.import_records[record_id].module_request);
            stem.concat("_default")
        } else {
            export_name.clone()
        };
        let sym = self.symbols.create_symbol(generated_name, self.scopes.root_scope_id());
        let gref = SymbolRef { owner: self.idx, symbol: sym };
        self.current_stmt_info.declared_symbols.push(gref);
        let entry = NamedImport {
            imported: Specifier::Literal(imported.clone()),
            imported_as: gref,
            span_imported,
            record_id,
        };
        if imported.eq(&default_name) {
            self.result.import_records[record_id].contains_import_default = true;
        }
        self.result.named_imports.push((gref, entry));
        self.result.named_exports.push((export_name, LocalExport { referenced: gref }));
        proof {
            if imported@ == "default"@ {
                assert(self.result.import_records@ =~= old(self).result.import_records@.update(
                    record_id as int,
                    ImportRecord {
                        contains_import_default: true,
                        ..old(self).result.import_records@[record_id as int]
                    },
                ));
            }
        }
    }

    /// Records `export * as export_name from <record>`: a fresh local symbol
    /// named after the export name is declared by the current statement,
    /// bound to the record's whole namespace, and registered as the local
    /// export `export_name`; the record is flagged as star-imported.
    pub fn add_star_re_export(
        &mut self,
        export_name: String,
        record_id: usize,
        span_for_export_name: Span,
    )
        requires
            old(self).wf(),
            record_id < old(self).result.import_records@.len(),
            old(self).symbols.spec_len() < u32::MAX,
        ensures
            final(self).wf(),
            ({
                let gref = SymbolRef {
                    owner: old(self).idx,
                    symbol: old(self).symbols.spec_len() as u32,
                };
                &&& final(self).symbols.spec_len() == old(self).symbols.spec_len() + 1
                &&& final(self).symbols.names@ == old(self).symbols.names@.push(
                    final(self).symbols.names@.last(),
                )
                &&& final(self).symbols.names@.last()@ == export_name@
                &&& symbols_extends(old(self).symbols, final(self).symbols)
                &&& final(self).current_stmt_info.declared_symbols@ == old(self).current_stmt_info.declared_symbols@.push(gref)
                &&& final(self).result.named_imports@ == old(self).result.named_imports@.push(
                    (
                        gref,
                        NamedImport {
                            imported: Specifier::Star,
                            imported_as: gref,
                            span_imported: span_for_export_name,
                            record_id,
                        },
                    ),
                )
                &&& final(self).result.named_exports@ == old(self).result.named_exports@.push(
                    (export_name, LocalExport { referenced: gref }),
                )
                &&& final(self).result.import_records@ == old(self).result.import_records@.update(
                    record_id as int,
                    ImportRecord {
                        contains_import_star: true,
                        ..old(self).result.import_records@[record_id as int]
                    },
                )
            }),
            final(self).current_stmt_info == (StmtInfo {
                declared_symbols: final(self).current_stmt_info.declared_symbols,
                ..old(self).current_stmt_info
            }),
            final(self).result == (ScanResult {
                named_imports: final(self).result.named_imports,
                named_exports: final(self).result.named_exports,
                import_records: final(self).result.import_records,
                ..old(self).result
            }),
            *final(self) == (AstScanner {
                symbols: final(self).symbols,
                current_stmt_info: final(self).current_stmt_info,
                result: final(self).result,
                ..*old(self)
            }),
    {
        let sym = self.symbols.create_symbol(export_name.clone(), self.scopes.root_scope_id());
        let gref = SymbolRef { owner: self.idx, symbol: sym };
        self.current_stmt_info.declared_symbols.push(gref);
        let entry = NamedImport {
            imported: Specifier::Star,
            imported_as: gref,
            span_imported: span_for_export_name,
            record_id,
        };
        self.result.named_imports.push((gref, entry));
        self.result.import_records[record_id].contains_import_star = true;
        self.result.named_exports.push((export_name, LocalExport { referenced: gref }));
        proof {
            assert(self.result.import_records@ =~= old(self).result.import_records@.update(
                record_id as int,
                ImportRecord {
                    contains_import_star: true,
                    ..old(self).result.import_records@[record_id as int]
                },
            ));
        }
    }

    /// Emits one non-fatal warning per write to a symbol declared immutable,
    /// each carrying the declaration span and the write site's span. Never
    /// aborts the scan.
    pub fn try_diagnostic_forbid_const_assign(&mut self, symbol_id: u32)
        requires
            old(self).wf(),
            symbol_id < old(self).symbols.spec_len(),
        ensures
            final(self).result.warnings@ == old(self).result.warnings@ + (if old(self).symbols.is_const@[symbol_id as int] {
                const_assign_warnings(
                    old(self).file_path,
                    old(self).symbols.names@[symbol_id as int],
                    old(self).symbols.spans@[symbol_id as int],
                    old(self).scopes.spec_references_of(symbol_id),
                )
            } else {
                Seq::empty()
            }),
            final(self).result == (ScanResult {
                warnings: final(self).result.warnings,
                ..old(self).result
            }),
            *final(self) == (AstScanner { result: final(self).result, ..*old(self) }),
    {
        let ghost refs = self.scopes.spec_references_of(symbol_id);
        if self.symbols.is_const_symbol(symbol_id) {
            if (symbol_id as usize) < self.scopes.references.len() {
                let n = self.scopes.references[symbol_id as usize].len();
                let mut i: usize = 0;
                while i < n
                    invariant
                        old(self).wf(),
                        self.wf(),
                        symbol_id < self.symbols.spec_len(),
                        (symbol_id as int) < self.scopes.references@.len(),
                        self.scopes == old(self).scopes,
                        self.symbols == old(self).symbols,
                        self.file_path == old(self).file_path,
                        refs == self.scopes.spec_references_of(symbol_id),
                        n == refs.len(),
                        i <= n,
                        self.result.warnings@ == old(self).result.warnings@
                            + const_assign_warnings(
                            old(self).file_path,
                            old(self).symbols.names@[symbol_id as int],
                            old(self).symbols.spans@[symbol_id as int],
                            refs.take(i as int),
                        ),
                        self.result == (ScanResult {
                            warnings: self.result.warnings,
                            ..old(self).result
                        }),
                        *self == (AstScanner { result: self.result, ..*old(self) }),
                    decreases n - i,
                {
                    let site = self.scopes.references[symbol_id as usize][i];
                    if site.is_write {
                        let warning = BuildWarning::ForbidConstAssign {
                            filename: self.file_path.clone(),
                            symbol_name: self.symbols.get_name(symbol_id).clone(),
                            declared_span: self.symbols.get_span(symbol_id),
                            write_span: site.span,
                        };
                        self.result.warnings.push(warning);
                    }
                    proof {
                        assert(refs.take(i as int + 1).drop_last() =~= refs.take(i as int));
                        assert(refs.take(i as int + 1).last() == refs[i as int]);
                    }
                    i += 1;
                }
                proof {
                    assert(refs.take(refs.len() as int) =~= refs);
                }
            } else {
                proof {
                    assert(refs =~= Seq::<RefSite>::empty());
                    assert(self.result.warnings@ =~= old(self).result.warnings@
                        + const_assign_warnings(
                        old(self).file_path,
                        old(self).symbols.names@[symbol_id as int],
                        old(self).symbols.spans@[symbol_id as int],
                        refs,
                    ));
                }
            }
        } else {
            proof {
                assert(self.result.warnings@ =~= old(self).result.warnings@
                    + Seq::<BuildWarning>::empty());
            }
        }
    }
}


/// Whether an import declaration's specifiers contain a `default` use.
pub open spec fn import_specs_have_default(specs: Seq<ImportSpecifier>) -> bool {
    exists|k: int|
        0 <= k < specs.len() && match #[trigger] specs[k] {
            ImportSpecifier::Named { imported, .. } => imported@ == "default"@,
            ImportSpecifier::Default { .. } => true,
            ImportSpecifier::Namespace { .. } => false,
        }
}

/// Whether an import declaration's specifiers contain a namespace use.
pub open spec fn import_specs_have_star(specs: Seq<ImportSpecifier>) -> bool {
    exists|k: int|
        0 <= k < specs.len() && (#[trigger] specs[k]) matches ImportSpecifier::Namespace { .. }
}

/// Whether `entry` is exactly the named-import record one import specifier
/// adds against record `record_id`, with locals owned by module `idx`. A
/// default specifier binds the name spelled `default`.
pub open spec fn import_spec_entry_matches(
    idx: u32,
    record_id: usize,
    spec: ImportSpecifier,
    entry: (SymbolRef, NamedImport),
) -> bool {
    match spec {
        ImportSpecifier::Named { local, imported, imported_span } => entry == (
            SymbolRef { owner: idx, symbol: local },
            NamedImport {
                imported: Specifier::Literal(imported),
                imported_as: SymbolRef { owner: idx, symbol: local },
                span_imported: imported_span,
                record_id,
            },
        ),
        ImportSpecifier::Default { local, span } => {
            &&& entry.0 == (SymbolRef { owner: idx, symbol: local })
            &&& entry.1.imported matches Specifier::Literal(n) && n@ == "default"@
            &&& entry.1.imported_as == (SymbolRef { owner: idx, symbol: local })
            &&& entry.1.span_imported == span
            &&& entry.1.record_id == record_id
        },
        ImportSpecifier::Namespace { local, span } => entry == (
            SymbolRef { owner: idx, symbol: local },
            NamedImport {
                imported: Specifier::Star,
                imported_as: SymbolRef { owner: idx, symbol: local },
                span_imported: span,
                record_id,
            },
        ),
    }
}


/// The whole effect of scanning one declaration of this shape, relating the
/// scanner before (`pre`) and after (`post`).
pub open spec fn export_all_decl_effect(pre: AstScanner, post: AstScanner, decl: ExportAllDecl) -> bool {
    &&& symbols_extends(pre.symbols, post.symbols)
    &&& (            ({
                let rec = pre.result.import_records@.len() as usize;
                let gref = SymbolRef {
                    owner: pre.idx,
                    symbol: (pre.symbols.spec_len() + 1) as u32,
                };
                &&& post.result.imports@ == pre.result.imports@.push(
                    (decl.span, rec),
                )
                &&& match decl.exported {
                    Some(name) => {
                        &&& post.result.import_records@.len() == rec + 1
                        &&& post.result.import_records@.last().module_request
                            == decl.source
                        &&& post.result.import_records@.last().kind == ImportKind::Import
                        &&& post.result.import_records@.last().contains_import_star
                        &&& !post.result.import_records@.last().contains_import_default
                        &&& !post.result.import_records@.last().is_plain_import
                        &&& post.result.named_imports@ == pre.result.named_imports@.push(
                            (
                                gref,
                                NamedImport {
                                    imported: Specifier::Star,
                                    imported_as: gref,
                                    span_imported: decl.span,
                                    record_id: rec,
                                },
                            ),
                        )
                        &&& post.result.named_exports@ == pre.result.named_exports@.push((name, LocalExport { referenced: gref }))
                        &&& post.result.star_exports@ == pre.result.star_exports@
                        &&& post.symbols.names@.last()@ == name@
                        &&& post.symbols.spec_len() == pre.symbols.spec_len() + 2
                    },
                    None => {
                        &&& post.result.import_records@ == pre.result.import_records@.push(
                            ImportRecord {
                                module_request: decl.source,
                                kind: ImportKind::Import,
                                namespace_ref: SymbolRef {
                                    owner: pre.idx,
                                    symbol: pre.symbols.spec_len() as u32,
                                },
                                contains_import_default: false,
                                contains_import_star: false,
                                is_plain_import: false,
                            },
                        )
                        &&& post.result.star_exports@ == pre.result.star_exports@.push(rec)
                        &&& post.result.named_imports@ == pre.result.named_imports@
                        &&& post.result.named_exports@ == pre.result.named_exports@
                        &&& post.symbols.spec_len() == pre.symbols.spec_len() + 1
                    },
                }
            }))
        &&&
(            post.result == (ScanResult {
                imports: post.result.imports,
                import_records: post.result.import_records,
                named_imports: post.result.named_imports,
                named_exports: post.result.named_exports,
                star_exports: post.result.star_exports,
                ..pre.result
            }))
        &&&
(            post == (AstScanner {
                symbols: post.symbols,
                current_stmt_info: post.current_stmt_info,
                result: post.result,
                ..pre
            }))
}

/// The whole effect of scanning one declaration of this shape, relating the
/// scanner before (`pre`) and after (`post`).
pub open spec fn export_default_decl_effect(pre: AstScanner, post: AstScanner, decl: ExportDefaultDecl) -> bool {
    &&& symbols_extends(pre.symbols, post.symbols)
    &&& (            ({
                let binding = match decl.kind {
                    ExportDefaultKind::Expression => pre.result.default_export_ref.symbol,
                    ExportDefaultKind::Function { id } => match id {
                        Some(b) => b,
                        None => pre.result.default_export_ref.symbol,
                    },
                    ExportDefaultKind::Class { id } => match id {
                        Some(b) => b,
                        None => pre.result.default_export_ref.symbol,
                    },
                };
                &&& post.current_stmt_info.declared_symbols@ == pre.current_stmt_info.declared_symbols@.push(
                    SymbolRef { owner: pre.idx, symbol: binding },
                )
                &&& post.result.named_exports@.len() == pre.result.named_exports@.len() + 1
                &&& post.result.named_exports@.drop_last() == pre.result.named_exports@
                &&& post.result.named_exports@.last().0@ == "default"@
                &&& post.result.named_exports@.last().1 == (LocalExport {
                    referenced: SymbolRef { owner: pre.idx, symbol: binding },
                })
            }))
        &&&
(            post.current_stmt_info == (StmtInfo {
                declared_symbols: post.current_stmt_info.declared_symbols,
                ..pre.current_stmt_info
            }))
        &&&
(            post.result == (ScanResult {
                named_exports: post.result.named_exports,
                ..pre.result
            }))
        &&&
(            post == (AstScanner {
                current_stmt_info: post.current_stmt_info,
                result: post.result,
                ..pre
            }))
}

/// The whole effect of scanning one declaration of this shape, relating the
/// scanner before (`pre`) and after (`post`).
pub open spec fn import_decl_effect(pre: AstScanner, post: AstScanner, decl: ImportDecl) -> bool {
    &&& symbols_extends(pre.symbols, post.symbols)
    &&& (            ({
                let rec = pre.result.import_records@.len() as usize;
                let specs = match decl.specifiers {
                    Some(v) => v@,
                    None => Seq::empty(),
                };
                &&& post.result.imports@ == pre.result.imports@.push(
                    (decl.span, rec),
                )
                &&& post.result.import_records@.len() == rec + 1
                &&& post.result.import_records@.last().module_request == decl.source
                &&& post.result.import_records@.last().kind == ImportKind::Import
                &&& post.result.import_records@.last().contains_import_default
                    == import_specs_have_default(specs)
                &&& post.result.import_records@.last().contains_import_star
                    == import_specs_have_star(specs)
                &&& post.result.import_records@.last().is_plain_import == (specs.len()
                    == 0)
                &&& forall|j: int|
                    0 <= j < rec ==> post.result.import_records@[j] == pre.result.import_records@[j]
                &&& post.result.named_imports@.len() == pre.result.named_imports@.len() + specs.len()
                &&& forall|k: int|
                    0 <= k < specs.len() ==> import_spec_entry_matches(
                        pre.idx,
                        rec,
                        #[trigger] specs[k],
                        post.result.named_imports@[pre.result.named_imports@.len() + k],
                    )
                &&& forall|j: int|
                    0 <= j < pre.result.named_imports@.len() ==> post.result.named_imports@[j] == pre.result.named_imports@[j]
                &&& post.symbols.spec_len() == pre.symbols.spec_len() + 1
            }))
        &&&
(            post.result == (ScanResult {
                imports: post.result.imports,
                import_records: post.result.import_records,
                named_imports: post.result.named_imports,
                ..pre.result
            }))
        &&&
(            post == (AstScanner {
                symbols: post.symbols,
                current_stmt_info: post.current_stmt_info,
                result: post.result,
                ..pre
            }))
}

/// The whole effect of scanning one declaration of this shape, relating the
/// scanner before (`pre`) and after (`post`).
pub open spec fn export_named_decl_effect(pre: AstScanner, post: AstScanner, decl: ExportNamedDecl) -> bool {
    &&& symbols_extends(pre.symbols, post.symbols)
    &&& (            ({
                let specs = decl.specifiers@;
                let s0 = pre.symbols.spec_len();
                let rec = pre.result.import_records@.len() as usize;
                match decl.source {
                    Some(source) => {
                        &&& post.result.imports@ == pre.result.imports@.push(
                            (decl.span, rec),
                        )
                        &&& post.result.import_records@.len() == rec + 1
                        &&& post.result.import_records@.last().module_request == source
                        &&& post.result.import_records@.last().kind == ImportKind::Import
                        &&& post.result.import_records@.last().contains_import_default
                            == respecs_have_default(specs)
                        &&& !post.result.import_records@.last().contains_import_star
                        &&& post.result.import_records@.last().is_plain_import == (
                        specs.len() == 0)
                        &&& forall|j: int|
                            0 <= j < rec ==> post.result.import_records@[j] == pre.result.import_records@[j]
                        &&& post.symbols.spec_len() == s0 + 1 + specs.len()
                        &&& post.result.named_imports@.len() == pre.result.named_imports@.len() + specs.len()
                        &&& forall|k: int|
                            0 <= k < specs.len() ==> post.result.named_imports@[pre.result.named_imports@.len() + k] == (
                                SymbolRef { owner: pre.idx, symbol: (s0 + 1 + k) as u32 },
                                NamedImport {
                                    imported: Specifier::Literal((#[trigger] specs[k]).local),
                                    imported_as: SymbolRef {
                                        owner: pre.idx,
                                        symbol: (s0 + 1 + k) as u32,
                                    },
                                    span_imported: specs[k].local_span,
                                    record_id: rec,
                                },
                            )
                        &&& forall|j: int|
                            0 <= j < pre.result.named_imports@.len() ==> post.result.named_imports@[j] == pre.result.named_imports@[j]
                        &&& post.result.named_exports@.len() == pre.result.named_exports@.len() + specs.len()
                        &&& forall|k: int|
                            0 <= k < specs.len() ==> post.result.named_exports@[pre.result.named_exports@.len() + k] == (
                                (#[trigger] specs[k]).exported,
                                LocalExport {
                                    referenced: SymbolRef {
                                        owner: pre.idx,
                                        symbol: (s0 + 1 + k) as u32,
                                    },
                                },
                            )
                        &&& forall|j: int|
                            0 <= j < pre.result.named_exports@.len() ==> post.result.named_exports@[j] == pre.result.named_exports@[j]
                        &&& post.current_stmt_info.declared_symbols@.len() == pre.current_stmt_info.declared_symbols@.len() + specs.len()
                    },
                    None => {
                        &&& post.result.import_records@ == pre.result.import_records@
                        &&& post.result.imports@ == pre.result.imports@
                        &&& post.result.named_imports@ == pre.result.named_imports@
                        &&& ({
                            let decl_count: int = match decl.declaration {
                                Some(Declaration::Variable { ids }) => ids@.len() as int,
                                Some(Declaration::Function { .. }) => 1,
                                Some(Declaration::Class { .. }) => 1,
                                None => 0,
                            };
                            &&& post.result.named_exports@.len() == pre.result.named_exports@.len() + specs.len() + decl_count
                            &&& forall|k: int|
                                0 <= k < specs.len() ==> post.result.named_exports@[pre.result.named_exports@.len() + k] == (
                                    (#[trigger] specs[k]).exported,
                                    LocalExport {
                                        referenced: SymbolRef {
                                            owner: pre.idx,
                                            symbol: pre.scopes.spec_root_binding(
                                                specs[k].local@,
                                            ),
                                        },
                                    },
                                )
                            &&& match decl.declaration {
                                Some(Declaration::Variable { ids }) => forall|k: int|
                                    0 <= k < ids@.len() ==> post.result.named_exports@[pre.result.named_exports@.len() + specs.len() + k] == (
                                        (#[trigger] ids@[k]).0,
                                        LocalExport {
                                            referenced: SymbolRef {
                                                owner: pre.idx,
                                                symbol: ids@[k].1,
                                            },
                                        },
                                    ),
                                Some(Declaration::Function { name, symbol }) => post.result.named_exports@.last() == (
                                    name,
                                    LocalExport {
                                        referenced: SymbolRef { owner: pre.idx, symbol },
                                    },
                                ),
                                Some(Declaration::Class { name, symbol }) => post.result.named_exports@.last() == (
                                    name,
                                    LocalExport {
                                        referenced: SymbolRef { owner: pre.idx, symbol },
                                    },
                                ),
                                None => true,
                            }
                        })
                        &&& forall|j: int|
                            0 <= j < pre.result.named_exports@.len() ==> post.result.named_exports@[j] == pre.result.named_exports@[j]
                        &&& post.symbols == pre.symbols
                        &&& post.current_stmt_info == pre.current_stmt_info
                    },
                }
            }))
        &&&
(            post.result == (ScanResult {
                imports: post.result.imports,
                import_records: post.result.import_records,
                named_imports: post.result.named_imports,
                named_exports: post.result.named_exports,
                ..pre.result
            }))
        &&&
(            post == (AstScanner {
                symbols: post.symbols,
                current_stmt_info: post.current_stmt_info,
                result: post.result,
                ..pre
            }))
}

impl AstScanner {
    /// Scans `export * from source` and `export * as name from source`: one
    /// import record either way; the alias form synthesizes the namespace
    /// binding and export, the bare form adds the record to the star-export
    /// list.
    pub fn scan_export_all_decl(&mut self, decl: &ExportAllDecl)
        requires
            old(self).wf(),
            old(self).symbols.spec_len() + 2 <= u32::MAX,
        ensures
            final(self).wf(),
            export_all_decl_effect(*old(self), *final(self), *decl),
    {
        let id = self.add_import_record(decl.source.clone(), ImportKind::Import);
        let ghost mid = *self;
        match &decl.exported {
            Some(exported) => {
                self.add_star_re_export(exported.clone(), id, decl.span);
                proof {
                    lemma_symbols_extends_trans(old(self).symbols, mid.symbols, self.symbols);
                }
            },
            None => {
                self.result.star_exports.push(id);
            },
        }
        self.result.imports.push((decl.span, id));
    }

    /// Scans `export default <declaration or expression>`: the declaration's
    /// own binding, or the pre-synthesized default binding, is declared by
    /// this statement and registered as the export named `default`.
    pub fn scan_export_default_decl(&mut self, decl: &ExportDefaultDecl)
        requires
            old(self).wf(),
        ensures
            final(self).wf(),
            export_default_decl_effect(*old(self), *final(self), *decl),
    {
        let local_binding: Option<u32> = match &decl.kind {
            ExportDefaultKind::Expression => None,
            ExportDefaultKind::Function { id } => *id,
            ExportDefaultKind::Class { id } => *id,
        };
        let final_binding = match local_binding {
            Some(b) => b,
            None => self.result.default_export_ref.symbol,
        };
        self.add_declared_id(final_binding);
        self.add_local_default_export(final_binding);
    }

    /// Scans a static `import` declaration: one record, flagged per its
    /// specifiers, each specifier bound as a named or namespace import.
    pub fn scan_import_decl(&mut self, decl: &ImportDecl)
        requires
            old(self).wf(),
            old(self).symbols.spec_len() < u32::MAX,
        ensures
            final(self).wf(),
            import_decl_effect(*old(self), *final(self), *decl),
    {
        let rec_id = self.add_import_record(decl.source.clone(), ImportKind::Import);
        self.result.imports.push((decl.span, rec_id));
        let ghost mid = *self;
        match &decl.specifiers {
            None => {
                self.result.import_records[rec_id].is_plain_import = true;
                proof {
                    assert(self.result.import_records@.last() == (ImportRecord {
                        is_plain_import: true,
                        ..mid.result.import_records@.last()
                    }));
                }
            },
            Some(specifiers) => {
                if specifiers.len() == 0 {
                    self.result.import_records[rec_id].is_plain_import = true;
                }
                let n = specifiers.len();
                let mut k: usize = 0;
                while k < n
                    invariant
                        self.wf(),
                        n == specifiers@.len(),
                        k <= n,
                        rec_id == mid.result.import_records@.len() - 1,
                        self.result.import_records@.len() == mid.result.import_records@.len(),
                        forall|j: int|
                            0 <= j < rec_id ==> self.result.import_records@[j]
                                == mid.result.import_records@[j],
                        self.result.import_records@.last() == (ImportRecord {
                            contains_import_default: import_specs_have_default(
                                specifiers@.take(k as int),
                            ),
                            contains_import_star: import_specs_have_star(
                                specifiers@.take(k as int),
                            ),
                            is_plain_import: n == 0,
                            ..mid.result.import_records@.last()
                        }),
                        self.result.named_imports@.len() == mid.result.named_imports@.len() + k,
                        forall|j: int|
                            0 <= j < specifiers@.take(k as int).len()
                                ==> import_spec_entry_matches(
                                mid.idx,
                                rec_id,
                                #[trigger] specifiers@.take(k as int)[j],
                                self.result.named_imports@[mid.result.named_imports@.len() + j],
                            ),
                        forall|j: int|
                            0 <= j < mid.result.named_imports@.len()
                                ==> self.result.named_imports@[j]
                                == mid.result.named_imports@[j],
                        self.result == (ScanResult {
                            import_records: self.result.import_records,
                            named_imports: self.result.named_imports,
                            ..mid.result
                        }),
                        *self == (AstScanner { result: self.result, ..mid }),
                    decreases n - k,
                {
                    let ghost pre_k = *self;
                    match &specifiers[k] {
                        ImportSpecifier::Named { local, imported, imported_span } => {
                            let is_default_name = {
                                let d: String = "default".to_owned();
                                imported.eq(&d)
                            };
                            self.add_named_import(*local, imported.clone(), rec_id, *imported_span);
                            if is_default_name {
                                self.result.import_records[rec_id].contains_import_default = true;
                            }
                        },
                        ImportSpecifier::Default { local, span } => {
                            let d: String = "default".to_owned();
                            self.add_named_import(*local, d, rec_id, *span);
                            self.result.import_records[rec_id].contains_import_default = true;
                        },
                        ImportSpecifier::Namespace { local, span } => {
                            self.add_star_import(*local, rec_id, *span);
                            self.result.import_records[rec_id].contains_import_star = true;
                        },
                    }
                    proof {
                        assert(specifiers@.take(k as int + 1).drop_last() =~= specifiers@.take(
                            k as int,
                        ));
                        assert(specifiers@.take(k as int + 1).last() == specifiers@[k as int]);
                        assert(import_specs_have_default(specifiers@.take(k as int + 1))
                            == (import_specs_have_default(specifiers@.take(k as int)) || (match
                        specifiers@[k as int] {
                            ImportSpecifier::Named { imported, .. } => imported@ == "default"@,
                            ImportSpecifier::Default { .. } => true,
                            ImportSpecifier::Namespace { .. } => false,
                        }))) by {
                            lemma_specs_take_step(specifiers@, k as int);
                        }
                        assert(import_specs_have_star(specifiers@.take(k as int + 1))
                            == (import_specs_have_star(specifiers@.take(k as int)) || (
                        specifiers@[k as int] matches ImportSpecifier::Namespace { .. }))) by {
                            lemma_specs_take_step(specifiers@, k as int);
                        }
                    }
                    k += 1;
                }
                proof {
                    assert(specifiers@.take(n as int) =~= specifiers@);
                }
            },
        }
        proof {
            assert forall|j: int| 0 <= j < rec_id implies self.result.import_records@[j] == old(self).result.import_records@[j] by {
                assert(mid.result.import_records@[j] == old(self).result.import_records@[j]);
            }
            assert forall|j: int|
                0 <= j < old(self).result.named_imports@.len() implies
                self.result.named_imports@[j] == old(self).result.named_imports@[j] by {
                assert(mid.result.named_imports@[j] == old(self).result.named_imports@[j]);
            }
        }
    }
}

/// Extending a specifier prefix by one element extends its default/star
/// markers by exactly that element's contribution.
proof fn lemma_specs_take_step(specs: Seq<ImportSpecifier>, k: int)
    requires
        0 <= k < specs.len(),
    ensures
        import_specs_have_default(specs.take(k + 1)) == (import_specs_have_default(specs.take(k))
            || (match specs[k] {
            ImportSpecifier::Named { imported, .. } => imported@ == "default"@,
            ImportSpecifier::Default { .. } => true,
            ImportSpecifier::Namespace { .. } => false,
        })),
        import_specs_have_star(specs.take(k + 1)) == (import_specs_have_star(specs.take(k)) || (
        specs[k] matches ImportSpecifier::Namespace { .. })),
{
    let a = specs.take(k);
    let b = specs.take(k + 1);
    assert(forall|j: int| 0 <= j < k ==> a[j] == #[trigger] b[j]);
    assert(b[k] == specs[k]);
    if import_specs_have_default(a) {
        let j = choose|j: int|
            0 <= j < a.len() && match #[trigger] a[j] {
                ImportSpecifier::Named { imported, .. } => imported@ == "default"@,
                ImportSpecifier::Default { .. } => true,
                ImportSpecifier::Namespace { .. } => false,
            };
        assert(b[j] == a[j]);
        assert(import_specs_have_default(b));
    }
    if import_specs_have_default(b) {
        let j = choose|j: int|
            0 <= j < b.len() && match #[trigger] b[j] {
                ImportSpecifier::Named { imported, .. } => imported@ == "default"@,
                ImportSpecifier::Default { .. } => true,
                ImportSpecifier::Namespace { .. } => false,
            };
        if j < k {
            assert(a[j] == b[j]);
            assert(import_specs_have_default(a));
        }
    }
    if import_specs_have_star(a) {
        let j = choose|j: int|
            0 <= j < a.len() && (#[trigger] a[j]) matches ImportSpecifier::Namespace { .. };
        assert(b[j] == a[j]);
        assert(import_specs_have_star(b));
    }
    if import_specs_have_star(b) {
        let j = choose|j: int|
            0 <= j < b.len() && (#[trigger] b[j]) matches ImportSpecifier::Namespace { .. };
        if j < k {
            assert(a[j] == b[j]);
            assert(import_specs_have_star(a));
        }
    }
}


/// Whether a re-export specifier prefix re-exports some module's `default`.
pub open spec fn respecs_have_default(specs: Seq<ExportSpecifier>) -> bool {
    exists|k: int| 0 <= k < specs.len() && (#[trigger] specs[k]).local@ == "default"@
}

proof fn lemma_respecs_take_step(specs: Seq<ExportSpecifier>, k: int)
    requires
        0 <= k < specs.len(),
    ensures
        respecs_have_default(specs.take(k + 1)) == (respecs_have_default(specs.take(k))
            || specs[k].local@ == "default"@),
{
    let a = specs.take(k);
    let b = specs.take(k + 1);
    assert(forall|j: int| 0 <= j < k ==> a[j] == #[trigger] b[j]);
    assert(b[k] == specs[k]);
    if respecs_have_default(a) {
        let j = choose|j: int| 0 <= j < a.len() && (#[trigger] a[j]).local@ == "default"@;
        assert(b[j] == a[j]);
        assert(respecs_have_default(b));
    }
    if respecs_have_default(b) {
        let j = choose|j: int| 0 <= j < b.len() && (#[trigger] b[j]).local@ == "default"@;
        if j < k {
            assert(a[j] == b[j]);
            assert(respecs_have_default(a));
        }
    }
}

impl AstScanner {
    /// Scans `export { ... } [from source]` and `export <declaration>`. With
    /// a source, every specifier becomes an import-then-export pair through
    /// a synthesized symbol; without one, each specifier exports an existing
    /// top-level binding, and an exported declaration exports each name it
    /// declares.
    pub fn scan_export_named_decl(&mut self, decl: &ExportNamedDecl)
        requires
            old(self).wf(),
            old(self).symbols.spec_len() + 1 + decl.specifiers@.len() <= u32::MAX,
            decl.source is None ==> forall|k: int|
                0 <= k < decl.specifiers@.len() ==> old(self).scopes.spec_has_root_binding(
                    (#[trigger] decl.specifiers@[k]).local@,
                ),
        ensures
            final(self).wf(),
            export_named_decl_effect(*old(self), *final(self), *decl),
    {
        match &decl.source {
            Some(source) => {
                let record_id = self.add_import_record(source.clone(), ImportKind::Import);
                let ghost mid = *self;
                let n = decl.specifiers.len();
                let mut k: usize = 0;
                while k < n
                    invariant
                        self.wf(),
                        n == decl.specifiers@.len(),
                        k <= n,
                        mid.symbols.spec_len() + n <= u32::MAX,
                        record_id == mid.result.import_records@.len() - 1,
                        self.symbols.spec_len() == mid.symbols.spec_len() + k,
                        symbols_extends(mid.symbols, self.symbols),
                        self.result.import_records@.len() == mid.result.import_records@.len(),
                        forall|j: int|
                            0 <= j < record_id ==> self.result.import_records@[j]
                                == mid.result.import_records@[j],
                        self.result.import_records@.last() == (ImportRecord {
                            contains_import_default: respecs_have_default(
                                decl.specifiers@.take(k as int),
                            ),
                            ..mid.result.import_records@.last()
                        }),
                        self.result.named_imports@.len() == mid.result.named_imports@.len() + k,
                        forall|j: int|
                            0 <= j < k ==> self.result.named_imports@[mid.result.named_imports@.len()
                                + j] == (
                                SymbolRef {
                                    owner: mid.idx,
                                    symbol: (mid.symbols.spec_len() + j) as u32,
                                },
                                NamedImport {
                                    imported: Specifier::Literal(
                                        (#[trigger] decl.specifiers@[j]).local,
                                    ),
                                    imported_as: SymbolRef {
                                        owner: mid.idx,
                                        symbol: (mid.symbols.spec_len() + j) as u32,
                                    },
                                    span_imported: decl.specifiers@[j].local_span,
                                    record_id,
                                },
                            ),
                        forall|j: int|
                            0 <= j < mid.result.named_imports@.len()
                                ==> self.result.named_imports@[j]
                                == mid.result.named_imports@[j],
                        self.result.named_exports@.len() == mid.result.named_exports@.len() + k,
                        forall|j: int|
                            0 <= j < k ==> self.result.named_exports@[mid.result.named_exports@.len()
                                + j] == (
                                (#[trigger] decl.specifiers@[j]).exported,
                                LocalExport {
                                    referenced: SymbolRef {
                                        owner: mid.idx,
                                        symbol: (mid.symbols.spec_len() + j) as u32,
                                    },
                                },
                            ),
                        forall|j: int|
                            0 <= j < mid.result.named_exports@.len()
                                ==> self.result.named_exports@[j]
                                == mid.result.named_exports@[j],
                        self.current_stmt_info.declared_symbols@.len()
                            == mid.current_stmt_info.declared_symbols@.len() + k,
                        self.current_stmt_info == (StmtInfo {
                            declared_symbols: self.current_stmt_info.declared_symbols,
                            ..mid.current_stmt_info
                        }),
                        self.result == (ScanResult {
                            import_records: self.result.import_records,
                            named_imports: self.result.named_imports,
                            named_exports: self.result.named_exports,
                            ..mid.result
                        }),
                        *self == (AstScanner {
                            symbols: self.symbols,
                            current_stmt_info: self.current_stmt_info,
                            result: self.result,
                            ..mid
                        }),
                    decreases n - k,
                {
                    let spec_k = &decl.specifiers[k];
                    let ghost pre_syms = self.symbols;
                    self.add_re_export(
                        spec_k.exported.clone(),
                        spec_k.local.clone(),
                        record_id,
                        spec_k.local_span,
                    );
                    proof {
                        lemma_symbols_extends_trans(mid.symbols, pre_syms, self.symbols);
                        lemma_respecs_take_step(decl.specifiers@, k as int);
                        assert(decl.specifiers@.take(k as int + 1).drop_last()
                            =~= decl.specifiers@.take(k as int));
                    }
                    k += 1;
                }
                proof {
                    assert(decl.specifiers@.take(n as int) =~= decl.specifiers@);
                    lemma_symbols_extends_trans(old(self).symbols, mid.symbols, self.symbols);
                }
                self.result.imports.push((decl.span, record_id));
                if decl.specifiers.len() == 0 {
                    self.result.import_records[record_id].is_plain_import = true;
                }
                proof {
                    assert forall|j: int|
                        0 <= j < old(self).result.import_records@.len() implies
                        self.result.import_records@[j] == old(self).result.import_records@[j] by {
                        assert(mid.result.import_records@[j] == old(self).result.import_records@[j]);
                    }
                }
            },
            None => {
                let n = decl.specifiers.len();
                let mut k: usize = 0;
                while k < n
                    invariant
                        self.wf(),
                        n == decl.specifiers@.len(),
                        k <= n,
                        decl.source is None ==> forall|j: int|
                            0 <= j < decl.specifiers@.len()
                                ==> self.scopes.spec_has_root_binding(
                                (#[trigger] decl.specifiers@[j]).local@,
                            ),
                        decl.source is None,
                        self.result.named_exports@.len() == old(self).result.named_exports@.len()
                            + k,
                        forall|j: int|
                            0 <= j < k ==> self.result.named_exports@[old(self).result.named_exports@.len() + j] == (
                                (#[trigger] decl.specifiers@[j]).exported,
                                LocalExport {
                                    referenced: SymbolRef {
                                        owner: old(self).idx,
                                        symbol: old(self).scopes.spec_root_binding(
                                            decl.specifiers@[j].local@,
                                        ),
                                    },
                                },
                            ),
                        forall|j: int|
                            0 <= j < old(self).result.named_exports@.len()
                                ==> self.result.named_exports@[j] == old(self).result.named_exports@[j],
                        self.result == (ScanResult {
                            named_exports: self.result.named_exports,
                            ..old(self).result
                        }),
                        *self == (AstScanner { result: self.result, ..*old(self) }),
                    decreases n - k,
                {
                    let spec_k = &decl.specifiers[k];
                    let local_symbol = self.get_root_binding(&spec_k.local);
                    self.add_local_export(spec_k.exported.clone(), local_symbol);
                    k += 1;
                }
                match &decl.declaration {
                    Some(Declaration::Variable { ids }) => {
                        let m = ids.len();
                        let ghost mid2 = *self;
                        let mut k2: usize = 0;
                        while k2 < m
                            invariant
                                m == ids@.len(),
                                k2 <= m,
                                self.result.named_exports@.len()
                                    == mid2.result.named_exports@.len() + k2,
                                forall|j: int|
                                    0 <= j < k2 ==> self.result.named_exports@[
                                        mid2.result.named_exports@.len() + j] == (
                                        (#[trigger] ids@[j]).0,
                                        LocalExport {
                                            referenced: SymbolRef {
                                                owner: mid2.idx,
                                                symbol: ids@[j].1,
                                            },
                                        },
                                    ),
                                forall|j: int|
                                    0 <= j < mid2.result.named_exports@.len()
                                        ==> self.result.named_exports@[j]
                                        == mid2.result.named_exports@[j],
                                self.result == (ScanResult {
                                    named_exports: self.result.named_exports,
                                    ..mid2.result
                                }),
                                *self == (AstScanner { result: self.result, ..mid2 }),
                            decreases m - k2,
                        {
                            let name = ids[k2].0.clone();
                            let symbol = ids[k2].1;
                            self.add_local_export(name, symbol);
                            k2 += 1;
                        }
                    },
                    Some(Declaration::Function { name, symbol }) => {
                        self.add_local_export(name.clone(), *symbol);
                    },
                    Some(Declaration::Class { name, symbol }) => {
                        self.add_local_export(name.clone(), *symbol);
                    },
                    None => {},
                }
            },
        }
    }
}


/// Symbols a module declaration synthesizes while being scanned.
pub open spec fn decl_symbol_budget(d: ModuleDecl) -> nat {
    match d {
        ModuleDecl::Import(_) => 1,
        ModuleDecl::ExportAll(_) => 2,
        ModuleDecl::ExportNamed(e) => 1 + e.specifiers@.len(),
        ModuleDecl::ExportDefault(_) => 0,
    }
}

/// What the scanner assumes of one module declaration: re-exported local
/// names resolve to top-level bindings, per the upstream resolution pass.
pub open spec fn decl_input_ok(d: ModuleDecl, scopes: AstScopes) -> bool {
    match d {
        ModuleDecl::ExportNamed(e) => e.source is None ==> forall|k: int|
            0 <= k < e.specifiers@.len() ==> scopes.spec_has_root_binding(
                (#[trigger] e.specifiers@[k]).local@,
            ),
        _ => true,
    }
}

impl AstScanner {
    /// Dispatches one module declaration to its handler, first recording the
    /// ESM import or export keyword it carries.
    pub fn scan_module_decl(&mut self, decl: &ModuleDecl)
        requires
            old(self).wf(),
            old(self).symbols.spec_len() + decl_symbol_budget(*decl) <= u32::MAX,
            decl_input_ok(*decl, old(self).scopes),
        ensures
            final(self).wf(),
            // the dispatch: the matching keyword's first span is remembered,
            // and the matching handler's whole effect applies
            match *decl {
                ModuleDecl::Import(d) => {
                    &&& final(self).esm_import_keyword == (if old(
                        self,
                    ).esm_import_keyword is None {
                        Some(d.span)
                    } else {
                        old(self).esm_import_keyword
                    })
                    &&& final(self).esm_export_keyword == old(self).esm_export_keyword
                    &&& import_decl_effect(
                        (AstScanner {
                            esm_import_keyword: final(self).esm_import_keyword,
                            ..*old(self)
                        }),
                        *final(self),
                        d,
                    )
                },
                ModuleDecl::ExportAll(d) => {
                    &&& final(self).esm_export_keyword == (if old(
                        self,
                    ).esm_export_keyword is None {
                        Some(d.span)
                    } else {
                        old(self).esm_export_keyword
                    })
                    &&& final(self).esm_import_keyword == old(self).esm_import_keyword
                    &&& export_all_decl_effect(
                        (AstScanner {
                            esm_export_keyword: final(self).esm_export_keyword,
                            ..*old(self)
                        }),
                        *final(self),
                        d,
                    )
                },
                ModuleDecl::ExportNamed(d) => {
                    &&& final(self).esm_export_keyword == (if old(
                        self,
                    ).esm_export_keyword is None {
                        Some(d.span)
                    } else {
                        old(self).esm_export_keyword
                    })
                    &&& final(self).esm_import_keyword == old(self).esm_import_keyword
                    &&& export_named_decl_effect(
                        (AstScanner {
                            esm_export_keyword: final(self).esm_export_keyword,
                            ..*old(self)
                        }),
                        *final(self),
                        d,
                    )
                },
                ModuleDecl::ExportDefault(d) => {
                    &&& final(self).esm_export_keyword == (if old(
                        self,
                    ).esm_export_keyword is None {
                        Some(d.span)
                    } else {
                        old(self).esm_export_keyword
                    })
                    &&& final(self).esm_import_keyword == old(self).esm_import_keyword
                    &&& export_default_decl_effect(
                        (AstScanner {
                            esm_export_keyword: final(self).esm_export_keyword,
                            ..*old(self)
                        }),
                        *final(self),
                        d,
                    )
                },
            },
            // the keyword flags, summarized for the export-kind precedence
            final(self).esm_import_keyword is Some <==> (old(self).esm_import_keyword is Some
                || decl matches ModuleDecl::Import(_)),
            final(self).esm_export_keyword is Some <==> (old(self).esm_export_keyword is Some
                || !(decl matches ModuleDecl::Import(_))),
            // module declarations never touch the statement list, the
            // warnings, the interop flags, or the collected usage
            final(self).result.stmt_infos == old(self).result.stmt_infos,
            final(self).result.warnings == old(self).result.warnings,
            final(self).result.exports_kind == old(self).result.exports_kind,
            final(self).result.default_export_ref == old(self).result.default_export_ref,
            final(self).result.normalized_dynamic_import_usage == old(self).result.normalized_dynamic_import_usage,
            final(self).used_exports_ref == old(self).used_exports_ref,
            final(self).used_module_ref == old(self).used_module_ref,
            final(self).dynamic_import_usage == old(self).dynamic_import_usage,
            final(self).idx == old(self).idx,
            final(self).module_type == old(self).module_type,
            final(self).file_path == old(self).file_path,
            final(self).scopes == old(self).scopes,
            final(self).namespace_object_ref == old(self).namespace_object_ref,
            final(self).result.repr_name == old(self).result.repr_name,
            old(self).symbols.spec_len() <= final(self).symbols.spec_len() <= old(
                self,
            ).symbols.spec_len() + decl_symbol_budget(*decl),
            symbols_extends(old(self).symbols, final(self).symbols),
    {
        match decl {
            ModuleDecl::Import(d) => {
                if self.esm_import_keyword.is_none() {
                    self.esm_import_keyword = Some(d.span);
                }
                self.scan_import_decl(d);
            },
            ModuleDecl::ExportAll(d) => {
                self.set_esm_export_keyword(d.span);
                self.scan_export_all_decl(d);
            },
            ModuleDecl::ExportNamed(d) => {
                self.set_esm_export_keyword(d.span);
                self.scan_export_named_decl(d);
            },
            ModuleDecl::ExportDefault(d) => {
                self.set_esm_export_keyword(d.span);
                self.scan_export_default_decl(d);
            },
        }
    }
}


/// How many references of the prefix resolved to a local symbol.
pub open spec fn resolved_count(refs: Seq<ReferenceFact>) -> nat
    decreases refs.len(),
{
    if refs.len() == 0 {
        0
    } else {
        resolved_count(refs.drop_last()) + if refs.last().resolved is Some {
            1nat
        } else {
            0nat
        }
    }
}

/// A dynamic-import usage value, viewed mathematically: the name vectors
/// become sequences of character sequences, so copies compare equal.
pub enum UsageView {
    All,
    Partial(Seq<Seq<char>>),
}

/// The view of one usage value.
pub open spec fn uview(u: DynamicImportUse) -> UsageView {
    match u {
        DynamicImportUse::All => UsageView::All,
        DynamicImportUse::Partial(names) => UsageView::Partial(
            Seq::new(names@.len(), |i: int| names@[i]@),
        ),
    }
}

/// The view of a span-keyed usage collection.
pub open spec fn usage_views(s: Seq<(Span, DynamicImportUse)>) -> Seq<(Span, UsageView)> {
    Seq::new(s.len(), |i: int| (s[i].0, uview(s[i].1)))
}

/// The usage collection after the dynamic-import mentions of a statement
/// passed by: a mention whose span has no collected usage yet defaults to
/// "all exports possibly used".
pub open spec fn usage_with_defaults(
    usage: Seq<(Span, UsageView)>,
    mentions: Seq<DynamicImportMention>,
) -> Seq<(Span, UsageView)>
    decreases mentions.len(),
{
    if mentions.len() == 0 {
        usage
    } else {
        let prev = usage_with_defaults(usage, mentions.drop_last());
        if lookup_span(prev, mentions.last().span) is None {
            prev.push((mentions.last().span, UsageView::All))
        } else {
            prev
        }
    }
}

/// The immutable-write warnings a statement's resolved references produce,
/// reference by reference, in order.
pub open spec fn plain_ref_warnings(
    filename: String,
    symbols: SymbolTable,
    scopes: AstScopes,
    refs: Seq<ReferenceFact>,
) -> Seq<BuildWarning>
    decreases refs.len(),
{
    if refs.len() == 0 {
        Seq::empty()
    } else {
        let rest = plain_ref_warnings(filename, symbols, scopes, refs.drop_last());
        match refs.last().resolved {
            Some(sym) => rest + (if symbols.is_const@[sym as int] {
                const_assign_warnings(
                    filename,
                    symbols.names@[sym as int],
                    symbols.spans@[sym as int],
                    scopes.spec_references_of(sym),
                )
            } else {
                Seq::empty()
            }),
            None => rest,
        }
    }
}

/// Whether `e` is exactly the referenced-symbol entry one resolved
/// reference records (member chains compared by their characters).
pub open spec fn reference_entry_matches(
    idx: u32,
    f: ReferenceFact,
    e: SymbolOrMemberExprRef,
) -> bool {
    match f.resolved {
        Some(sym) => if f.member_chain@.len() == 0 {
            e == SymbolOrMemberExprRef::Symbol(SymbolRef { owner: idx, symbol: sym })
        } else {
            e matches SymbolOrMemberExprRef::MemberExpr(r, chain) && r == (SymbolRef {
                owner: idx,
                symbol: sym,
            }) && chain@.len() == f.member_chain@.len() && (forall|i: int|
                0 <= i < chain@.len() ==> (#[trigger] chain@[i])@ == f.member_chain@[i]@)
        },
        None => true,
    }
}

/// A resolved reference strictly grows the resolved count of any longer
/// prefix it sits in.
proof fn lemma_resolved_count_mono(refs: Seq<ReferenceFact>, j: int, k: int)
    requires
        0 <= j < k <= refs.len(),
    ensures
        resolved_count(refs.take(j)) + (if refs[j].resolved is Some {
            1nat
        } else {
            0nat
        }) <= resolved_count(refs.take(k)),
    decreases k,
{
    if k == j + 1 {
        assert(refs.take(k).drop_last() =~= refs.take(j));
        assert(refs.take(k).last() == refs[j]);
    } else {
        lemma_resolved_count_mono(refs, j, k - 1);
        assert(refs.take(k).drop_last() =~= refs.take(k - 1));
    }
}

/// Whether some collected usage is keyed by `k`.
fn usage_has_span(v: &Vec<(Span, DynamicImportUse)>, k: Span) -> (r: bool)
    ensures
        r == (lookup_span(usage_views(v@), k) is Some),
{
    let ghost w = usage_views(v@);
    let mut i = v.len();
    proof {
        assert(w.take(i as int) =~= w);
    }
    while i > 0
        invariant
            i <= v@.len(),
            w == usage_views(v@),
            w.len() == v@.len(),
            lookup_span(w, k) == lookup_span(w.take(i as int), k),
        decreases i,
    {
        i -= 1;
        proof {
            assert(w.take(i as int + 1).drop_last() =~= w.take(i as int));
            assert(w.take(i as int + 1).last() == w[i as int]);
            assert(w[i as int].0 == v@[i as int].0);
        }
        if v[i].0 == k {
            return true;
        }
    }
    false
}

impl AstScanner {
    /// Scans a plain top-level statement's extracted facts: declared and
    /// referenced symbols (with the immutable-write diagnostic per resolved
    /// reference), CommonJS interop marker uses, and dynamic imports with
    /// their destructuring-derived usage.
    pub fn scan_plain_stmt(&mut self, p: &PlainStmt)
        requires
            old(self).wf(),
            old(self).symbols.spec_len() + p.dynamic_imports@.len() <= u32::MAX,
            forall|k: int|
                0 <= k < p.references@.len() ==> match (#[trigger] p.references@[k]).resolved {
                    Some(sym) => sym < old(self).symbols.spec_len(),
                    None => true,
                },
        ensures
            final(self).wf(),
            // interop markers accumulate
            final(self).used_exports_ref == (old(self).used_exports_ref || p.uses_exports_ref),
            final(self).used_module_ref == (old(self).used_module_ref || p.uses_module_ref),
            final(self).esm_export_keyword == old(self).esm_export_keyword,
            final(self).esm_import_keyword == old(self).esm_import_keyword,
            // declared and referenced symbols land on the current statement
            final(self).current_stmt_info.declared_symbols@.len() == old(self).current_stmt_info.declared_symbols@.len() + p.declared@.len(),
            forall|k: int|
                0 <= k < p.declared@.len() ==> final(self).current_stmt_info.declared_symbols@[old(self).current_stmt_info.declared_symbols@.len() + k] == (SymbolRef {
                    owner: old(self).idx,
                    symbol: #[trigger] p.declared@[k],
                }),
            final(self).current_stmt_info.referenced_symbols@.len() == old(self).current_stmt_info.referenced_symbols@.len() + resolved_count(p.references@),
            // each resolved reference is recorded against the statement, at
            // the position its predecessors left it
            forall|k: int|
                0 <= k < p.references@.len() && (#[trigger] p.references@[k]).resolved is Some
                    ==> reference_entry_matches(
                    old(self).idx,
                    p.references@[k],
                    final(self).current_stmt_info.referenced_symbols@[old(
                        self,
                    ).current_stmt_info.referenced_symbols@.len() + resolved_count(
                        p.references@.take(k),
                    ) as int],
                ),
            // exactly the immutable-write warnings of the resolved
            // references are appended, in reference order
            final(self).result.warnings@ == old(self).result.warnings@ + plain_ref_warnings(
                old(self).file_path,
                old(self).symbols,
                old(self).scopes,
                p.references@,
            ),
            forall|j: int|
                0 <= j < old(self).result.warnings@.len() ==> final(self).result.warnings@[j]
                    == old(self).result.warnings@[j],
            // one dynamic-import record per mention, in order
            final(self).result.import_records@.len() == old(self).result.import_records@.len()
                + p.dynamic_imports@.len(),
            forall|j: int|
                0 <= j < old(self).result.import_records@.len() ==> final(self).result.import_records@[j] == old(self).result.import_records@[j],
            forall|k: int|
                0 <= k < p.dynamic_imports@.len() ==> final(self).result.import_records@[old(
                    self,
                ).result.import_records@.len() + k] == (ImportRecord {
                    module_request: (#[trigger] p.dynamic_imports@[k]).specifier,
                    kind: ImportKind::DynamicImport,
                    namespace_ref: final(self).result.import_records@[old(
                        self,
                    ).result.import_records@.len() + k].namespace_ref,
                    contains_import_default: false,
                    contains_import_star: false,
                    is_plain_import: false,
                }),
            final(self).result.imports@.len() == old(self).result.imports@.len()
                + p.dynamic_imports@.len(),
            forall|j: int|
                0 <= j < old(self).result.imports@.len() ==> final(self).result.imports@[j]
                    == old(self).result.imports@[j],
            forall|k: int|
                0 <= k < p.dynamic_imports@.len() ==> final(self).result.imports@[old(self).result.imports@.len() + k] == (
                    (#[trigger] p.dynamic_imports@[k]).span,
                    (old(self).result.import_records@.len() + k) as usize,
                ),
            // the collected usage: the statement's destructuring-derived
            // entries, then a default of All for any mention not yet covered
            usage_views(final(self).dynamic_import_usage@) == usage_with_defaults(
                usage_views(old(self).dynamic_import_usage@) + usage_views(p.dynamic_usages@),
                p.dynamic_imports@,
            ),
            final(self).result.stmt_infos == old(self).result.stmt_infos,
            final(self).result.exports_kind == old(self).result.exports_kind,
            final(self).result.default_export_ref == old(self).result.default_export_ref,
            final(self).result.named_exports == old(self).result.named_exports,
            final(self).result.named_imports == old(self).result.named_imports,
            final(self).result.star_exports == old(self).result.star_exports,
            final(self).result.normalized_dynamic_import_usage == old(self).result.normalized_dynamic_import_usage,
            final(self).idx == old(self).idx,
            final(self).module_type == old(self).module_type,
            final(self).file_path == old(self).file_path,
            final(self).scopes == old(self).scopes,
            final(self).namespace_object_ref == old(self).namespace_object_ref,
            final(self).result.repr_name == old(self).result.repr_name,
            old(self).symbols.spec_len() <= final(self).symbols.spec_len() <= old(
                self,
            ).symbols.spec_len() + p.dynamic_imports@.len(),
            symbols_extends(old(self).symbols, final(self).symbols),
    {
        // declared symbols
        let nd = p.declared.len();
        let mut k: usize = 0;
        while k < nd
            invariant
                nd == p.declared@.len(),
                k <= nd,
                self.current_stmt_info.declared_symbols@.len() == old(self).current_stmt_info.declared_symbols@.len() + k,
                forall|j: int|
                    0 <= j < k ==> self.current_stmt_info.declared_symbols@[old(self).current_stmt_info.declared_symbols@.len() + j] == (SymbolRef {
                        owner: old(self).idx,
                        symbol: #[trigger] p.declared@[j],
                    }),
                forall|j: int|
                    0 <= j < old(self).current_stmt_info.declared_symbols@.len()
                        ==> self.current_stmt_info.declared_symbols@[j] == old(self).current_stmt_info.declared_symbols@[j],
                self.current_stmt_info == (StmtInfo {
                    declared_symbols: self.current_stmt_info.declared_symbols,
                    ..old(self).current_stmt_info
                }),
                *self == (AstScanner {
                    current_stmt_info: self.current_stmt_info,
                    ..*old(self)
                }),
            decreases nd - k,
        {
            self.add_declared_id(p.declared[k]);
            k += 1;
        }
        // references and the immutable-write diagnostic
        let ghost after_decls = *self;
        let nr = p.references.len();
        let mut k2: usize = 0;
        while k2 < nr
            invariant
                self.wf(),
                nr == p.references@.len(),
                k2 <= nr,
                forall|j: int|
                    0 <= j < p.references@.len() ==> match (#[trigger] p.references@[j]).resolved {
                        Some(sym) => sym < after_decls.symbols.spec_len(),
                        None => true,
                    },
                self.current_stmt_info.referenced_symbols@.len()
                    == after_decls.current_stmt_info.referenced_symbols@.len() + resolved_count(
                    p.references@.take(k2 as int),
                ),
                forall|j: int|
                    0 <= j < k2 && (#[trigger] p.references@[j]).resolved is Some
                        ==> reference_entry_matches(
                        after_decls.idx,
                        p.references@[j],
                        self.current_stmt_info.referenced_symbols@[
                            after_decls.current_stmt_info.referenced_symbols@.len()
                            + resolved_count(p.references@.take(j)) as int],
                    ),
                self.result.warnings@ == after_decls.result.warnings@ + plain_ref_warnings(
                    after_decls.file_path,
                    after_decls.symbols,
                    after_decls.scopes,
                    p.references@.take(k2 as int),
                ),
                self.current_stmt_info == (StmtInfo {
                    referenced_symbols: self.current_stmt_info.referenced_symbols,
                    ..after_decls.current_stmt_info
                }),
                self.result == (ScanResult {
                    warnings: self.result.warnings,
                    ..after_decls.result
                }),
                *self == (AstScanner {
                    current_stmt_info: self.current_stmt_info,
                    result: self.result,
                    ..after_decls
                }),
            decreases nr - k2,
        {
            let ghost pre_w = self.result.warnings@;
            let ghost pre_refs = self.current_stmt_info.referenced_symbols@;
            let ghost pre_count = resolved_count(p.references@.take(k2 as int));
            match p.references[k2].resolved {
                Some(sym) => {
                    if p.references[k2].member_chain.len() == 0 {
                        self.add_referenced_symbol(sym);
                    } else {
                        let mut chain: Vec<String> = Vec::new();
                        let nc = p.references[k2].member_chain.len();
                        let mut c: usize = 0;
                        while c < nc
                            invariant
                                nc == p.references@[k2 as int].member_chain@.len(),
                                c <= nc,
                                chain@.len() == c,
                                forall|j: int|
                                    0 <= j < c ==> #[trigger] chain@[j] == p.references@[
                                        k2 as int].member_chain@[j],
                                k2 < p.references@.len(),
                            decreases nc - c,
                        {
                            chain.push(p.references[k2].member_chain[c].clone());
                            c += 1;
                        }
                        self.add_member_expr_reference(sym, chain);
                    }
                    self.try_diagnostic_forbid_const_assign(sym);
                },
                None => {},
            }
            proof {
                assert(p.references@.take(k2 as int + 1).drop_last() =~= p.references@.take(
                    k2 as int,
                ));
                assert(p.references@.take(k2 as int + 1).last() == p.references@[k2 as int]);
                assert(self.result.warnings@ =~= after_decls.result.warnings@
                    + plain_ref_warnings(
                    after_decls.file_path,
                    after_decls.symbols,
                    after_decls.scopes,
                    p.references@.take(k2 as int + 1),
                ));
                assert forall|j: int|
                    0 <= j < k2 as int + 1 && (#[trigger] p.references@[j]).resolved is Some
                        implies reference_entry_matches(
                    after_decls.idx,
                    p.references@[j],
                    self.current_stmt_info.referenced_symbols@[
                        after_decls.current_stmt_info.referenced_symbols@.len() + resolved_count(
                        p.references@.take(j),
                    ) as int],
                ) by {
                    if j < k2 as int {
                        lemma_resolved_count_mono(p.references@, j, k2 as int);
                        assert(resolved_count(p.references@.take(j)) < pre_count);
                        assert(self.current_stmt_info.referenced_symbols@[
                            after_decls.current_stmt_info.referenced_symbols@.len()
                            + resolved_count(p.references@.take(j)) as int] == pre_refs[
                            after_decls.current_stmt_info.referenced_symbols@.len()
                            + resolved_count(p.references@.take(j)) as int]);
                    } else {
                        assert(self.current_stmt_info.referenced_symbols@.last()
                            == self.current_stmt_info.referenced_symbols@[
                            after_decls.current_stmt_info.referenced_symbols@.len()
                            + pre_count as int]);
                    }
                }
            }
            k2 += 1;
        }
        proof {
            assert(p.references@.take(nr as int) =~= p.references@);
        }
        // CommonJS interop markers
        if p.uses_exports_ref {
            self.used_exports_ref = true;
        }
        if p.uses_module_ref {
            self.used_module_ref = true;
        }
        // the statement's destructuring-derived usage entries
        let ghost after_refs = *self;
        let nu = p.dynamic_usages.len();
        let mut k3: usize = 0;
        while k3 < nu
            invariant
                nu == p.dynamic_usages@.len(),
                k3 <= nu,
                k3 < nu ==> k3 < p.dynamic_usages@.len(),
                usage_views(self.dynamic_import_usage@) == usage_views(
                    after_refs.dynamic_import_usage@,
                ) + usage_views(p.dynamic_usages@.take(k3 as int)),
                *self == (AstScanner {
                    dynamic_import_usage: self.dynamic_import_usage,
                    ..after_refs
                }),
            decreases nu - k3,
        {
            let span = p.dynamic_usages[k3].0;
            let usage = match &p.dynamic_usages[k3].1 {
                DynamicImportUse::All => DynamicImportUse::All,
                DynamicImportUse::Partial(names) => {
                    let mut copied: Vec<String> = Vec::new();
                    let nn = names.len();
                    let mut c: usize = 0;
                    while c < nn
                        invariant
                            nn == names@.len(),
                            c <= nn,
                            copied@.len() == c,
                            forall|j: int| 0 <= j < c ==> copied@[j] == names@[j],
                        decreases nn - c,
                    {
                        copied.push(names[c].clone());
                        c += 1;
                    }
                    proof {
                        assert(copied@ =~= names@);
                    }
                    DynamicImportUse::Partial(copied)
                },
            };
            proof {
                assert(uview(usage) == uview(p.dynamic_usages@[k3 as int].1)) by {
                    match p.dynamic_usages@[k3 as int].1 {
                        DynamicImportUse::All => {},
                        DynamicImportUse::Partial(names) => {
                            match usage {
                                DynamicImportUse::All => {},
                                DynamicImportUse::Partial(copied2) => {
                                    assert(Seq::new(copied2@.len(), |i: int| copied2@[i]@)
                                        =~= Seq::new(names@.len(), |i: int| names@[i]@));
                                },
                            }
                        },
                    }
                }
            }
            let ghost pre_u = self.dynamic_import_usage@;
            self.dynamic_import_usage.push((span, usage));
            proof {
                assert(self.dynamic_import_usage@ == pre_u.push((span, usage)));
                assert(usage_views(pre_u) == usage_views(after_refs.dynamic_import_usage@)
                    + usage_views(p.dynamic_usages@.take(k3 as int)));
                let lhs = usage_views(self.dynamic_import_usage@);
                let rhs = usage_views(after_refs.dynamic_import_usage@) + usage_views(
                    p.dynamic_usages@.take(k3 as int + 1),
                );
                assert(usage_views(pre_u).len() == pre_u.len());
                assert(pre_u.len() == after_refs.dynamic_import_usage@.len() + k3);
                assert(lhs.len() == pre_u.len() + 1);
                assert(p.dynamic_usages@.take(k3 as int + 1).len() == k3 + 1);
                assert(rhs.len() == after_refs.dynamic_import_usage@.len() + k3 + 1);
                assert(lhs.len() == rhs.len());
                assert forall|i: int| 0 <= i < lhs.len() implies lhs[i] == rhs[i] by {
                    let base = after_refs.dynamic_import_usage@.len();
                    if i < base + k3 {
                        assert(self.dynamic_import_usage@[i] == pre_u[i]);
                        assert(lhs[i] == usage_views(pre_u)[i]);
                        assert(rhs[i] == (usage_views(after_refs.dynamic_import_usage@)
                            + usage_views(p.dynamic_usages@.take(k3 as int)))[i]);
                        assert(p.dynamic_usages@.take(k3 as int + 1).take(k3 as int)
                            =~= p.dynamic_usages@.take(k3 as int));
                    } else {
                        assert(lhs[i] == (self.dynamic_import_usage@[i].0, uview(
                            self.dynamic_import_usage@[i].1,
                        )));
                        assert(self.dynamic_import_usage@[i] == (span, usage));
                        assert(rhs[i] == usage_views(p.dynamic_usages@.take(k3 as int + 1))[
                            i - base]);
                        assert(p.dynamic_usages@.take(k3 as int + 1)[i - base]
                            == p.dynamic_usages@[k3 as int]);
                    }
                }
                assert(lhs =~= rhs);
            }
            k3 += 1;
        }

        proof {
            assert(usage_views(p.dynamic_usages@.take(nu as int)) =~= usage_views(
                p.dynamic_usages@,
            ));
        }
        // one record per dynamic import, defaulting its usage to All
        let ghost after_usage = *self;
        let nm = p.dynamic_imports.len();
        let mut k4: usize = 0;
        while k4 < nm
            invariant
                self.wf(),
                nm == p.dynamic_imports@.len(),
                k4 <= nm,
                after_usage.symbols.spec_len() + nm <= u32::MAX,
                self.symbols.spec_len() == after_usage.symbols.spec_len() + k4,
                symbols_extends(after_usage.symbols, self.symbols),
                self.result.import_records@.len() == after_usage.result.import_records@.len()
                    + k4,
                forall|j: int|
                    0 <= j < after_usage.result.import_records@.len()
                        ==> self.result.import_records@[j]
                        == after_usage.result.import_records@[j],
                forall|j: int|
                    0 <= j < k4 ==> self.result.import_records@[
                        after_usage.result.import_records@.len() + j] == (ImportRecord {
                        module_request: (#[trigger] p.dynamic_imports@[j]).specifier,
                        kind: ImportKind::DynamicImport,
                        namespace_ref: self.result.import_records@[
                            after_usage.result.import_records@.len() + j].namespace_ref,
                        contains_import_default: false,
                        contains_import_star: false,
                        is_plain_import: false,
                    }),
                self.result.imports@.len() == after_usage.result.imports@.len() + k4,
                forall|j: int|
                    0 <= j < after_usage.result.imports@.len() ==> self.result.imports@[j]
                        == after_usage.result.imports@[j],
                forall|j: int|
                    0 <= j < k4 ==> self.result.imports@[after_usage.result.imports@.len() + j]
                        == (
                        (#[trigger] p.dynamic_imports@[j]).span,
                        (after_usage.result.import_records@.len() + j) as usize,
                    ),
                usage_views(self.dynamic_import_usage@) == usage_with_defaults(
                    usage_views(after_usage.dynamic_import_usage@),
                    p.dynamic_imports@.take(k4 as int),
                ),
                self.current_stmt_info == (StmtInfo {
                    import_records: self.current_stmt_info.import_records,
                    ..after_usage.current_stmt_info
                }),
                self.result == (ScanResult {
                    import_records: self.result.import_records,
                    imports: self.result.imports,
                    ..after_usage.result
                }),
                *self == (AstScanner {
                    symbols: self.symbols,
                    current_stmt_info: self.current_stmt_info,
                    result: self.result,
                    dynamic_import_usage: self.dynamic_import_usage,
                    ..after_usage
                }),
            decreases nm - k4,
        {
            let mention_span = p.dynamic_imports[k4].span;
            let ghost pre_syms = self.symbols;
            let rec = self.add_import_record(
                p.dynamic_imports[k4].specifier.clone(),
                ImportKind::DynamicImport,
            );
            let ghost base = after_usage.result.import_records@.len();
            proof {
                assert(self.result.import_records@.last().module_request == p.dynamic_imports@[
                    k4 as int].specifier);
                assert(self.result.import_records@.last().kind == ImportKind::DynamicImport);
            }
            proof {
                lemma_symbols_extends_trans(after_usage.symbols, pre_syms, self.symbols);
            }
            self.result.imports.push((mention_span, rec));
            let ghost mid_usage = usage_views(self.dynamic_import_usage@);
            proof {
                assert(mid_usage == usage_with_defaults(
                    usage_views(after_usage.dynamic_import_usage@),
                    p.dynamic_imports@.take(k4 as int),
                ));
            }
            let ghost pre_push = self.dynamic_import_usage@;
            if !usage_has_span(&self.dynamic_import_usage, mention_span) {
                self.dynamic_import_usage.push((mention_span, DynamicImportUse::All));
                proof {
                    assert(usage_views(self.dynamic_import_usage@) =~= usage_views(
                        pre_push,
                    ).push((mention_span, UsageView::All)));
                }
            }
            proof {
                assert(p.dynamic_imports@.take(k4 as int + 1).drop_last()
                    =~= p.dynamic_imports@.take(k4 as int));
                assert(p.dynamic_imports@.take(k4 as int + 1).last() == p.dynamic_imports@[
                    k4 as int]);
            }
            proof {
                assert forall|j: int| 0 <= j < k4 as int + 1 implies self.result.import_records@[
                    base + j] == (ImportRecord {
                    module_request: (#[trigger] p.dynamic_imports@[j]).specifier,
                    kind: ImportKind::DynamicImport,
                    namespace_ref: self.result.import_records@[base + j].namespace_ref,
                    contains_import_default: false,
                    contains_import_star: false,
                    is_plain_import: false,
                }) by {
                    if j == k4 as int {
                        assert(self.result.import_records@[base + j]
                            == self.result.import_records@.last());
                    }
                }
            }
            k4 += 1;
        }
        proof {
            assert(p.dynamic_imports@.take(nm as int) =~= p.dynamic_imports@);
            assert(after_decls.result.import_records@ == old(self).result.import_records@);
            assert(after_refs.result.import_records@ == old(self).result.import_records@);
            assert(after_usage.result.import_records@ == old(self).result.import_records@);
            assert(after_refs.dynamic_import_usage@ == old(self).dynamic_import_usage@);
            assert(usage_views(after_usage.dynamic_import_usage@) == usage_views(
                old(self).dynamic_import_usage@,
            ) + usage_views(p.dynamic_usages@));
            assert(usage_views(self.dynamic_import_usage@) == usage_with_defaults(
                usage_views(old(self).dynamic_import_usage@) + usage_views(p.dynamic_usages@),
                p.dynamic_imports@,
            ));
            assert(after_usage.result.imports@ == old(self).result.imports@);
            assert forall|k: int|
                0 <= k < p.dynamic_imports@.len() implies self.result.import_records@[old(
                self,
            ).result.import_records@.len() + k] == (ImportRecord {
                module_request: (#[trigger] p.dynamic_imports@[k]).specifier,
                kind: ImportKind::DynamicImport,
                namespace_ref: self.result.import_records@[old(
                    self,
                ).result.import_records@.len() + k].namespace_ref,
                contains_import_default: false,
                contains_import_star: false,
                is_plain_import: false,
            }) by {
                assert(self.result.import_records@[after_usage.result.import_records@.len() + k]
                    == self.result.import_records@[old(self).result.import_records@.len() + k]);
            }
        }
    }
}

/// The usage collection re-keyed by import record: entries whose span
/// matches a recorded import keep their usage under that record's id (in
/// reverse collection order, which the span keying leaves immaterial);
/// entries whose span never matched a real import record are dropped.
pub open spec fn spec_normalize(
    usage: Seq<(Span, UsageView)>,
    imports: Seq<(Span, usize)>,
) -> Seq<(usize, UsageView)>
    decreases usage.len(),
{
    if usage.len() == 0 {
        Seq::empty()
    } else {
        let rest = spec_normalize(usage.drop_last(), imports);
        match lookup_span(imports, usage.last().0) {
            Some(rec) => seq![(rec, usage.last().1)] + rest,
            None => rest,
        }
    }
}

/// The record an import-construct span maps to, if any.
fn lookup_record(v: &Vec<(Span, usize)>, k: Span) -> (r: Option<usize>)
    ensures
        r == lookup_span(v@, k),
{
    let mut i = v.len();
    proof {
        assert(v@.take(i as int) =~= v@);
    }
    while i > 0
        invariant
            i <= v@.len(),
            lookup_span(v@, k) == lookup_span(v@.take(i as int), k),
        decreases i,
    {
        i -= 1;
        proof {
            assert(v@.take(i as int + 1).drop_last() =~= v@.take(i as int));
            assert(v@.take(i as int + 1).last() == v@[i as int]);
        }
        if v[i].0 == k {
            return Some(v[i].1);
        }
    }
    None
}

/// Re-keys the span-keyed usage collection by import record, dropping
/// entries whose span matched no record.
pub fn normalize_dynamic_import_usage(
    usage: Vec<(Span, DynamicImportUse)>,
    imports: &Vec<(Span, usize)>,
) -> (r: Vec<(usize, DynamicImportUse)>)
    ensures
        Seq::new(r@.len(), |i: int| (r@[i].0, uview(r@[i].1))) == spec_normalize(
            usage_views(usage@),
            imports@,
        ),
{
    let ghost full = usage_views(usage@);
    let mut remaining = usage;
    let mut out: Vec<(usize, DynamicImportUse)> = Vec::new();
    proof {
        assert(usage_views(remaining@) =~= full);
    }
    while remaining.len() > 0
        invariant
            spec_normalize(full, imports@) == Seq::new(
                out@.len(),
                |i: int| (out@[i].0, uview(out@[i].1)),
            ) + spec_normalize(usage_views(remaining@), imports@),
        decreases remaining@.len(),
    {
        let ghost pre = remaining@;
        let (span, u) = remaining.pop().unwrap();
        proof {
            assert(usage_views(pre).drop_last() =~= usage_views(remaining@));
            assert(usage_views(pre).last() == (span, uview(u)));
        }
        match lookup_record(imports, span) {
            Some(rec) => {
                out.push((rec, u));
                proof {
                    assert(Seq::new(out@.len(), |i: int| (out@[i].0, uview(out@[i].1)))
                        + spec_normalize(usage_views(remaining@), imports@) =~= Seq::new(
                        (out@.len() - 1) as nat,
                        |i: int| (out@[i].0, uview(out@[i].1)),
                    ) + (seq![(rec, uview(u))] + spec_normalize(
                        usage_views(remaining@),
                        imports@,
                    )));
                    assert(Seq::new((out@.len() - 1) as nat, |i: int| (out@[i].0, uview(out@[i].1)))
                        =~= Seq::new(
                        (out@.len() - 1) as nat,
                        |i: int| (out@.drop_last()[i].0, uview(out@.drop_last()[i].1)),
                    ));
                }
            },
            None => {},
        }
    }
    proof {
        assert(usage_views(remaining@) =~= Seq::<(Span, UsageView)>::empty());
        assert(spec_normalize(usage_views(remaining@), imports@) =~= Seq::<
            (usize, UsageView),
        >::empty());
        assert(spec_normalize(full, imports@) =~= Seq::new(
            out@.len(),
            |i: int| (out@[i].0, uview(out@[i].1)),
        ));
    }
    out
}

/// A successful span lookup names an entry of the record list.
proof fn lemma_lookup_span_in<V>(s: Seq<(Span, V)>, k: Span)
    requires
        lookup_span(s, k) is Some,
    ensures
        exists|j: int| 0 <= j < s.len() && (#[trigger] s[j]).0 == k,
    decreases s.len(),
{
    if s.len() > 0 {
        if s.last().0 == k {
            assert(s[s.len() - 1].0 == k);
        } else {
            lemma_lookup_span_in(s.drop_last(), k);
            let j = choose|j: int| 0 <= j < s.drop_last().len() && (#[trigger] s.drop_last()[j]).0
                == k;
            assert(s[j].0 == k);
        }
    }
}

/// Every key of the normalized usage is an import-record id recorded in the
/// span map.
proof fn lemma_normalize_keys(usage: Seq<(Span, UsageView)>, imports: Seq<(Span, usize)>)
    ensures
        forall|q: int|
            0 <= q < spec_normalize(usage, imports).len() ==> exists|j: int|
                0 <= j < imports.len() && (#[trigger] imports[j]).1 == (
                #[trigger] spec_normalize(usage, imports)[q]).0,
    decreases usage.len(),
{
    if usage.len() > 0 {
        lemma_normalize_keys(usage.drop_last(), imports);
        let rest = spec_normalize(usage.drop_last(), imports);
        let cur = spec_normalize(usage, imports);
        match lookup_span(imports, usage.last().0) {
            Some(rec) => {
                lemma_lookup_span_in(imports, usage.last().0);
                assert forall|q: int| 0 <= q < cur.len() implies exists|j: int|
                    0 <= j < imports.len() && (#[trigger] imports[j]).1 == (
                    #[trigger] cur[q]).0 by {
                    if q == 0 {
                        assert(cur[0] == (rec, usage.last().1));
                        let jw = choose|j: int|
                            0 <= j < imports.len() && (#[trigger] imports[j]).0
                                == usage.last().0;
                        assert(lookup_span(imports, usage.last().0) == Some(rec));
                        lemma_lookup_span_value(imports, usage.last().0);
                    } else {
                        assert(cur[q] == rest[q - 1]);
                    }
                }
            },
            None => {
                assert(cur == rest);
            },
        }
    }
}

/// The value a successful span lookup yields is stored under that span.
proof fn lemma_lookup_span_value(s: Seq<(Span, usize)>, k: Span)
    requires
        lookup_span(s, k) is Some,
    ensures
        exists|j: int|
            0 <= j < s.len() && (#[trigger] s[j]).0 == k && Some(s[j].1) == lookup_span(s, k),
    decreases s.len(),
{
    if s.len() > 0 {
        if s.last().0 == k {
            assert(s[s.len() - 1].0 == k && Some(s[s.len() - 1].1) == lookup_span(s, k));
        } else {
            lemma_lookup_span_value(s.drop_last(), k);
            let j = choose|j: int|
                0 <= j < s.drop_last().len() && (#[trigger] s.drop_last()[j]).0 == k && Some(
                    s.drop_last()[j].1,
                ) == lookup_span(s.drop_last(), k);
            assert(s[j].0 == k && Some(s[j].1) == lookup_span(s, k));
        }
    }
}

/// The immutable-write warnings the whole body produces: the plain
/// statements' resolved references, statement by statement, against the
/// symbol table the scan started from.
pub open spec fn body_warnings(
    filename: String,
    symbols: SymbolTable,
    scopes: AstScopes,
    body: Seq<TopLevelStmt>,
) -> Seq<BuildWarning>
    decreases body.len(),
{
    if body.len() == 0 {
        Seq::empty()
    } else {
        let rest = body_warnings(filename, symbols, scopes, body.drop_last());
        match body.last() {
            TopLevelStmt::Plain(p) => rest + plain_ref_warnings(
                filename,
                symbols,
                scopes,
                p.references@,
            ),
            TopLevelStmt::Module(_) => rest,
        }
    }
}

/// The warnings of a statement's references read only the symbols the
/// references name, so any extension of the table reports the same.
proof fn lemma_plain_warnings_stable(
    filename: String,
    s1: SymbolTable,
    s2: SymbolTable,
    scopes: AstScopes,
    refs: Seq<ReferenceFact>,
)
    requires
        symbols_extends(s1, s2),
        forall|k: int|
            0 <= k < refs.len() ==> match (#[trigger] refs[k]).resolved {
                Some(sym) => sym < s1.spec_len(),
                None => true,
            },
    ensures
        plain_ref_warnings(filename, s2, scopes, refs) == plain_ref_warnings(
            filename,
            s1,
            scopes,
            refs,
        ),
    decreases refs.len(),
{
    if refs.len() > 0 {
        lemma_plain_warnings_stable(filename, s1, s2, scopes, refs.drop_last());
        assert(forall|k: int|
            0 <= k < refs.drop_last().len() ==> refs.drop_last()[k] == #[trigger] refs[k]);
        match refs.last().resolved {
            Some(sym) => {
                assert(refs[refs.len() - 1].resolved == Some(sym));
                assert(sym < s1.spec_len());
                assert(s2.names@[sym as int] == s1.names@[sym as int]);
                assert(s2.spans@[sym as int] == s1.spans@[sym as int]);
                assert(s2.is_const@[sym as int] == s1.is_const@[sym as int]);
            },
            None => {},
        }
    }
}

/// The span-keyed usage collection the whole body gathers: each plain
/// statement appends its destructuring-derived entries, then defaults each
/// of its dynamic-import mentions to All where no usage was collected.
pub open spec fn body_usage(
    acc: Seq<(Span, UsageView)>,
    body: Seq<TopLevelStmt>,
) -> Seq<(Span, UsageView)>
    decreases body.len(),
{
    if body.len() == 0 {
        acc
    } else {
        let prev = body_usage(acc, body.drop_last());
        match body.last() {
            TopLevelStmt::Plain(p) => usage_with_defaults(
                prev + usage_views(p.dynamic_usages@),
                p.dynamic_imports@,
            ),
            TopLevelStmt::Module(_) => prev,
        }
    }
}

/// Whether some statement of the prefix is ESM export syntax.
pub open spec fn body_has_esm_export(body: Seq<TopLevelStmt>) -> bool {
    exists|i: int|
        0 <= i < body.len() && ((#[trigger] body[i]) matches TopLevelStmt::Module(d) && !(d
            matches ModuleDecl::Import(_)))
}

/// Whether some statement of the prefix is a static import declaration.
pub open spec fn body_has_esm_import(body: Seq<TopLevelStmt>) -> bool {
    exists|i: int|
        0 <= i < body.len() && ((#[trigger] body[i]) matches TopLevelStmt::Module(
            ModuleDecl::Import(_),
        ))
}

/// Whether some plain statement of the prefix references the CommonJS
/// `exports` or `module` interop markers.
pub open spec fn body_uses_cjs(body: Seq<TopLevelStmt>) -> bool {
    exists|i: int|
        0 <= i < body.len() && ((#[trigger] body[i]) matches TopLevelStmt::Plain(p) && (
        p.uses_exports_ref || p.uses_module_ref))
}

/// Symbols scanning one statement synthesizes.
pub open spec fn stmt_symbol_budget(s: TopLevelStmt) -> nat {
    match s {
        TopLevelStmt::Module(d) => decl_symbol_budget(d),
        TopLevelStmt::Plain(p) => p.dynamic_imports@.len(),
    }
}

/// Symbols scanning the statement suffix from `i` on synthesizes.
pub open spec fn body_symbol_budget(body: Seq<TopLevelStmt>, i: int) -> nat
    decreases body.len() - i,
{
    if i < 0 || i >= body.len() {
        0
    } else {
        stmt_symbol_budget(body[i]) + body_symbol_budget(body, i + 1)
    }
}

/// What the scanner assumes of its input, per §6: references resolve within
/// the symbol table handed over, and re-exported local names are bound.
pub open spec fn body_input_ok(body: Seq<TopLevelStmt>, scopes: AstScopes, n_symbols: nat) -> bool {
    forall|i: int|
        0 <= i < body.len() ==> match #[trigger] body[i] {
            TopLevelStmt::Module(d) => decl_input_ok(d, scopes),
            TopLevelStmt::Plain(p) => forall|k: int|
                0 <= k < p.references@.len() ==> match (#[trigger] p.references@[k]).resolved {
                    Some(sym) => sym < n_symbols,
                    None => true,
                },
        }
}

proof fn lemma_body_take_step(body: Seq<TopLevelStmt>, i: int)
    requires
        0 <= i < body.len(),
    ensures
        body_has_esm_export(body.take(i + 1)) == (body_has_esm_export(body.take(i)) || (body[i]
            matches TopLevelStmt::Module(d) && !(d matches ModuleDecl::Import(_)))),
        body_has_esm_import(body.take(i + 1)) == (body_has_esm_import(body.take(i)) || (body[i]
            matches TopLevelStmt::Module(ModuleDecl::Import(_)))),
        body_uses_cjs(body.take(i + 1)) == (body_uses_cjs(body.take(i)) || (body[i]
            matches TopLevelStmt::Plain(p) && (p.uses_exports_ref || p.uses_module_ref))),
{
    let a = body.take(i);
    let b = body.take(i + 1);
    assert(forall|j: int| 0 <= j < i ==> a[j] == #[trigger] b[j]);
    assert(b[i] == body[i]);
    if body_has_esm_export(a) {
        let j = choose|j: int|
            0 <= j < a.len() && ((#[trigger] a[j]) matches TopLevelStmt::Module(d) && !(d
                matches ModuleDecl::Import(_)));
        assert(b[j] == a[j]);
        assert(body_has_esm_export(b));
    }
    if body_has_esm_export(b) {
        let j = choose|j: int|
            0 <= j < b.len() && ((#[trigger] b[j]) matches TopLevelStmt::Module(d) && !(d
                matches ModuleDecl::Import(_)));
        if j < i {
            assert(a[j] == b[j]);
            assert(body_has_esm_export(a));
        }
    }
    if body_has_esm_import(a) {
        let j = choose|j: int|
            0 <= j < a.len() && ((#[trigger] a[j]) matches TopLevelStmt::Module(
                ModuleDecl::Import(_),
            ));
        assert(b[j] == a[j]);
        assert(body_has_esm_import(b));
    }
    if body_has_esm_import(b) {
        let j = choose|j: int|
            0 <= j < b.len() && ((#[trigger] b[j]) matches TopLevelStmt::Module(
                ModuleDecl::Import(_),
            ));
        if j < i {
            assert(a[j] == b[j]);
            assert(body_has_esm_import(a));
        }
    }
    if body_uses_cjs(a) {
        let j = choose|j: int|
            0 <= j < a.len() && ((#[trigger] a[j]) matches TopLevelStmt::Plain(p) && (
            p.uses_exports_ref || p.uses_module_ref));
        assert(b[j] == a[j]);
        assert(body_uses_cjs(b));
    }
    if body_uses_cjs(b) {
        let j = choose|j: int|
            0 <= j < b.len() && ((#[trigger] b[j]) matches TopLevelStmt::Plain(p) && (
            p.uses_exports_ref || p.uses_module_ref));
        if j < i {
            assert(a[j] == b[j]);
            assert(body_uses_cjs(a));
        }
    }
}

impl AstScanner {
    /// Walks the module body statement by statement, collecting each
    /// statement's facts into slot `i + 1` of the statement list (slot 0
    /// stays reserved for the namespace pseudo-statement), then resolves the
    /// export kind by §4.1's precedence and re-keys the dynamic-import usage
    /// by import record. Returns the fact sheet and the extended symbol
    /// table.
    pub fn scan(self, program: &Program) -> (r: (ScanResult, SymbolTable))
        requires
            self.wf(),
            self.symbols.spec_len() + body_symbol_budget(program.body@, 0) <= u32::MAX,
            body_input_ok(program.body@, self.scopes, self.symbols.spec_len()),
        ensures
            r.1.wf(),
            // §4.1: the export kind follows from what the body holds
            r.0.exports_kind == spec_exports_kind(
                self.esm_export_keyword is Some || body_has_esm_export(program.body@),
                self.used_exports_ref || self.used_module_ref || body_uses_cjs(program.body@),
                self.module_type,
                self.esm_import_keyword is Some || body_has_esm_import(program.body@),
            ),
            // one statement-info slot per statement, after the reserved slot
            r.0.stmt_infos@.len() == self.result.stmt_infos@.len() + program.body@.len(),
            forall|j: int|
                0 <= j < self.result.stmt_infos@.len() ==> r.0.stmt_infos@[j]
                    == self.result.stmt_infos@[j],
            r.0.default_export_ref == self.result.default_export_ref,
            r.0.repr_name == self.result.repr_name,
            // the warnings are exactly the immutable-write diagnostics of
            // the body's resolved references, appended in statement order
            r.0.warnings@ == self.result.warnings@ + body_warnings(
                self.file_path,
                self.symbols,
                self.scopes,
                program.body@,
            ),
            // the collected usage is what the body's statements gathered
            r.0.collected_usage@ == body_usage(
                usage_views(self.dynamic_import_usage@),
                program.body@,
            ),
            // the normalized usage is the collected span-keyed usage,
            // re-keyed through the span map
            Seq::new(
                r.0.normalized_dynamic_import_usage@.len(),
                |i: int|
                    (
                        r.0.normalized_dynamic_import_usage@[i].0,
                        uview(r.0.normalized_dynamic_import_usage@[i].1),
                    ),
            ) == spec_normalize(r.0.collected_usage@, r.0.imports@),
            // so every key of the normalized usage is a recorded import id
            forall|q: int|
                0 <= q < r.0.normalized_dynamic_import_usage@.len() ==> exists|j: int|
                    0 <= j < r.0.imports@.len() && (#[trigger] r.0.imports@[j]).1 == (
                    #[trigger] r.0.normalized_dynamic_import_usage@[q]).0,
    {
        let mut this = self;
        let n = program.body.len();
        let mut i: usize = 0;
        let ghost start = this;
        while i < n
            invariant
                this.wf(),
                n == program.body@.len(),
                i <= n,
                this.symbols.spec_len() + body_symbol_budget(program.body@, i as int)
                    <= u32::MAX,
                this.symbols.spec_len() >= start.symbols.spec_len(),
                symbols_extends(start.symbols, this.symbols),
                this.result.warnings@ == start.result.warnings@ + body_warnings(
                    start.file_path,
                    start.symbols,
                    start.scopes,
                    program.body@.take(i as int),
                ),
                usage_views(this.dynamic_import_usage@) == body_usage(
                    usage_views(start.dynamic_import_usage@),
                    program.body@.take(i as int),
                ),
                body_input_ok(program.body@, start.scopes, start.symbols.spec_len()),
                this.scopes == start.scopes,
                this.idx == start.idx,
                this.module_type == start.module_type,
                this.file_path == start.file_path,
                this.namespace_object_ref == start.namespace_object_ref,
                this.result.repr_name == start.result.repr_name,
                this.result.default_export_ref == start.result.default_export_ref,
                this.result.exports_kind == start.result.exports_kind,
                this.result.normalized_dynamic_import_usage
                    == start.result.normalized_dynamic_import_usage,
                this.esm_export_keyword is Some <==> (start.esm_export_keyword is Some
                    || body_has_esm_export(program.body@.take(i as int))),
                this.esm_import_keyword is Some <==> (start.esm_import_keyword is Some
                    || body_has_esm_import(program.body@.take(i as int))),
                (this.used_exports_ref || this.used_module_ref) <==> (start.used_exports_ref
                    || start.used_module_ref || body_uses_cjs(program.body@.take(i as int))),
                this.result.stmt_infos@.len() == start.result.stmt_infos@.len() + i,
                forall|j: int|
                    0 <= j < start.result.stmt_infos@.len() ==> this.result.stmt_infos@[j]
                        == start.result.stmt_infos@[j],
            decreases n - i,
        {
            let ghost pre = this;
            let mut info = StmtInfo::new_at(i + 1);
            core::mem::swap(&mut info, &mut this.current_stmt_info);
            match &program.body[i] {
                TopLevelStmt::Module(decl) => {
                    proof {
                        assert(body_symbol_budget(program.body@, i as int) == stmt_symbol_budget(
                            program.body@[i as int],
                        ) + body_symbol_budget(program.body@, i as int + 1));
                        assert(decl_input_ok(*decl, this.scopes));
                    }
                    this.scan_module_decl(decl);
                },
                TopLevelStmt::Plain(p) => {
                    proof {
                        assert(body_symbol_budget(program.body@, i as int) == stmt_symbol_budget(
                            program.body@[i as int],
                        ) + body_symbol_budget(program.body@, i as int + 1));
                    }
                    this.scan_plain_stmt(p);
                },
            }
            let mut done = StmtInfo::new_empty();
            core::mem::swap(&mut done, &mut this.current_stmt_info);
            this.result.stmt_infos.push(done);
            proof {
                lemma_body_take_step(program.body@, i as int);
                lemma_symbols_extends_trans(start.symbols, pre.symbols, this.symbols);
                assert(program.body@.take(i as int + 1).drop_last() =~= program.body@.take(
                    i as int,
                ));
                assert(program.body@.take(i as int + 1).last() == program.body@[i as int]);
                match program.body@[i as int] {
                    TopLevelStmt::Plain(p) => {
                        lemma_plain_warnings_stable(
                            start.file_path,
                            start.symbols,
                            pre.symbols,
                            start.scopes,
                            p.references@,
                        );
                        assert(this.result.warnings@ =~= start.result.warnings@ + body_warnings(
                            start.file_path,
                            start.symbols,
                            start.scopes,
                            program.body@.take(i as int + 1),
                        ));
                        assert(usage_views(this.dynamic_import_usage@) == body_usage(
                            usage_views(start.dynamic_import_usage@),
                            program.body@.take(i as int + 1),
                        ));
                    },
                    TopLevelStmt::Module(_) => {
                        assert(this.result.warnings@ =~= start.result.warnings@ + body_warnings(
                            start.file_path,
                            start.symbols,
                            start.scopes,
                            program.body@.take(i as int + 1),
                        ));
                        assert(usage_views(this.dynamic_import_usage@) == body_usage(
                            usage_views(start.dynamic_import_usage@),
                            program.body@.take(i as int + 1),
                        ));
                    },
                }
            }
            i += 1;
        }
        proof {
            assert(program.body@.take(n as int) =~= program.body@);
        }
        let kind = resolve_exports_kind(
            this.esm_export_keyword.is_some(),
            this.used_exports_ref || this.used_module_ref,
            this.module_type,
            this.esm_import_keyword.is_some(),
        );
        this.result.exports_kind = kind;
        let mut usage: Vec<(Span, DynamicImportUse)> = Vec::new();
        core::mem::swap(&mut usage, &mut this.dynamic_import_usage);
        this.result.collected_usage = Ghost(usage_views(usage@));
        let normalized = normalize_dynamic_import_usage(usage, &this.result.imports);
        this.result.normalized_dynamic_import_usage = normalized;
        proof {
            lemma_normalize_keys(this.result.collected_usage@, this.result.imports@);
            assert forall|q: int|
                0 <= q < this.result.normalized_dynamic_import_usage@.len() implies exists|
                j: int,
            |
                0 <= j < this.result.imports@.len() && (#[trigger] this.result.imports@[j]).1 == (
                #[trigger] this.result.normalized_dynamic_import_usage@[q]).0 by {
                let views = Seq::new(
                    this.result.normalized_dynamic_import_usage@.len(),
                    |i: int|
                        (
                            this.result.normalized_dynamic_import_usage@[i].0,
                            uview(this.result.normalized_dynamic_import_usage@[i].1),
                        ),
                );
                assert(views[q].0 == this.result.normalized_dynamic_import_usage@[q].0);
                assert(views[q] == spec_normalize(
                    this.result.collected_usage@,
                    this.result.imports@,
                )[q]);
            }
        }
        let AstScanner { result, symbols, .. } = this;
        (result, symbols)
    }
}

} // verus!
