use vstd::prelude::*;
use crate::span::Span;

verus! {

/// A stable, globally unique symbol identity: the owning module's index
/// paired with the symbol's index in that module's table. Never reused.
#[derive(Clone, Copy, Debug, PartialEq, Eq, Structural, Hash)]
pub struct SymbolRef {
    pub owner: u32,
    pub symbol: u32,
}

impl SymbolRef {
    pub fn new(owner: u32, symbol: u32) -> (r: SymbolRef)
        ensures
            r.owner == owner,
            r.symbol == symbol,
    {
        SymbolRef { owner, symbol }
    }
}

/// One resolved reference site of a symbol, as the upstream scope analysis
/// reports it.
#[derive(Clone, Copy, Debug, PartialEq, Eq, Structural)]
pub struct RefSite {
    pub span: Span,
    pub is_write: bool,
}

/// The per-module symbol table handed over by the parser's resolution pass,
/// extended by the scanner with synthesized bindings. The arena index of a
/// symbol is its identity for the module's lifetime.
#[derive(Clone, Debug)]
pub struct SymbolTable {
    pub names: Vec<String>,
    pub scope_ids: Vec<u32>,
    pub is_const: Vec<bool>,
    pub spans: Vec<Span>,
}

impl SymbolTable {
    /// All four columns describe the same symbols.
    pub open spec fn wf(&self) -> bool {
        &&& self.scope_ids@.len() == self.names@.len()
        &&& self.is_const@.len() == self.names@.len()
        &&& self.spans@.len() == self.names@.len()
    }

    pub open spec fn spec_len(&self) -> nat {
        self.names@.len()
    }

    pub fn new() -> (r: SymbolTable)
        ensures
            r.wf(),
            r.spec_len() == 0,
    {
        SymbolTable {
            names: Vec::new(),
            scope_ids: Vec::new(),
            is_const: Vec::new(),
            spans: Vec::new(),
        }
    }

    pub fn len(&self) -> (n: usize)
        requires
            self.wf(),
        ensures
            n == self.spec_len(),
    {
        self.names.len()
    }

    /// Appends a fresh symbol and returns its index. Synthesized symbols get
    /// an empty span and are never immutable bindings.
    pub fn create_symbol(&mut self, name: String, scope_id: u32) -> (id: u32)
        requires
            old(self).wf(),
            old(self).spec_len() < u32::MAX,
        ensures
            final(self).wf(),
            id == old(self).spec_len(),
            final(self).names@ == old(self).names@.push(name),
            final(self).scope_ids@ == old(self).scope_ids@.push(scope_id),
            final(self).is_const@ == old(self).is_const@.push(false),
            final(self).spans@ == old(self).spans@.push(Span { start: 0, end: 0 }),
            symbols_extends(*old(self), *final(self)),
    {
        let id = self.names.len() as u32;
        self.names.push(name);
        self.scope_ids.push(scope_id);
        self.is_const.push(false);
        self.spans.push(Span { start: 0, end: 0 });
        id
    }

    pub fn get_name(&self, id: u32) -> (name: &String)
        requires
            self.wf(),
            id < self.spec_len(),
        ensures
            name == self.names@[id as int],
    {
        &self.names[id as usize]
    }

    pub fn scope_id_for(&self, id: u32) -> (scope: u32)
        requires
            self.wf(),
            id < self.spec_len(),
        ensures
            scope == self.scope_ids@[id as int],
    {
        self.scope_ids[id as usize]
    }

    pub fn get_span(&self, id: u32) -> (span: Span)
        requires
            self.wf(),
            id < self.spec_len(),
        ensures
            span == self.spans@[id as int],
    {
        self.spans[id as usize]
    }

    /// Whether the symbol was declared as an immutable (`const`) binding.
    pub fn is_const_symbol(&self, id: u32) -> (r: bool)
        requires
            self.wf(),
            id < self.spec_len(),
        ensures
            r == self.is_const@[id as int],
    {
        self.is_const[id as usize]
    }
}

/// `post` extends `pre`: every symbol of `pre` keeps its name, span, scope
/// and mutability; new symbols only append.
pub open spec fn symbols_extends(pre: SymbolTable, post: SymbolTable) -> bool {
    &&& pre.spec_len() <= post.spec_len()
    &&& forall|i: int|
        0 <= i < pre.spec_len() ==> #[trigger] post.names@[i] == pre.names@[i]
            && post.spans@[i] == pre.spans@[i] && post.is_const@[i] == pre.is_const@[i]
            && post.scope_ids@[i] == pre.scope_ids@[i]
}

/// Extension is transitive.
pub proof fn lemma_symbols_extends_trans(a: SymbolTable, b: SymbolTable, c: SymbolTable)
    requires
        symbols_extends(a, b),
        symbols_extends(b, c),
    ensures
        symbols_extends(a, c),
{
}

/// The scope information handed over by the parser's resolution pass:
/// the root scope, its bindings, and each symbol's resolved reference sites.
#[derive(Clone, Debug)]
pub struct AstScopes {
    pub root_scope_id: u32,
    /// Top-level bindings, name to symbol index.
    pub root_binding_names: Vec<String>,
    pub root_binding_symbols: Vec<u32>,
    /// Reference sites per symbol index; symbols past the end have none.
    pub references: Vec<Vec<RefSite>>,
}

impl AstScopes {
    pub open spec fn wf(&self) -> bool {
        self.root_binding_symbols@.len() == self.root_binding_names@.len()
    }

    /// Whether `name` is bound at the top level.
    pub open spec fn spec_has_root_binding(&self, name: Seq<char>) -> bool {
        exists|i: int|
            0 <= i < self.root_binding_names@.len() && self.root_binding_names@[i]@ == name
    }

    /// The symbol of the first top-level binding named `name`, scanning the
    /// binding list from index `i` on; 0 where none is (unused: the scanner
    /// only asks for bound names).
    pub open spec fn spec_root_binding_from(&self, name: Seq<char>, i: int) -> u32
        decreases self.root_binding_names@.len() - i,
    {
        if i < 0 || i >= self.root_binding_names@.len() {
            0
        } else if self.root_binding_names@[i]@ == name {
            self.root_binding_symbols@[i]
        } else {
            self.spec_root_binding_from(name, i + 1)
        }
    }

    /// The symbol bound to `name` at the top level.
    pub open spec fn spec_root_binding(&self, name: Seq<char>) -> u32 {
        self.spec_root_binding_from(name, 0)
    }

    pub fn root_scope_id(&self) -> (r: u32)
        ensures
            r == self.root_scope_id,
    {
        self.root_scope_id
    }

    /// Looks a name up among the top-level bindings. The scanner only asks
    /// for names the resolution pass has already bound.
    pub fn get_root_binding(&self, name: &String) -> (r: u32)
        requires
            self.wf(),
            self.spec_has_root_binding(name@),
        ensures
            r == self.spec_root_binding(name@),
    {
        let n = self.root_binding_names.len();
        let mut i: usize = 0;
        while i < n
            invariant
                self.wf(),
                n == self.root_binding_names@.len(),
                i <= n,
                self.spec_has_root_binding(name@),
                forall|j: int| 0 <= j < i ==> self.root_binding_names@[j]@ != name@,
                self.spec_root_binding(name@) == self.spec_root_binding_from(name@, i as int),
            decreases n - i,
        {
            if self.root_binding_names[i].eq(name) {
                return self.root_binding_symbols[i];
            }
            i += 1;
        }
        proof {
            assert(false);
        }
        0
    }

    /// Reference sites the resolution pass recorded for a symbol.
    pub open spec fn spec_references_of(&self, id: u32) -> Seq<RefSite> {
        if id < self.references@.len() {
            self.references@[id as int]@
        } else {
            Seq::empty()
        }
    }
}

} // verus!
