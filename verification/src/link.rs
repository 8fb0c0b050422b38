use vstd::prelude::*;
use crate::facts::{BuildWarning, ImportKind};

verus! {

/// A module in the assembled graph: one with source and statements, or an
/// external one that is only scheduled as a prerequisite.
#[derive(Clone, Copy, Debug, PartialEq, Eq, Structural, Hash)]
pub enum ModuleId {
    Normal(u32),
    External(u32),
}

/// An import record after cross-module resolution: the reference kind plus
/// the concrete module it resolved to.
#[derive(Clone, Copy, Debug, PartialEq, Eq, Structural)]
pub struct ResolvedImportRecord {
    pub kind: ImportKind,
    pub resolved_module: ModuleId,
}

/// The execution order value of a module before the resolver assigns one.
pub const EXEC_ORDER_UNSET: u32 = u32::MAX;

/// A module with source: its identity string, its resolved import records in
/// declaration order, and the execution order the resolver assigns.
#[derive(Clone, Debug)]
pub struct NormalModule {
    pub resource_id: String,
    pub import_records: Vec<ResolvedImportRecord>,
    pub exec_order: u32,
}

/// A module without source; it still receives an execution order so it can
/// be scheduled before its importers.
#[derive(Clone, Debug)]
pub struct ExternalModule {
    pub resource_id: String,
    pub exec_order: u32,
}

/// The whole-graph module table the resolver takes an exclusive pass over.
#[derive(Clone, Debug)]
pub struct ModuleTable {
    pub normal_modules: Vec<NormalModule>,
    pub external_modules: Vec<ExternalModule>,
}

impl ModuleTable {
    /// `id` names a module of this table.
    pub open spec fn valid_id(&self, id: ModuleId) -> bool {
        match id {
            ModuleId::Normal(i) => i < self.normal_modules@.len(),
            ModuleId::External(i) => i < self.external_modules@.len(),
        }
    }

    /// The import records of normal module `i`.
    pub open spec fn recs_of(&self, i: int) -> Seq<ResolvedImportRecord> {
        self.normal_modules@[i].import_records@
    }

    /// `d` is a statically imported (or required) target of `m`. Dynamic
    /// references are no edges: they do not constrain execution order.
    pub open spec fn is_static_dep(&self, m: ModuleId, d: ModuleId) -> bool {
        match m {
            ModuleId::Normal(i) => i < self.normal_modules@.len() && exists|k: int|
                0 <= k < self.recs_of(i as int).len() && self.recs_of(i as int)[k].kind.spec_is_static()
                    && self.recs_of(i as int)[k].resolved_module == d,
            ModuleId::External(_) => false,
        }
    }

    /// The execution order currently stored for `id`.
    pub open spec fn order_of(&self, id: ModuleId) -> u32 {
        match id {
            ModuleId::Normal(i) => self.normal_modules@[i as int].exec_order,
            ModuleId::External(i) => self.external_modules@[i as int].exec_order,
        }
    }

    pub open spec fn ordered(&self, id: ModuleId) -> bool {
        self.order_of(id) != EXEC_ORDER_UNSET
    }

    /// Every resolved import target names a module of the table.
    pub open spec fn deps_in_bounds(&self) -> bool {
        forall|i: int, k: int|
            0 <= i < self.normal_modules@.len() && 0 <= k < self.recs_of(i).len()
                ==> self.valid_id(#[trigger] self.recs_of(i)[k].resolved_module)
    }

    /// Two tables describe the same graph: they differ at most in the
    /// execution order values.
    pub open spec fn same_structure(&self, other: &ModuleTable) -> bool {
        &&& self.normal_modules@.len() == other.normal_modules@.len()
        &&& self.external_modules@.len() == other.external_modules@.len()
        &&& forall|i: int|
            0 <= i < self.normal_modules@.len() ==> {
                &&& (#[trigger] self.normal_modules@[i]).resource_id
                    == other.normal_modules@[i].resource_id
                &&& self.normal_modules@[i].import_records@
                    == other.normal_modules@[i].import_records@
            }
        &&& forall|i: int|
            0 <= i < self.external_modules@.len()
                ==> (#[trigger] self.external_modules@[i]).resource_id
                == other.external_modules@[i].resource_id
    }
}

/// `p` is a chain of static-import edges in `t`.
pub open spec fn is_path(t: &ModuleTable, p: Seq<ModuleId>) -> bool {
    &&& p.len() >= 1
    &&& forall|i: int| 0 <= i < p.len() - 1 ==> t.is_static_dep(#[trigger] p[i], p[i + 1])
}

/// Some chain of static-import edges leads from `from` to `to`. The one-
/// element chain makes this reflexive.
pub open spec fn has_path(t: &ModuleTable, from: ModuleId, to: ModuleId) -> bool {
    exists|p: Seq<ModuleId>| is_path(t, p) && p.first() == from && p.last() == to
}

/// The two chains name different sets of modules.
pub open spec fn distinct_module_sets(a: Seq<ModuleId>, b: Seq<ModuleId>) -> bool {
    exists|x: ModuleId| a.contains(x) != b.contains(x)
}

/// `id` can be reached from the runtime module or one of the entry modules
/// over static-import edges.
pub open spec fn reachable_from_roots(
    t: &ModuleTable,
    entries: Seq<u32>,
    runtime_id: u32,
    id: ModuleId,
) -> bool {
    has_path(t, ModuleId::Normal(runtime_id), id) || exists|i: int|
        0 <= i < entries.len() && has_path(t, ModuleId::Normal(#[trigger] entries[i]), id)
}

/// Every module reaches itself: the one-element chain.
proof fn lemma_path_refl(t: &ModuleTable, x: ModuleId)
    ensures
        has_path(t, x, x),
{
    let p = seq![x];
    assert(is_path(t, p) && p.first() == x && p.last() == x);
}

/// A path extends over one more static edge.
proof fn lemma_path_extend(t: &ModuleTable, a: ModuleId, b: ModuleId, c: ModuleId)
    requires
        has_path(t, a, b),
        t.is_static_dep(b, c),
    ensures
        has_path(t, a, c),
{
    let p = choose|p: Seq<ModuleId>| is_path(t, p) && p.first() == a && p.last() == b;
    let q = p.push(c);
    assert forall|i: int| 0 <= i < q.len() - 1 implies t.is_static_dep(
        #[trigger] q[i],
        q[i + 1],
    ) by {
        if i < p.len() - 1 {
            assert(q[i] == p[i] && q[i + 1] == p[i + 1]);
        } else {
            assert(q[i] == b && q[i + 1] == c);
        }
    }
    assert(is_path(t, q) && q.first() == a && q.last() == c);
}

/// Reachability extends over one more static edge.
proof fn lemma_reach_extend(
    t: &ModuleTable,
    entries: Seq<u32>,
    runtime_id: u32,
    b: ModuleId,
    c: ModuleId,
)
    requires
        reachable_from_roots(t, entries, runtime_id, b),
        t.is_static_dep(b, c),
    ensures
        reachable_from_roots(t, entries, runtime_id, c),
{
    if has_path(t, ModuleId::Normal(runtime_id), b) {
        lemma_path_extend(t, ModuleId::Normal(runtime_id), b, c);
    } else {
        let i = choose|i: int|
            0 <= i < entries.len() && has_path(t, ModuleId::Normal(#[trigger] entries[i]), b);
        lemma_path_extend(t, ModuleId::Normal(entries[i]), b, c);
        assert(has_path(t, ModuleId::Normal(entries[i]), c));
    }
}

/// `p` witnesses a circular dependency: a static-import chain that returns
/// to its starting module.
pub open spec fn is_cycle(t: &ModuleTable, p: Seq<ModuleId>) -> bool {
    is_path(t, p) && p.len() >= 2 && p.first() == p.last()
}

/// The static-import graph of `t` has no cycle.
pub open spec fn acyclic(t: &ModuleTable) -> bool {
    forall|p: Seq<ModuleId>| !is_cycle(t, p)
}

/// The normal-module indices of `tr`, kept in order; external members are
/// passed over.
pub open spec fn normals_of(tr: Seq<ModuleId>) -> Seq<u32>
    decreases tr.len(),
{
    if tr.len() == 0 {
        Seq::empty()
    } else {
        let rest = normals_of(tr.drop_last());
        match tr.last() {
            ModuleId::Normal(i) => rest.push(i),
            ModuleId::External(_) => rest,
        }
    }
}

/// The resource identifiers of the normal modules of `p`, in order: the
/// human-readable shape of a circular-dependency chain.
pub open spec fn normal_paths(t: &ModuleTable, p: Seq<ModuleId>) -> Seq<String>
    decreases p.len(),
{
    if p.len() == 0 {
        Seq::empty()
    } else {
        let rest = normal_paths(t, p.drop_last());
        match p.last() {
            ModuleId::Normal(i) => rest.push(t.normal_modules@[i as int].resource_id),
            ModuleId::External(_) => rest,
        }
    }
}

/// A graph without cycles orders every module strictly after its static
/// dependencies; with cycles the resolver still orders every reached module,
/// and a dependency ordered later always lies on a chain back to its
/// importer.
pub open spec fn topological_up_to_cycles(t: &ModuleTable, graph: &ModuleTable, tr: Seq<
    ModuleId,
>) -> bool {
    forall|m: ModuleId, d: ModuleId|
        tr.contains(m) && #[trigger] graph.is_static_dep(m, d) ==> tr.contains(d) && (
        t.order_of(d) < t.order_of(m) || has_path(graph, d, m))
}

/// The two kinds of work-stack entries of the resolver's explicit-stack
/// depth-first traversal: visit a module, or assign its order on the way out.
#[derive(Clone, Copy, Debug, PartialEq, Eq, Structural)]
enum Status {
    ToBeExecuted(ModuleId),
    WaitForExit(ModuleId),
}

/// The stack entries that visiting a normal module with records `recs`
/// pushes, for the record suffix from `j` on: one to-visit entry per static
/// record, pushed in reverse so they are popped in declaration order.
spec fn pushes_for(recs: Seq<ResolvedImportRecord>, j: int) -> Seq<Status>
    decreases recs.len() - j,
{
    if j < 0 || j >= recs.len() {
        Seq::empty()
    } else {
        let rest = pushes_for(recs, j + 1);
        if recs[j].kind.spec_is_static() {
            rest.push(Status::ToBeExecuted(recs[j].resolved_module))
        } else {
            rest
        }
    }
}

proof fn lemma_pushes_elems(recs: Seq<ResolvedImportRecord>, j: int)
    requires
        0 <= j,
    ensures
        forall|q: int|
            0 <= q < pushes_for(recs, j).len() ==> exists|k: int|
                j <= k < recs.len() && recs[k].kind.spec_is_static() && #[trigger] pushes_for(
                    recs,
                    j,
                )[q] == Status::ToBeExecuted(recs[k].resolved_module),
        forall|k: int|
            j <= k < recs.len() && (#[trigger] recs[k].kind.spec_is_static()) ==> pushes_for(
                recs,
                j,
            ).contains(Status::ToBeExecuted(recs[k].resolved_module)),
    decreases recs.len() - j,
{
    if 0 <= j < recs.len() {
        lemma_pushes_elems(recs, j + 1);
        let cur = pushes_for(recs, j);
        let rest = pushes_for(recs, j + 1);
        assert forall|q: int| 0 <= q < cur.len() implies exists|k: int|
            j <= k < recs.len() && recs[k].kind.spec_is_static() && #[trigger] cur[q]
                == Status::ToBeExecuted(recs[k].resolved_module) by {
            if q < rest.len() {
                let k0 = choose|k0: int|
                    j + 1 <= k0 < recs.len() && recs[k0].kind.spec_is_static() && rest[q]
                        == Status::ToBeExecuted(recs[k0].resolved_module);
                assert(cur[q] == rest[q]);
                assert(j <= k0 < recs.len() && recs[k0].kind.spec_is_static() && cur[q]
                    == Status::ToBeExecuted(recs[k0].resolved_module));
            } else {
                assert(recs[j].kind.spec_is_static());
                assert(cur[q] == Status::ToBeExecuted(recs[j].resolved_module));
            }
        }
        assert forall|k: int|
            j <= k < recs.len() && (#[trigger] recs[k].kind.spec_is_static()) implies cur.contains(
            Status::ToBeExecuted(recs[k].resolved_module)) by {
            if k == j {
                assert(recs[j].kind.spec_is_static());
                assert(cur[cur.len() - 1] == Status::ToBeExecuted(recs[k].resolved_module));
            } else {
                assert(rest.contains(Status::ToBeExecuted(recs[k].resolved_module)));
                let q = choose|q: int|
                    0 <= q < rest.len() && rest[q] == Status::ToBeExecuted(
                        recs[k].resolved_module,
                    );
                assert(cur[q] == Status::ToBeExecuted(recs[k].resolved_module));
            }
        }
    }
}

/// When no record of the suffix is static, nothing is pushed.
proof fn lemma_pushes_empty(recs: Seq<ResolvedImportRecord>, j: int)
    requires
        forall|k: int| 0 <= k < recs.len() ==> !(#[trigger] recs[k].kind.spec_is_static()),
    ensures
        pushes_for(recs, j).len() == 0,
    decreases recs.len() - j,
{
    if 0 <= j < recs.len() {
        lemma_pushes_empty(recs, j + 1);
    }
}

/// Traversal budget of the not-yet-visited normal modules up to `i`: one for
/// the visit itself plus one per static record it will push.
spec fn weight_normal(t: &ModuleTable, visited: Seq<bool>, i: int) -> int
    decreases i,
{
    if i <= 0 {
        0
    } else {
        weight_normal(t, visited, i - 1) + if visited[i - 1] {
            0int
        } else {
            1 + pushes_for(t.recs_of(i - 1), 0).len() as int
        }
    }
}

/// Traversal budget of the not-yet-visited external modules up to `i`.
spec fn weight_external(visited: Seq<bool>, i: int) -> int
    decreases i,
{
    if i <= 0 {
        0
    } else {
        weight_external(visited, i - 1) + if visited[i - 1] {
            0int
        } else {
            1int
        }
    }
}

proof fn lemma_weight_normal_nonneg(t: &ModuleTable, visited: Seq<bool>, i: int)
    ensures
        weight_normal(t, visited, i) >= 0,
    decreases i,
{
    if i > 0 {
        lemma_weight_normal_nonneg(t, visited, i - 1);
    }
}

proof fn lemma_weight_external_nonneg(visited: Seq<bool>, i: int)
    ensures
        weight_external(visited, i) >= 0,
    decreases i,
{
    if i > 0 {
        lemma_weight_external_nonneg(visited, i - 1);
    }
}

/// Marking one unvisited normal module visited releases exactly its budget.
proof fn lemma_weight_normal_update(t: &ModuleTable, visited: Seq<bool>, j: int, i: int)
    requires
        0 <= j < visited.len(),
        i <= visited.len(),
        !visited[j],
    ensures
        i <= j ==> weight_normal(t, visited.update(j, true), i) == weight_normal(t, visited, i),
        i > j ==> weight_normal(t, visited.update(j, true), i) == weight_normal(t, visited, i) - 1
            - pushes_for(t.recs_of(j), 0).len(),
    decreases i,
{
    if i > 0 {
        lemma_weight_normal_update(t, visited, j, i - 1);
    }
}

/// Marking one unvisited external module visited releases exactly its budget.
proof fn lemma_weight_external_update(visited: Seq<bool>, j: int, i: int)
    requires
        0 <= j < visited.len(),
        i <= visited.len(),
        !visited[j],
    ensures
        i <= j ==> weight_external(visited.update(j, true), i) == weight_external(visited, i),
        i > j ==> weight_external(visited.update(j, true), i) == weight_external(visited, i) - 1,
    decreases i,
{
    if i > 0 {
        lemma_weight_external_update(visited, j, i - 1);
    }
}

/// How many of the flags are set.
spec fn count_true(s: Seq<bool>, i: int) -> int
    decreases i,
{
    if i <= 0 {
        0
    } else {
        count_true(s, i - 1) + if s[i - 1] {
            1int
        } else {
            0int
        }
    }
}

proof fn lemma_count_true_bounds(s: Seq<bool>, i: int)
    requires
        0 <= i <= s.len(),
    ensures
        0 <= count_true(s, i) <= i,
    decreases i,
{
    if i > 0 {
        lemma_count_true_bounds(s, i - 1);
    }
}

proof fn lemma_count_true_update(s: Seq<bool>, j: int, i: int)
    requires
        0 <= j < s.len(),
        i <= s.len(),
        !s[j],
    ensures
        i <= j ==> count_true(s.update(j, true), i) == count_true(s, i),
        i > j ==> count_true(s.update(j, true), i) == count_true(s, i) + 1,
    decreases i,
{
    if i > 0 {
        lemma_count_true_update(s, j, i - 1);
    }
}

/// A chain suffix is itself a path, from its first member to the chain's
/// last.
proof fn lemma_chain_suffix_path(t: &ModuleTable, chain: Seq<ModuleId>, j: int)
    requires
        0 <= j < chain.len(),
        forall|i: int| 0 <= i < chain.len() - 1 ==> t.is_static_dep(#[trigger] chain[i], chain[i + 1]),
    ensures
        has_path(t, chain[j], chain.last()),
{
    let p = chain.subrange(j, chain.len() as int);
    assert(p.len() >= 1);
    assert(forall|i: int| 0 <= i < p.len() - 1 ==> t.is_static_dep(#[trigger] p[i], p[i + 1]));
    assert(is_path(t, p) && p.first() == chain[j] && p.last() == chain.last());
}

/// A path from `d` back to `m` together with the edge `m -> d` closes a
/// cycle, so no such pair exists in an acyclic graph.
proof fn lemma_back_path_gives_cycle(t: &ModuleTable, m: ModuleId, d: ModuleId)
    requires
        t.is_static_dep(m, d),
        has_path(t, d, m),
    ensures
        !acyclic(t),
{
    let p = choose|p: Seq<ModuleId>| is_path(t, p) && p.first() == d && p.last() == m;
    let c = seq![m] + p;
    assert(c.len() >= 2);
    assert(c[0] == m && c[1] == d);
    assert forall|i: int| 0 <= i < c.len() - 1 implies t.is_static_dep(#[trigger] c[i], c[i + 1]) by {
        if i == 0 {
            assert(c[1] == p[0]);
        } else {
            assert(c[i] == p[i - 1] && c[i + 1] == p[i]);
        }
    }
    assert(c.first() == m && c.last() == p.last());
    assert(is_cycle(t, c));
}

/// If a trace starts with a normal module, so does its normal-only image.
proof fn lemma_normals_first(tr: Seq<ModuleId>, r: u32)
    requires
        tr.len() > 0,
        tr[0] == ModuleId::Normal(r),
    ensures
        normals_of(tr).len() > 0,
        normals_of(tr)[0] == r,
    decreases tr.len(),
{
    if tr.len() == 1 {
        assert(tr.last() == ModuleId::Normal(r));
        assert(normals_of(tr) == normals_of(tr.drop_last()).push(r));
        assert(tr.drop_last().len() == 0);
    } else {
        lemma_normals_first(tr.drop_last(), r);
    }
}

/// The identity a work-stack entry concerns.
spec fn status_id(s: Status) -> ModuleId {
    match s {
        Status::ToBeExecuted(x) => x,
        Status::WaitForExit(x) => x,
    }
}

spec fn is_wfe(s: Status) -> bool {
    match s {
        Status::WaitForExit(_) => true,
        Status::ToBeExecuted(_) => false,
    }
}

spec fn is_tbe(s: Status) -> bool {
    !is_wfe(s)
}

/// Visited flag of `id` in the two per-kind flag arrays.
spec fn executed_at(vn: Seq<bool>, ve: Seq<bool>, id: ModuleId) -> bool {
    match id {
        ModuleId::Normal(i) => vn[i as int],
        ModuleId::External(i) => ve[i as int],
    }
}

/// In-progress stack position of `id` in the two per-kind index arrays.
spec fn prog_at(pn: Seq<Option<usize>>, pe: Seq<Option<usize>>, id: ModuleId) -> Option<usize> {
    match id {
        ModuleId::Normal(i) => pn[i as int],
        ModuleId::External(i) => pe[i as int],
    }
}

/// The work stack the resolver is seeded with: each entry module in reverse
/// declaration order, then the runtime module on top, so the runtime module
/// is visited first and the entries follow in declaration order.
spec fn init_stack(entries: Seq<u32>, runtime: u32) -> Seq<Status> {
    Seq::new(
        (entries.len() + 1) as nat,
        |i: int|
            if i < entries.len() {
                Status::ToBeExecuted(ModuleId::Normal(entries[entries.len() - 1 - i]))
            } else {
                Status::ToBeExecuted(ModuleId::Normal(runtime))
            },
    )
}

/// Pushes one to-visit entry per static import record of `module`, in
/// reverse declaration order, so the targets are visited in declaration
/// order.
fn push_static_deps(stack: &mut Vec<Status>, module: &NormalModule)
    ensures
        final(stack)@ == old(stack)@ + pushes_for(module.import_records@, 0),
{
    let ghost base = stack@;
    let ghost recs = module.import_records@;
    let n = module.import_records.len();
    let mut j = n;
    while j > 0
        invariant
            j <= n,
            n == recs.len(),
            recs == module.import_records@,
            stack@ == base + pushes_for(recs, j as int),
        decreases j,
    {
        j -= 1;
        let rec = &module.import_records[j];
        if rec.kind.is_static() {
            stack.push(Status::ToBeExecuted(rec.resolved_module));
            proof {
                assert(stack@ =~= base + pushes_for(recs, j as int));
            }
        } else {
            proof {
                assert(stack@ =~= base + pushes_for(recs, j as int));
            }
        }
    }
}

/// The position stored in an in-progress marker, or -1 when there is none.
spec fn idx_of(o: Option<usize>) -> int {
    match o {
        Some(p) => p as int,
        None => -1,
    }
}

/// A count of zero means no flag of the prefix is set.
proof fn lemma_count_true_zero(s: Seq<bool>, i: int)
    requires
        count_true(s, i) == 0,
    ensures
        forall|j: int| 0 <= j < i ==> !s[j],
    decreases i,
{
    if i > 0 {
        if s[i - 1] {
            lemma_count_true_bounds_weak(s, i - 1);
        } else {
            lemma_count_true_zero(s, i - 1);
        }
    }
}

proof fn lemma_count_true_bounds_weak(s: Seq<bool>, i: int)
    ensures
        i >= 0 ==> count_true(s, i) >= 0,
    decreases i,
{
    if i > 0 {
        lemma_count_true_bounds_weak(s, i - 1);
    }
}

/// A vector of `n` cleared flags.
fn make_flags(n: usize) -> (r: Vec<bool>)
    ensures
        r@.len() == n,
        forall|i: int| 0 <= i < n ==> !r@[i],
{
    let mut r: Vec<bool> = Vec::new();
    let mut i: usize = 0;
    while i < n
        invariant
            i <= n,
            r@.len() == i,
            forall|j: int| 0 <= j < i ==> !r@[j],
        decreases n - i,
    {
        r.push(false);
        i += 1;
    }
    r
}

/// A vector of `n` empty in-progress markers.
fn make_marks(n: usize) -> (r: Vec<Option<usize>>)
    ensures
        r@.len() == n,
        forall|i: int| 0 <= i < n ==> r@[i] is None,
{
    let mut r: Vec<Option<usize>> = Vec::new();
    let mut i: usize = 0;
    while i < n
        invariant
            i <= n,
            r@.len() == i,
            forall|j: int| 0 <= j < i ==> r@[j] is None,
        decreases n - i,
    {
        r.push(None);
        i += 1;
    }
    r
}

/// `x` occurs in `v`.
fn vec_contains_id(v: &Vec<ModuleId>, x: ModuleId) -> (r: bool)
    ensures
        r == v@.contains(x),
{
    let mut i: usize = 0;
    while i < v.len()
        invariant
            i <= v@.len(),
            forall|k: int| 0 <= k < i ==> v@[k] != x,
        decreases v@.len() - i,
    {
        if v[i] == x {
            return true;
        }
        i += 1;
    }
    false
}

/// The two chains name the same set of modules, member for member.
fn same_module_set(a: &Vec<ModuleId>, b: &Vec<ModuleId>) -> (r: bool)
    ensures
        r == (forall|x: ModuleId| a@.contains(x) == b@.contains(x)),
{
    let mut i: usize = 0;
    while i < a.len()
        invariant
            i <= a@.len(),
            forall|k: int| 0 <= k < i ==> b@.contains(#[trigger] a@[k]),
        decreases a@.len() - i,
    {
        if !vec_contains_id(b, a[i]) {
            assert(a@.contains(a@[i as int]));
            return false;
        }
        i += 1;
    }
    let mut k: usize = 0;
    while k < b.len()
        invariant
            k <= b@.len(),
            forall|q: int| 0 <= q < a@.len() ==> b@.contains(#[trigger] a@[q]),
            forall|q: int| 0 <= q < k ==> a@.contains(#[trigger] b@[q]),
        decreases b@.len() - k,
    {
        if !vec_contains_id(a, b[k]) {
            assert(b@.contains(b@[k as int]));
            return false;
        }
        k += 1;
    }
    proof {
        assert forall|x: ModuleId| a@.contains(x) == b@.contains(x) by {
            if a@.contains(x) {
                let q = choose|q: int| 0 <= q < a@.len() && a@[q] == x;
                assert(b@.contains(a@[q]));
            }
            if b@.contains(x) {
                let q = choose|q: int| 0 <= q < b@.len() && b@[q] == x;
                assert(a@.contains(b@[q]));
            }
        }
    }
    true
}

/// The whole-graph linking pass: the assembled module table, the ordered
/// user-declared entry modules, the runtime module, and the outputs of the
/// resolver.
pub struct LinkStage {
    pub module_table: ModuleTable,
    /// Normal-module indices of the user-declared entries, in declaration
    /// order.
    pub entries: Vec<u32>,
    /// Normal-module index of the always-first runtime module.
    pub runtime_id: u32,
    /// Normal modules in execution order, filled by the resolver.
    pub sorted_modules: Vec<u32>,
    pub warnings: Vec<BuildWarning>,
    /// All modules (normal and external) in the order the resolver assigned
    /// execution orders, for reasoning about the assignment.
    pub order_trace: Ghost<Seq<ModuleId>>,
    /// The distinct circular chains the resolver discovered, one per
    /// appended warning, for reasoning about the warnings.
    pub cycle_trace: Ghost<Seq<Seq<ModuleId>>>,
}

impl LinkStage {
    /// The shape the resolver requires of its input: entries and runtime
    /// name normal modules, import targets are resolved within the table, no
    /// order has been assigned yet, and the runtime module — a synthetic
    /// module without imports — has no static dependencies.
    pub open spec fn wf_input(&self) -> bool {
        &&& (self.runtime_id as int) < self.module_table.normal_modules@.len()
        &&& forall|i: int|
            0 <= i < self.entries@.len() ==> (#[trigger] self.entries@[i] as int)
                < self.module_table.normal_modules@.len()
        &&& self.module_table.deps_in_bounds()
        &&& forall|i: int|
            0 <= i < self.module_table.normal_modules@.len() ==> (
            #[trigger] self.module_table.normal_modules@[i]).exec_order == EXEC_ORDER_UNSET
        &&& forall|i: int|
            0 <= i < self.module_table.external_modules@.len() ==> (
            #[trigger] self.module_table.external_modules@[i]).exec_order == EXEC_ORDER_UNSET
        &&& self.module_table.normal_modules@.len() + self.module_table.external_modules@.len()
            < EXEC_ORDER_UNSET
        &&& forall|k: int|
            0 <= k < self.module_table.recs_of(self.runtime_id as int).len() ==> !(
            #[trigger] self.module_table.recs_of(
                self.runtime_id as int,
            )[k].kind).spec_is_static()
    }

    pub fn new(module_table: ModuleTable, entries: Vec<u32>, runtime_id: u32) -> (r: LinkStage)
        ensures
            r.module_table == module_table,
            r.entries == entries,
            r.runtime_id == runtime_id,
            r.sorted_modules@.len() == 0,
            r.warnings@.len() == 0,
    {
        LinkStage {
            module_table,
            entries,
            runtime_id,
            sorted_modules: Vec::new(),
            warnings: Vec::new(),
            order_trace: Ghost(Seq::empty()),
            cycle_trace: Ghost(Seq::empty()),
        }
    }
}


/// Everything the resolver's traversal keeps true, tying together the module
/// table being ordered (`cur`), the original graph (`t0`), the work stack,
/// the visited flags, the in-progress markers, the assignment trace `tr`,
/// the in-progress chain, and the collected normal-module order.
/// The input shape: valid roots, resolved targets, matching table sizes,
/// and a dependency-free runtime module.
spec fn inv_shape(
    t0: ModuleTable,
    cur: ModuleTable,
    entries: Seq<u32>,
    runtime_id: u32,
    vn: Seq<bool>,
    ve: Seq<bool>,
    pn: Seq<Option<usize>>,
    pe: Seq<Option<usize>>,
) -> bool {
    &&& (runtime_id as int) < t0.normal_modules@.len()
    &&& forall|i: int|
        0 <= i < entries.len() ==> (#[trigger] entries[i] as int) < t0.normal_modules@.len()
    &&& t0.deps_in_bounds()
    &&& t0.normal_modules@.len() + t0.external_modules@.len() < EXEC_ORDER_UNSET as int
    &&& forall|k: int|
        0 <= k < t0.recs_of(runtime_id as int).len() ==> !(#[trigger] t0.recs_of(
            runtime_id as int,
        )[k].kind).spec_is_static()
    &&& vn.len() == t0.normal_modules@.len()
    &&& ve.len() == t0.external_modules@.len()
    &&& pn.len() == t0.normal_modules@.len()
    &&& pe.len() == t0.external_modules@.len()
    &&& cur.same_structure(&t0)
}

/// The order bookkeeping: orders are assigned densely in trace order;
/// visited means ordered or in progress; the trace opens with the runtime
/// module; the collected normal order mirrors the trace.
spec fn inv_trace(
    t0: ModuleTable,
    cur: ModuleTable,
    runtime_id: u32,
    vn: Seq<bool>,
    ve: Seq<bool>,
    pn: Seq<Option<usize>>,
    pe: Seq<Option<usize>>,
    tr: Seq<ModuleId>,
    chain: Seq<ModuleId>,
    sorted: Seq<u32>,
) -> bool {
    &&& forall|q: int|
        0 <= q < tr.len() ==> t0.valid_id(#[trigger] tr[q]) && cur.order_of(tr[q]) == q
    &&& forall|id: ModuleId|
        #[trigger] t0.valid_id(id) ==> {
            &&& (cur.ordered(id) <==> tr.contains(id))
            &&& (executed_at(vn, ve, id) <==> (cur.ordered(id) || prog_at(pn, pe, id) is Some))
            &&& (cur.ordered(id) ==> prog_at(pn, pe, id) is None)
            &&& (prog_at(pn, pe, id) is Some ==> chain.contains(id))
        }
    &&& tr.len() + chain.len() == count_true(vn, vn.len() as int) + count_true(
        ve,
        ve.len() as int,
    )
    &&& (tr.len() > 0 ==> tr[0] == ModuleId::Normal(runtime_id))
    &&& sorted == normals_of(tr)
}

/// The in-progress chain mirrors the wait-for-exit entries bottom up, its
/// members are linked by static edges, and every queued visit sits right
/// above the in-progress module that queued it.
spec fn inv_chain(
    t0: ModuleTable,
    stack: Seq<Status>,
    pn: Seq<Option<usize>>,
    pe: Seq<Option<usize>>,
    chain: Seq<ModuleId>,
) -> bool {
    &&& forall|j: int| 0 <= j < chain.len() ==> t0.valid_id(#[trigger] chain[j])
    &&& forall|j: int|
        0 <= j < chain.len() ==> {
            let p = idx_of(prog_at(pn, pe, #[trigger] chain[j]));
            0 <= p < stack.len() && stack[p] == Status::WaitForExit(chain[j])
        }
    &&& forall|j1: int, j2: int|
        0 <= j1 < j2 < chain.len() ==> idx_of(prog_at(pn, pe, #[trigger] chain[j1])) < idx_of(
            prog_at(pn, pe, #[trigger] chain[j2]),
        )
    &&& forall|p: int|
        0 <= p < stack.len() && is_wfe(#[trigger] stack[p]) ==> t0.valid_id(status_id(stack[p]))
            && prog_at(pn, pe, status_id(stack[p])) == Some(p as usize)
    &&& forall|j: int|
        0 <= j < chain.len() - 1 ==> t0.is_static_dep(#[trigger] chain[j], chain[j + 1])
    &&& forall|p: int|
        0 <= p < stack.len() && is_tbe(#[trigger] stack[p]) ==> t0.valid_id(status_id(stack[p]))
    &&& forall|p: int, j: int|
        0 <= p < stack.len() && is_tbe(#[trigger] stack[p]) && 0 <= j < chain.len() && idx_of(
            prog_at(pn, pe, #[trigger] chain[j]),
        ) < p && (j == chain.len() - 1 || idx_of(prog_at(pn, pe, chain[j + 1])) >= p)
            ==> t0.is_static_dep(chain[j], status_id(stack[p]))
}

/// Dependencies of an in-progress module are visited or queued above it;
/// dependencies of an ordered module are visited and ordered earlier unless
/// a chain of imports leads back to the importer.
spec fn inv_deps(
    t0: ModuleTable,
    cur: ModuleTable,
    stack: Seq<Status>,
    vn: Seq<bool>,
    ve: Seq<bool>,
    pn: Seq<Option<usize>>,
    pe: Seq<Option<usize>>,
    tr: Seq<ModuleId>,
    chain: Seq<ModuleId>,
) -> bool {
    &&& forall|j: int, d: ModuleId|
        0 <= j < chain.len() && #[trigger] t0.is_static_dep(chain[j], d) ==> executed_at(
            vn,
            ve,
            d,
        ) || exists|p: int|
            idx_of(prog_at(pn, pe, chain[j])) < p < stack.len() && stack[p]
                == Status::ToBeExecuted(d)
    &&& forall|m: ModuleId, d: ModuleId|
        tr.contains(m) && #[trigger] t0.is_static_dep(m, d) ==> executed_at(vn, ve, d) && ((
        cur.ordered(d) && cur.order_of(d) < cur.order_of(m)) || has_path(&t0, d, m))
}

/// The runtime module and every entry module is visited or still queued.
spec fn inv_roots(
    entries: Seq<u32>,
    runtime_id: u32,
    stack: Seq<Status>,
    vn: Seq<bool>,
    ve: Seq<bool>,
) -> bool {
    &&& (executed_at(vn, ve, ModuleId::Normal(runtime_id)) || exists|p: int|
        0 <= p < stack.len() && stack[p] == Status::ToBeExecuted(ModuleId::Normal(runtime_id)))
    &&& forall|i: int|
        0 <= i < entries.len() ==> executed_at(
            vn,
            ve,
            ModuleId::Normal(#[trigger] entries[i]),
        ) || exists|p: int|
            0 <= p < stack.len() && stack[p] == Status::ToBeExecuted(
                ModuleId::Normal(entries[i]),
            )
}

/// Every visited module and every queued visit is reachable from the roots,
/// so only reachable modules are ever ordered.
spec fn inv_reach(
    t0: ModuleTable,
    entries: Seq<u32>,
    runtime_id: u32,
    stack: Seq<Status>,
    vn: Seq<bool>,
    ve: Seq<bool>,
) -> bool {
    &&& forall|id: ModuleId|
        t0.valid_id(id) && #[trigger] executed_at(vn, ve, id) ==> reachable_from_roots(
            &t0,
            entries,
            runtime_id,
            id,
        )
    &&& forall|p: int|
        0 <= p < stack.len() && is_tbe(#[trigger] stack[p]) ==> reachable_from_roots(
            &t0,
            entries,
            runtime_id,
            status_id(stack[p]),
        )
}

/// Before the first order is assigned, the opening moves are forced, so the
/// runtime module exits first.
spec fn inv_start(
    entries: Seq<u32>,
    runtime_id: u32,
    stack: Seq<Status>,
    tr: Seq<ModuleId>,
    chain: Seq<ModuleId>,
) -> bool {
    tr.len() == 0 ==> ((chain.len() == 0 && stack == init_stack(entries, runtime_id)) || (chain
        == seq![ModuleId::Normal(runtime_id)] && stack == init_stack(
        entries,
        runtime_id,
    ).drop_last().push(Status::WaitForExit(ModuleId::Normal(runtime_id)))))
}

/// Everything the resolver's traversal keeps true, tying together the module
/// table being ordered (`cur`), the original graph (`t0`), the work stack,
/// the visited flags, the in-progress markers, the assignment trace `tr`,
/// the in-progress chain, and the collected normal-module order.
#[verifier::opaque]
spec fn sort_inv(
    t0: ModuleTable,
    cur: ModuleTable,
    entries: Seq<u32>,
    runtime_id: u32,
    stack: Seq<Status>,
    vn: Seq<bool>,
    ve: Seq<bool>,
    pn: Seq<Option<usize>>,
    pe: Seq<Option<usize>>,
    tr: Seq<ModuleId>,
    chain: Seq<ModuleId>,
    sorted: Seq<u32>,
) -> bool {
    &&& inv_shape(t0, cur, entries, runtime_id, vn, ve, pn, pe)
    &&& inv_trace(t0, cur, runtime_id, vn, ve, pn, pe, tr, chain, sorted)
    &&& inv_chain(t0, stack, pn, pe, chain)
    &&& inv_deps(t0, cur, stack, vn, ve, pn, pe, tr, chain)
    &&& inv_roots(entries, runtime_id, stack, vn, ve)
    &&& inv_reach(t0, entries, runtime_id, stack, vn, ve)
    &&& inv_start(entries, runtime_id, stack, tr, chain)
}

/// The traversal budget still open: stack entries plus the visits to come.
spec fn sort_measure(t0: ModuleTable, stack: Seq<Status>, vn: Seq<bool>, ve: Seq<bool>) -> int {
    stack.len() + weight_normal(&t0, vn, vn.len() as int) + weight_external(ve, ve.len() as int)
}


/// The invariant holds for the freshly seeded traversal state.
proof fn lemma_inv_init(
    t0: ModuleTable,
    entries: Seq<u32>,
    runtime_id: u32,
    vn: Seq<bool>,
    ve: Seq<bool>,
    pn: Seq<Option<usize>>,
    pe: Seq<Option<usize>>,
)
    requires
        (runtime_id as int) < t0.normal_modules@.len(),
        forall|i: int|
            0 <= i < entries.len() ==> (#[trigger] entries[i] as int)
                < t0.normal_modules@.len(),
        t0.deps_in_bounds(),
        t0.normal_modules@.len() + t0.external_modules@.len() < EXEC_ORDER_UNSET as int,
        forall|k: int|
            0 <= k < t0.recs_of(runtime_id as int).len() ==> !(#[trigger] t0.recs_of(
                runtime_id as int,
            )[k].kind).spec_is_static(),
        forall|i: int|
            0 <= i < t0.normal_modules@.len() ==> (
            #[trigger] t0.normal_modules@[i]).exec_order == EXEC_ORDER_UNSET,
        forall|i: int|
            0 <= i < t0.external_modules@.len() ==> (
            #[trigger] t0.external_modules@[i]).exec_order == EXEC_ORDER_UNSET,
        vn.len() == t0.normal_modules@.len(),
        ve.len() == t0.external_modules@.len(),
        pn.len() == t0.normal_modules@.len(),
        pe.len() == t0.external_modules@.len(),
        forall|i: int| 0 <= i < vn.len() ==> !vn[i],
        forall|i: int| 0 <= i < ve.len() ==> !ve[i],
        forall|i: int| 0 <= i < pn.len() ==> pn[i] is None,
        forall|i: int| 0 <= i < pe.len() ==> pe[i] is None,
    ensures
        sort_inv(
            t0,
            t0,
            entries,
            runtime_id,
            init_stack(entries, runtime_id),
            vn,
            ve,
            pn,
            pe,
            Seq::empty(),
            Seq::empty(),
            Seq::empty(),
        ),
{
    reveal(sort_inv);
    let stack = init_stack(entries, runtime_id);
    let tr = Seq::<ModuleId>::empty();
    let chain = Seq::<ModuleId>::empty();
    lemma_count_all_false(vn, vn.len() as int);
    lemma_count_all_false(ve, ve.len() as int);
    assert(stack[entries.len() as int] == Status::ToBeExecuted(ModuleId::Normal(runtime_id)));
    // every seeded visit is a root, reachable by the one-element chain
    assert forall|p: int|
        0 <= p < stack.len() && is_tbe(#[trigger] stack[p]) implies reachable_from_roots(
        &t0,
        entries,
        runtime_id,
        status_id(stack[p]),
    ) by {
        if p < entries.len() {
            let i = entries.len() - 1 - p;
            assert(stack[p] == Status::ToBeExecuted(ModuleId::Normal(entries[i])));
            lemma_path_refl(&t0, ModuleId::Normal(entries[i]));
        } else {
            lemma_path_refl(&t0, ModuleId::Normal(runtime_id));
        }
    }
    assert forall|i: int|
        0 <= i < entries.len() implies executed_at(
        vn,
        ve,
        ModuleId::Normal(#[trigger] entries[i]),
    ) || exists|p: int|
        0 <= p < stack.len() && stack[p] == Status::ToBeExecuted(
            ModuleId::Normal(entries[i]),
        ) by {
        let p = entries.len() - 1 - i;
        assert(stack[p] == Status::ToBeExecuted(ModuleId::Normal(entries[i])));
    }
    assert(normals_of(tr) =~= Seq::<u32>::empty());
    assert forall|id: ModuleId| #[trigger] t0.valid_id(id) implies !executed_at(vn, ve, id)
        && !t0.ordered(id) && prog_at(pn, pe, id) is None by {}
}

/// With no flag set, the count is zero.
proof fn lemma_count_all_false(s: Seq<bool>, i: int)
    requires
        forall|j: int| 0 <= j < i ==> !s[j],
    ensures
        count_true(s, i) == 0,
    decreases i,
{
    if i > 0 {
        lemma_count_all_false(s, i - 1);
    }
}

/// The shape facts of the invariant, for bounds checks outside of it.
proof fn lemma_inv_facts(
    t0: ModuleTable,
    cur: ModuleTable,
    entries: Seq<u32>,
    runtime_id: u32,
    stack: Seq<Status>,
    vn: Seq<bool>,
    ve: Seq<bool>,
    pn: Seq<Option<usize>>,
    pe: Seq<Option<usize>>,
    tr: Seq<ModuleId>,
    chain: Seq<ModuleId>,
    sorted: Seq<u32>,
)
    requires
        sort_inv(t0, cur, entries, runtime_id, stack, vn, ve, pn, pe, tr, chain, sorted),
    ensures
        vn.len() == t0.normal_modules@.len(),
        ve.len() == t0.external_modules@.len(),
        pn.len() == t0.normal_modules@.len(),
        pe.len() == t0.external_modules@.len(),
        cur.same_structure(&t0),
        cur.normal_modules@.len() == t0.normal_modules@.len(),
        cur.external_modules@.len() == t0.external_modules@.len(),
        tr.len() + chain.len() <= t0.normal_modules@.len() + t0.external_modules@.len(),
        tr.len() < EXEC_ORDER_UNSET as int,
        sorted == normals_of(tr),
        forall|p: int| 0 <= p < stack.len() ==> t0.valid_id(status_id(#[trigger] stack[p])),
        sort_measure(t0, stack, vn, ve) >= stack.len(),
{
    reveal(sort_inv);
    lemma_count_true_bounds(vn, vn.len() as int);
    lemma_count_true_bounds(ve, ve.len() as int);
    lemma_weight_normal_nonneg(&t0, vn, vn.len() as int);
    lemma_weight_external_nonneg(ve, ve.len() as int);
    assert(chain.len() >= 0);
    assert forall|p: int| 0 <= p < stack.len() implies t0.valid_id(
        status_id(#[trigger] stack[p]),
    ) by {
        if is_wfe(stack[p]) {
        } else {
            assert(is_tbe(stack[p]));
        }
    }
}

/// Popping the visit of an already-visited module preserves the invariant:
/// any dependency witness the popped entry provided is replaced by the
/// module's visited flag.
proof fn lemma_sort_pop_executed(
    t0: ModuleTable,
    cur: ModuleTable,
    entries: Seq<u32>,
    runtime_id: u32,
    stack: Seq<Status>,
    vn: Seq<bool>,
    ve: Seq<bool>,
    pn: Seq<Option<usize>>,
    pe: Seq<Option<usize>>,
    tr: Seq<ModuleId>,
    chain: Seq<ModuleId>,
    sorted: Seq<u32>,
    id: ModuleId,
)
    requires
        sort_inv(
            t0,
            cur,
            entries,
            runtime_id,
            stack.push(Status::ToBeExecuted(id)),
            vn,
            ve,
            pn,
            pe,
            tr,
            chain,
            sorted,
        ),
        executed_at(vn, ve, id),
        t0.valid_id(id),
    ensures
        sort_inv(t0, cur, entries, runtime_id, stack, vn, ve, pn, pe, tr, chain, sorted),
        tr.len() > 0,
{
    reveal(sort_inv);
    let pre = stack.push(Status::ToBeExecuted(id));
    assert(forall|p: int| 0 <= p < stack.len() ==> stack[p] == pre[p]);
    // the seed states have nothing visited, or a wait-for-exit entry on top
    if tr.len() == 0 {
        if chain.len() == 0 {
            lemma_count_true_zero(vn, vn.len() as int);
            lemma_count_true_zero(ve, ve.len() as int);
            assert(tr.len() + chain.len() == count_true(vn, vn.len() as int) + count_true(
                ve,
                ve.len() as int,
            ));
            lemma_count_true_bounds(vn, vn.len() as int);
            lemma_count_true_bounds(ve, ve.len() as int);
            assert(count_true(vn, vn.len() as int) == 0);
            assert(count_true(ve, ve.len() as int) == 0) by {
                lemma_count_true_bounds(ve, ve.len() as int);
            }
            assert(!executed_at(vn, ve, id));
            assert(false);
        } else {
            assert(is_wfe(pre[pre.len() - 1]));
            assert(false);
        }
    }
    assert forall|j: int, d: ModuleId|
        0 <= j < chain.len() && #[trigger] t0.is_static_dep(chain[j], d) implies executed_at(
        vn,
        ve,
        d,
    ) || exists|p: int|
        idx_of(prog_at(pn, pe, chain[j])) < p < stack.len() && stack[p]
            == Status::ToBeExecuted(d) by {
        if !executed_at(vn, ve, d) {
            let p = choose|p: int|
                idx_of(prog_at(pn, pe, chain[j])) < p < pre.len() && pre[p]
                    == Status::ToBeExecuted(d);
            assert(p != pre.len() - 1);
            assert(stack[p] == Status::ToBeExecuted(d));
        }
    }
    if !executed_at(vn, ve, ModuleId::Normal(runtime_id)) {
        let p = choose|p: int|
            0 <= p < pre.len() && pre[p] == Status::ToBeExecuted(ModuleId::Normal(runtime_id));
        assert(p != pre.len() - 1);
        assert(stack[p] == Status::ToBeExecuted(ModuleId::Normal(runtime_id)));
    }
    assert forall|i: int|
        0 <= i < entries.len() implies executed_at(
        vn,
        ve,
        ModuleId::Normal(#[trigger] entries[i]),
    ) || exists|p: int|
        0 <= p < stack.len() && stack[p] == Status::ToBeExecuted(
            ModuleId::Normal(entries[i]),
        ) by {
        if !executed_at(vn, ve, ModuleId::Normal(entries[i])) {
            let p = choose|p: int|
                0 <= p < pre.len() && pre[p] == Status::ToBeExecuted(
                    ModuleId::Normal(entries[i]),
                );
            assert(p != pre.len() - 1);
            assert(stack[p] == Status::ToBeExecuted(ModuleId::Normal(entries[i])));
        }
    }
}



/// The visited flags after first visiting `id`.
spec fn visit_vn(vn: Seq<bool>, id: ModuleId) -> Seq<bool> {
    match id {
        ModuleId::Normal(i) => vn.update(i as int, true),
        ModuleId::External(_) => vn,
    }
}

spec fn visit_ve(ve: Seq<bool>, id: ModuleId) -> Seq<bool> {
    match id {
        ModuleId::Normal(_) => ve,
        ModuleId::External(i) => ve.update(i as int, true),
    }
}

/// The in-progress markers after parking `id` at stack position `widx`.
spec fn visit_pn(pn: Seq<Option<usize>>, id: ModuleId, widx: usize) -> Seq<Option<usize>> {
    match id {
        ModuleId::Normal(i) => pn.update(i as int, Some(widx)),
        ModuleId::External(_) => pn,
    }
}

spec fn visit_pe(pe: Seq<Option<usize>>, id: ModuleId, widx: usize) -> Seq<Option<usize>> {
    match id {
        ModuleId::Normal(_) => pe,
        ModuleId::External(i) => pe.update(i as int, Some(widx)),
    }
}

/// The work stack after first visiting `id`: its wait-for-exit entry, then
/// its queued static dependencies.
spec fn visit_stack(t0: ModuleTable, s0: Seq<Status>, id: ModuleId) -> Seq<Status> {
    s0.push(Status::WaitForExit(id)) + (match id {
        ModuleId::Normal(i) => pushes_for(t0.recs_of(i as int), 0),
        ModuleId::External(_) => Seq::empty(),
    })
}

/// Shared preamble facts about the post-visit state.
proof fn lemma_visit_shape(
    t0: ModuleTable,
    s0: Seq<Status>,
    vn: Seq<bool>,
    ve: Seq<bool>,
    pn: Seq<Option<usize>>,
    pe: Seq<Option<usize>>,
    id: ModuleId,
)
    requires
        t0.valid_id(id),
        t0.deps_in_bounds(),
        s0.len() < usize::MAX,
        vn.len() == t0.normal_modules@.len(),
        ve.len() == t0.external_modules@.len(),
        pn.len() == t0.normal_modules@.len(),
        pe.len() == t0.external_modules@.len(),
    ensures
        ({
            let st = visit_stack(t0, s0, id);
            let widx = s0.len() as usize;
            &&& st.len() >= s0.len() + 1
            &&& forall|q: int| 0 <= q < s0.len() ==> st[q] == s0[q]
            &&& st[widx as int] == Status::WaitForExit(id)
            &&& executed_at(visit_vn(vn, id), visit_ve(ve, id), id)
            &&& prog_at(visit_pn(pn, id, widx), visit_pe(pe, id, widx), id) == Some(widx)
            &&& visit_vn(vn, id).len() == vn.len()
            &&& visit_ve(ve, id).len() == ve.len()
            &&& visit_pn(pn, id, widx).len() == pn.len()
            &&& visit_pe(pe, id, widx).len() == pe.len()
            &&& forall|x: ModuleId|
                t0.valid_id(x) && x != id ==> executed_at(visit_vn(vn, id), visit_ve(ve, id), x)
                    == executed_at(vn, ve, x) && prog_at(
                    visit_pn(pn, id, widx),
                    visit_pe(pe, id, widx),
                    x,
                ) == prog_at(pn, pe, x)
            &&& forall|q: int|
                (s0.len() + 1) <= q < st.len() ==> is_tbe(#[trigger] st[q])
                    && t0.is_static_dep(id, status_id(st[q])) && t0.valid_id(status_id(st[q]))
            &&& forall|d: ModuleId|
                #[trigger] t0.is_static_dep(id, d) ==> exists|q: int|
                    (s0.len() as int) < q < st.len() && st[q] == Status::ToBeExecuted(d)
        }),
{
    let st = visit_stack(t0, s0, id);
    let widx = s0.len() as usize;
    match id {
        ModuleId::Normal(i) => {
            lemma_pushes_elems(t0.recs_of(i as int), 0);
            let pushes = pushes_for(t0.recs_of(i as int), 0);
            let base = s0.push(Status::WaitForExit(id));
            assert(st == base + pushes);
            assert(st.len() == base.len() + pushes.len());
            assert forall|q: int| widx < q < st.len() implies st[q] == pushes[q - widx - 1] by {
                broadcast use vstd::seq::axiom_seq_add_index2;

                assert(st[q] == (base + pushes)[q]);
                assert(base.len() <= q < base.len() + pushes.len());
                assert((base + pushes)[q] == pushes[q - base.len()]);
            }
            assert forall|q: int| 0 <= q <= widx implies st[q] == base[q] by {
                assert(st[q] == (base + pushes)[q]);
            }
            assert forall|q: int|
                (s0.len() + 1) <= q < st.len() implies is_tbe(#[trigger] st[q])
                && t0.is_static_dep(id, status_id(st[q])) && t0.valid_id(status_id(st[q])) by {
                let k = choose|k: int|
                    0 <= k < t0.recs_of(i as int).len() && t0.recs_of(
                        i as int,
                    )[k].kind.spec_is_static() && pushes[q - widx - 1] == Status::ToBeExecuted(
                        t0.recs_of(i as int)[k].resolved_module,
                    );
                assert(t0.valid_id(t0.recs_of(i as int)[k].resolved_module));
                assert(t0.is_static_dep(id, t0.recs_of(i as int)[k].resolved_module));
            }
            assert forall|d: ModuleId| #[trigger] t0.is_static_dep(id, d) implies exists|q: int|
                (s0.len() as int) < q < st.len() && st[q] == Status::ToBeExecuted(d) by {
                let k = choose|k: int|
                    0 <= k < t0.recs_of(i as int).len() && t0.recs_of(
                        i as int,
                    )[k].kind.spec_is_static() && t0.recs_of(i as int)[k].resolved_module == d;
                assert(pushes.contains(Status::ToBeExecuted(d)));
                let q = choose|q: int|
                    0 <= q < pushes.len() && pushes[q] == Status::ToBeExecuted(d);
                assert(st[widx + 1 + q] == Status::ToBeExecuted(d));
            }
        },
        ModuleId::External(_) => {
            assert(st =~= s0.push(Status::WaitForExit(id)));
        },
    }
}


/// After a first visit, the order bookkeeping, the roots, and the forced
/// opening still hold.
#[verifier::rlimit(100)]
proof fn lemma_visit_trace(
    t0: ModuleTable,
    cur: ModuleTable,
    entries: Seq<u32>,
    runtime_id: u32,
    s0: Seq<Status>,
    vn: Seq<bool>,
    ve: Seq<bool>,
    pn: Seq<Option<usize>>,
    pe: Seq<Option<usize>>,
    tr: Seq<ModuleId>,
    chain: Seq<ModuleId>,
    sorted: Seq<u32>,
    id: ModuleId,
)
    requires
        sort_inv(
            t0,
            cur,
            entries,
            runtime_id,
            s0.push(Status::ToBeExecuted(id)),
            vn,
            ve,
            pn,
            pe,
            tr,
            chain,
            sorted,
        ),
        t0.valid_id(id),
        !executed_at(vn, ve, id),
        s0.len() < usize::MAX,
    ensures
        inv_trace(
            t0,
            cur,
            runtime_id,
            visit_vn(vn, id),
            visit_ve(ve, id),
            visit_pn(pn, id, s0.len() as usize),
            visit_pe(pe, id, s0.len() as usize),
            tr,
            chain.push(id),
            sorted,
        ),
        inv_roots(entries, runtime_id, visit_stack(t0, s0, id), visit_vn(vn, id), visit_ve(ve, id)),
        inv_reach(t0, entries, runtime_id, visit_stack(t0, s0, id), visit_vn(vn, id), visit_ve(ve, id)),
        inv_start(entries, runtime_id, visit_stack(t0, s0, id), tr, chain.push(id)),
        !cur.ordered(id),
        chain.len() > 0 ==> t0.is_static_dep(chain[chain.len() - 1], id),
{
    reveal(sort_inv);
    lemma_visit_shape(t0, s0, vn, ve, pn, pe, id);
    let pre = s0.push(Status::ToBeExecuted(id));
    let st = visit_stack(t0, s0, id);
    let widx = s0.len() as usize;
    let vn2 = visit_vn(vn, id);
    let ve2 = visit_ve(ve, id);
    let pn2 = visit_pn(pn, id, widx);
    let pe2 = visit_pe(pe, id, widx);
    let ch2 = chain.push(id);
    match id {
        ModuleId::Normal(i) => {
            lemma_count_true_update(vn, i as int, vn.len() as int);
        },
        ModuleId::External(i) => {
            lemma_count_true_update(ve, i as int, ve.len() as int);
        },
    }
    assert(!cur.ordered(id));
    assert forall|x: ModuleId| #[trigger] t0.valid_id(x) implies {
        &&& (cur.ordered(x) <==> tr.contains(x))
        &&& (executed_at(vn2, ve2, x) <==> (cur.ordered(x) || prog_at(pn2, pe2, x) is Some))
        &&& (cur.ordered(x) ==> prog_at(pn2, pe2, x) is None)
        &&& (prog_at(pn2, pe2, x) is Some ==> ch2.contains(x))
    } by {
        if x == id {
            assert(ch2[ch2.len() - 1] == id);
        } else {
            if prog_at(pn, pe, x) is Some {
                let j = choose|j: int| 0 <= j < chain.len() && chain[j] == x;
                assert(ch2[j] == x);
            }
        }
    }
    // the chain edge to the new member comes from the popped queue entry
    if chain.len() > 0 {
        assert(t0.is_static_dep(chain[chain.len() - 1], id)) by {
            assert(is_tbe(pre[pre.len() - 1]));
            let pj = idx_of(prog_at(pn, pe, chain[chain.len() - 1]));
            assert(pre[pj] == Status::WaitForExit(chain[chain.len() - 1]));
            assert(pj < pre.len() - 1);
        }
    }
    // the roots keep their witnesses
    if !executed_at(vn, ve, ModuleId::Normal(runtime_id)) {
        let p = choose|p: int|
            0 <= p < pre.len() && pre[p] == Status::ToBeExecuted(ModuleId::Normal(runtime_id));
        if p == pre.len() - 1 {
            assert(id == ModuleId::Normal(runtime_id));
        } else {
            assert(st[p] == Status::ToBeExecuted(ModuleId::Normal(runtime_id)));
        }
    }
    assert forall|i: int|
        0 <= i < entries.len() implies executed_at(
        vn2,
        ve2,
        ModuleId::Normal(#[trigger] entries[i]),
    ) || exists|p: int|
        0 <= p < st.len() && st[p] == Status::ToBeExecuted(ModuleId::Normal(entries[i])) by {
        if !executed_at(vn, ve, ModuleId::Normal(entries[i])) {
            let p = choose|p: int|
                0 <= p < pre.len() && pre[p] == Status::ToBeExecuted(
                    ModuleId::Normal(entries[i]),
                );
            if p == pre.len() - 1 {
                assert(id == ModuleId::Normal(entries[i]));
            } else {
                assert(st[p] == Status::ToBeExecuted(ModuleId::Normal(entries[i])));
            }
        }
    }
    // the forced opening: the first visit is the runtime module
    if tr.len() == 0 {
        if chain.len() == 0 && pre == init_stack(entries, runtime_id) {
            assert(pre[pre.len() - 1] == Status::ToBeExecuted(ModuleId::Normal(runtime_id)));
            assert(id == ModuleId::Normal(runtime_id));
            match id {
                ModuleId::Normal(mi) => {
                    lemma_pushes_empty(t0.recs_of(mi as int), 0);
                },
                ModuleId::External(_) => {},
            }
            assert(st =~= init_stack(entries, runtime_id).drop_last().push(
                Status::WaitForExit(ModuleId::Normal(runtime_id)),
            ));
            assert(ch2 =~= seq![ModuleId::Normal(runtime_id)]);
        } else {
            assert(is_wfe(pre[pre.len() - 1]));
            assert(false);
        }
    }
    // reachability: the visited module was a queued visit, and what it
    // queues are its own dependencies
    assert(reachable_from_roots(&t0, entries, runtime_id, id)) by {
        assert(is_tbe(pre[pre.len() - 1]));
        assert(status_id(pre[pre.len() - 1]) == id);
    }
    assert forall|x: ModuleId|
        t0.valid_id(x) && #[trigger] executed_at(vn2, ve2, x) implies reachable_from_roots(
        &t0,
        entries,
        runtime_id,
        x,
    ) by {
        if x != id {
            assert(executed_at(vn, ve, x));
        }
    }
    assert forall|p: int|
        0 <= p < st.len() && is_tbe(#[trigger] st[p]) implies reachable_from_roots(
        &t0,
        entries,
        runtime_id,
        status_id(st[p]),
    ) by {
        if p < s0.len() {
            assert(st[p] == pre[p]);
        } else if p > s0.len() {
            assert(t0.is_static_dep(id, status_id(st[p])));
            lemma_reach_extend(&t0, entries, runtime_id, id, status_id(st[p]));
        }
    }
}


/// After a first visit, the chain still mirrors the stack and queued visits
/// still sit above the module that queued them.
#[verifier::rlimit(100)]
proof fn lemma_visit_chain(
    t0: ModuleTable,
    cur: ModuleTable,
    entries: Seq<u32>,
    runtime_id: u32,
    s0: Seq<Status>,
    vn: Seq<bool>,
    ve: Seq<bool>,
    pn: Seq<Option<usize>>,
    pe: Seq<Option<usize>>,
    tr: Seq<ModuleId>,
    chain: Seq<ModuleId>,
    sorted: Seq<u32>,
    id: ModuleId,
)
    requires
        sort_inv(
            t0,
            cur,
            entries,
            runtime_id,
            s0.push(Status::ToBeExecuted(id)),
            vn,
            ve,
            pn,
            pe,
            tr,
            chain,
            sorted,
        ),
        t0.valid_id(id),
        !executed_at(vn, ve, id),
        s0.len() < usize::MAX,
    ensures
        inv_chain(
            t0,
            visit_stack(t0, s0, id),
            visit_pn(pn, id, s0.len() as usize),
            visit_pe(pe, id, s0.len() as usize),
            chain.push(id),
        ),
{
    reveal(sort_inv);
    lemma_visit_shape(t0, s0, vn, ve, pn, pe, id);
    let pre = s0.push(Status::ToBeExecuted(id));
    let st = visit_stack(t0, s0, id);
    let widx = s0.len() as usize;
    let pn2 = visit_pn(pn, id, widx);
    let pe2 = visit_pe(pe, id, widx);
    let ch2 = chain.push(id);
    // in-progress modules do not include the unvisited `id`, so their
    // markers and stack entries carry over
    assert forall|j: int| 0 <= j < chain.len() implies chain[j] != id by {
        assert(prog_at(pn, pe, chain[j]) is Some);
    }
    assert forall|j: int| 0 <= j < ch2.len() implies {
        let p = idx_of(prog_at(pn2, pe2, #[trigger] ch2[j]));
        0 <= p < st.len() && st[p] == Status::WaitForExit(ch2[j])
    } by {
        if j < chain.len() {
            let p = idx_of(prog_at(pn, pe, chain[j]));
            assert(pre[p] == Status::WaitForExit(chain[j]));
            assert(p != pre.len() - 1);
            assert(st[p] == s0[p]);
        } else {
            assert(ch2[j] == id);
            assert(st[widx as int] == Status::WaitForExit(id));
        }
    }
    assert forall|j1: int, j2: int| 0 <= j1 < j2 < ch2.len() implies idx_of(
        prog_at(pn2, pe2, #[trigger] ch2[j1]),
    ) < idx_of(prog_at(pn2, pe2, #[trigger] ch2[j2])) by {
        if j2 < chain.len() {
        } else {
            assert(ch2[j2] == id);
            assert(idx_of(prog_at(pn2, pe2, id)) == widx as int);
            if j1 < chain.len() {
                let p = idx_of(prog_at(pn, pe, chain[j1]));
                assert(pre[p] == Status::WaitForExit(chain[j1]));
                assert(p != pre.len() - 1);
            }
        }
    }
    assert forall|p: int|
        0 <= p < st.len() && is_wfe(#[trigger] st[p]) implies t0.valid_id(status_id(st[p]))
        && prog_at(pn2, pe2, status_id(st[p])) == Some(p as usize) by {
        if p < s0.len() {
            assert(st[p] == s0[p] && s0[p] == pre[p]);
            assert(prog_at(pn, pe, status_id(pre[p])) == Some(p as usize));
            assert(status_id(pre[p]) != id);
        } else if p == widx as int {
            assert(st[p] == Status::WaitForExit(id));
        } else {
            assert(is_tbe(st[p]));
        }
    }
    if chain.len() > 0 {
        assert(t0.is_static_dep(chain[chain.len() - 1], id)) by {
            assert(is_tbe(pre[pre.len() - 1]));
            let pj = idx_of(prog_at(pn, pe, chain[chain.len() - 1]));
            assert(pre[pj] == Status::WaitForExit(chain[chain.len() - 1]));
            assert(pj < pre.len() - 1);
        }
    }
    assert(forall|j: int|
        0 <= j < ch2.len() - 1 ==> t0.is_static_dep(#[trigger] ch2[j], ch2[j + 1]));
    assert forall|p: int|
        0 <= p < st.len() && is_tbe(#[trigger] st[p]) implies t0.valid_id(status_id(st[p])) by {
        if p < s0.len() {
            assert(st[p] == pre[p]);
        } else if p > widx as int {
            assert(t0.valid_id(status_id(st[p])));
        }
    }
    // each queued visit sits right above the in-progress module that queued
    // it: old entries keep their old sponsor, new entries answer to `id`
    assert forall|p: int, j: int|
        0 <= p < st.len() && is_tbe(#[trigger] st[p]) && 0 <= j < ch2.len() && idx_of(
            prog_at(pn2, pe2, #[trigger] ch2[j]),
        ) < p && (j == ch2.len() - 1 || idx_of(prog_at(pn2, pe2, ch2[j + 1])) >= p) implies
        t0.is_static_dep(ch2[j], status_id(st[p])) by {
        if p < s0.len() {
            assert(st[p] == pre[p]);
            if j == ch2.len() - 1 {
                assert(ch2[j] == id);
                assert(idx_of(prog_at(pn2, pe2, id)) == widx as int);
                assert(false);
            } else {
                assert(ch2[j] == chain[j]);
                if j == ch2.len() - 2 {
                    assert(j == chain.len() - 1);
                    assert(t0.is_static_dep(chain[j], status_id(pre[p])));
                } else {
                    assert(ch2[j + 1] == chain[j + 1]);
                    assert(t0.is_static_dep(chain[j], status_id(pre[p])));
                }
            }
        } else if p == widx as int {
            assert(is_wfe(st[p]));
            assert(false);
        } else {
            if j == ch2.len() - 1 {
                assert(ch2[j] == id);
                assert(t0.is_static_dep(id, status_id(st[p])));
            } else {
                assert(idx_of(prog_at(pn2, pe2, ch2[j + 1])) <= widx as int);
                assert(false);
            }
        }
    }
}


/// After a first visit, every dependency keeps its witness: the new member's
/// dependencies were just queued, everyone else's are untouched.
#[verifier::rlimit(100)]
proof fn lemma_visit_deps(
    t0: ModuleTable,
    cur: ModuleTable,
    entries: Seq<u32>,
    runtime_id: u32,
    s0: Seq<Status>,
    vn: Seq<bool>,
    ve: Seq<bool>,
    pn: Seq<Option<usize>>,
    pe: Seq<Option<usize>>,
    tr: Seq<ModuleId>,
    chain: Seq<ModuleId>,
    sorted: Seq<u32>,
    id: ModuleId,
)
    requires
        sort_inv(
            t0,
            cur,
            entries,
            runtime_id,
            s0.push(Status::ToBeExecuted(id)),
            vn,
            ve,
            pn,
            pe,
            tr,
            chain,
            sorted,
        ),
        t0.valid_id(id),
        !executed_at(vn, ve, id),
        s0.len() < usize::MAX,
    ensures
        inv_deps(
            t0,
            cur,
            visit_stack(t0, s0, id),
            visit_vn(vn, id),
            visit_ve(ve, id),
            visit_pn(pn, id, s0.len() as usize),
            visit_pe(pe, id, s0.len() as usize),
            tr,
            chain.push(id),
        ),
{
    reveal(sort_inv);
    lemma_visit_shape(t0, s0, vn, ve, pn, pe, id);
    let pre = s0.push(Status::ToBeExecuted(id));
    let st = visit_stack(t0, s0, id);
    let widx = s0.len() as usize;
    let vn2 = visit_vn(vn, id);
    let ve2 = visit_ve(ve, id);
    let pn2 = visit_pn(pn, id, widx);
    let pe2 = visit_pe(pe, id, widx);
    let ch2 = chain.push(id);
    assert forall|j: int| 0 <= j < chain.len() implies chain[j] != id by {
        assert(prog_at(pn, pe, chain[j]) is Some);
    }
    assert forall|j: int, d: ModuleId|
        0 <= j < ch2.len() && #[trigger] t0.is_static_dep(ch2[j], d) implies executed_at(
        vn2,
        ve2,
        d,
    ) || exists|p: int|
        idx_of(prog_at(pn2, pe2, ch2[j])) < p < st.len() && st[p] == Status::ToBeExecuted(
            d,
        ) by {
        if j < chain.len() {
            assert(ch2[j] == chain[j]);
            if !executed_at(vn, ve, d) {
                let p = choose|p: int|
                    idx_of(prog_at(pn, pe, chain[j])) < p < pre.len() && pre[p]
                        == Status::ToBeExecuted(d);
                if p == pre.len() - 1 {
                    assert(d == id);
                    assert(executed_at(vn2, ve2, d));
                } else {
                    assert(st[p] == Status::ToBeExecuted(d));
                    assert(idx_of(prog_at(pn2, pe2, ch2[j])) == idx_of(
                        prog_at(pn, pe, chain[j]),
                    ));
                }
            } else {
                assert(executed_at(vn2, ve2, d));
            }
        } else {
            assert(ch2[j] == id);
            let q = choose|q: int|
                (s0.len() as int) < q < st.len() && st[q] == Status::ToBeExecuted(d);
            assert(idx_of(prog_at(pn2, pe2, id)) == widx as int);
        }
    }
    assert forall|m: ModuleId, d: ModuleId|
        tr.contains(m) && #[trigger] t0.is_static_dep(m, d) implies executed_at(vn2, ve2, d) && ((
    cur.ordered(d) && cur.order_of(d) < cur.order_of(m)) || has_path(&t0, d, m)) by {
        assert(executed_at(vn, ve, d));
    }
}

/// First visiting a module preserves the invariant and consumes one unit of
/// the traversal budget.
proof fn lemma_sort_visit_inv(
    t0: ModuleTable,
    cur: ModuleTable,
    entries: Seq<u32>,
    runtime_id: u32,
    s0: Seq<Status>,
    vn: Seq<bool>,
    ve: Seq<bool>,
    pn: Seq<Option<usize>>,
    pe: Seq<Option<usize>>,
    tr: Seq<ModuleId>,
    chain: Seq<ModuleId>,
    sorted: Seq<u32>,
    id: ModuleId,
)
    requires
        sort_inv(
            t0,
            cur,
            entries,
            runtime_id,
            s0.push(Status::ToBeExecuted(id)),
            vn,
            ve,
            pn,
            pe,
            tr,
            chain,
            sorted,
        ),
        t0.valid_id(id),
        !executed_at(vn, ve, id),
        s0.len() < usize::MAX,
    ensures
        sort_inv(
            t0,
            cur,
            entries,
            runtime_id,
            visit_stack(t0, s0, id),
            visit_vn(vn, id),
            visit_ve(ve, id),
            visit_pn(pn, id, s0.len() as usize),
            visit_pe(pe, id, s0.len() as usize),
            tr,
            chain.push(id),
            sorted,
        ),
        sort_measure(t0, visit_stack(t0, s0, id), visit_vn(vn, id), visit_ve(ve, id))
            < sort_measure(t0, s0.push(Status::ToBeExecuted(id)), vn, ve),
{
    lemma_visit_trace(t0, cur, entries, runtime_id, s0, vn, ve, pn, pe, tr, chain, sorted, id);
    lemma_visit_chain(t0, cur, entries, runtime_id, s0, vn, ve, pn, pe, tr, chain, sorted, id);
    lemma_visit_deps(t0, cur, entries, runtime_id, s0, vn, ve, pn, pe, tr, chain, sorted, id);
    assert(inv_shape(
        t0,
        cur,
        entries,
        runtime_id,
        visit_vn(vn, id),
        visit_ve(ve, id),
        visit_pn(pn, id, s0.len() as usize),
        visit_pe(pe, id, s0.len() as usize),
    )) by {
        reveal(sort_inv);
    }
    assert(sort_inv(
        t0,
        cur,
        entries,
        runtime_id,
        visit_stack(t0, s0, id),
        visit_vn(vn, id),
        visit_ve(ve, id),
        visit_pn(pn, id, s0.len() as usize),
        visit_pe(pe, id, s0.len() as usize),
        tr,
        chain.push(id),
        sorted,
    )) by {
        reveal(sort_inv);
    }
    // the budget: one new stack entry per queued dependency, paid for by the
    // visited module's released weight
    assert(sort_measure(t0, visit_stack(t0, s0, id), visit_vn(vn, id), visit_ve(ve, id))
        < sort_measure(t0, s0.push(Status::ToBeExecuted(id)), vn, ve)) by {
        reveal(sort_inv);
        match id {
            ModuleId::Normal(i) => {
                lemma_weight_normal_update(&t0, vn, i as int, vn.len() as int);
                lemma_weight_external_nonneg(ve, ve.len() as int);
                assert(visit_stack(t0, s0, id).len() == s0.len() + 1 + pushes_for(
                    t0.recs_of(i as int),
                    0,
                ).len());
            },
            ModuleId::External(i) => {
                lemma_weight_external_update(ve, i as int, ve.len() as int);
                lemma_weight_normal_nonneg(&t0, vn, vn.len() as int);
                assert(visit_stack(t0, s0, id) =~= s0.push(Status::WaitForExit(id)));
            },
        }
    }
}


/// The in-progress markers after the exit of `id`.
spec fn exit_pn(pn: Seq<Option<usize>>, id: ModuleId) -> Seq<Option<usize>> {
    match id {
        ModuleId::Normal(i) => pn.update(i as int, None),
        ModuleId::External(_) => pn,
    }
}

spec fn exit_pe(pe: Seq<Option<usize>>, id: ModuleId) -> Seq<Option<usize>> {
    match id {
        ModuleId::Normal(_) => pe,
        ModuleId::External(i) => pe.update(i as int, None),
    }
}

/// The collected normal-module order after the exit of `id`.
spec fn exit_sorted(sorted: Seq<u32>, id: ModuleId) -> Seq<u32> {
    match id {
        ModuleId::Normal(i) => sorted.push(i),
        ModuleId::External(_) => sorted,
    }
}

/// Shared facts at the exit of `id`: it is the deepest in-progress module,
/// unordered, and owner of only the topmost wait-for-exit entry.
proof fn lemma_exit_shared(
    t0: ModuleTable,
    cur: ModuleTable,
    entries: Seq<u32>,
    runtime_id: u32,
    s0: Seq<Status>,
    vn: Seq<bool>,
    ve: Seq<bool>,
    pn: Seq<Option<usize>>,
    pe: Seq<Option<usize>>,
    tr: Seq<ModuleId>,
    chain: Seq<ModuleId>,
    sorted: Seq<u32>,
    id: ModuleId,
)
    requires
        sort_inv(
            t0,
            cur,
            entries,
            runtime_id,
            s0.push(Status::WaitForExit(id)),
            vn,
            ve,
            pn,
            pe,
            tr,
            chain,
            sorted,
        ),
        s0.len() < usize::MAX,
        t0.valid_id(id),
    ensures
        prog_at(pn, pe, id) == Some(s0.len() as usize),
        chain.len() > 0 && id == chain[chain.len() - 1],
        !cur.ordered(id),
        !tr.contains(id),
        executed_at(vn, ve, id),
        forall|j: int| 0 <= j < chain.len() - 1 ==> #[trigger] chain[j] != id,
        forall|p: int|
            0 <= p < s0.len() && is_wfe(#[trigger] s0[p]) ==> status_id(s0[p]) != id,
        forall|j: int|
            0 <= j < chain.len() - 1 ==> idx_of(prog_at(pn, pe, #[trigger] chain[j]))
                < s0.len(),
        tr.len() == 0 ==> id == ModuleId::Normal(runtime_id),
{
    reveal(sort_inv);
    let pre = s0.push(Status::WaitForExit(id));
    assert(is_wfe(pre[pre.len() - 1]));
    assert(prog_at(pn, pe, id) == Some((pre.len() - 1) as usize));
    assert(chain.contains(id));
    let jl = choose|j: int| 0 <= j < chain.len() && chain[j] == id;
    assert(jl == chain.len() - 1) by {
        if jl < chain.len() - 1 {
            let pl = idx_of(prog_at(pn, pe, chain[chain.len() - 1]));
            assert(pre[pl] == Status::WaitForExit(chain[chain.len() - 1]));
            assert(idx_of(prog_at(pn, pe, chain[jl])) < pl);
        }
    }
    assert forall|j: int| 0 <= j < chain.len() - 1 implies #[trigger] chain[j] != id by {
        if chain[j] == id {
            assert(idx_of(prog_at(pn, pe, chain[j])) < idx_of(
                prog_at(pn, pe, chain[chain.len() - 1]),
            ));
        }
    }
    assert forall|j: int|
        0 <= j < chain.len() - 1 implies idx_of(prog_at(pn, pe, #[trigger] chain[j]))
        < s0.len() by {
        assert(idx_of(prog_at(pn, pe, chain[j])) < idx_of(
            prog_at(pn, pe, chain[chain.len() - 1]),
        ));
    }
    assert forall|p: int|
        0 <= p < s0.len() && is_wfe(#[trigger] s0[p]) implies status_id(s0[p]) != id by {
        assert(s0[p] == pre[p]);
        assert(prog_at(pn, pe, status_id(pre[p])) == Some(p as usize));
    }
    if tr.len() == 0 {
        assert(pre != init_stack(entries, runtime_id)) by {
            assert(is_tbe(init_stack(entries, runtime_id)[pre.len() - 1]));
        }
        assert(chain == seq![ModuleId::Normal(runtime_id)]);
        assert(id == chain[0]);
    }
}

/// At the exit of `id`, order bookkeeping, roots, and the forced opening
/// carry over to the updated table and extended trace.
#[verifier::rlimit(100)]
proof fn lemma_exit_book(
    t0: ModuleTable,
    cur: ModuleTable,
    cur2: ModuleTable,
    entries: Seq<u32>,
    runtime_id: u32,
    s0: Seq<Status>,
    vn: Seq<bool>,
    ve: Seq<bool>,
    pn: Seq<Option<usize>>,
    pe: Seq<Option<usize>>,
    tr: Seq<ModuleId>,
    chain: Seq<ModuleId>,
    sorted: Seq<u32>,
    id: ModuleId,
)
    requires
        sort_inv(
            t0,
            cur,
            entries,
            runtime_id,
            s0.push(Status::WaitForExit(id)),
            vn,
            ve,
            pn,
            pe,
            tr,
            chain,
            sorted,
        ),
        s0.len() < usize::MAX,
        cur2.same_structure(&cur),
        t0.valid_id(id),
        cur2.order_of(id) == tr.len(),
        tr.len() < EXEC_ORDER_UNSET as int,
        forall|x: ModuleId| t0.valid_id(x) && x != id ==> cur2.order_of(x) == cur.order_of(x),
    ensures
        inv_shape(t0, cur2, entries, runtime_id, vn, ve, exit_pn(pn, id), exit_pe(pe, id)),
        inv_trace(
            t0,
            cur2,
            runtime_id,
            vn,
            ve,
            exit_pn(pn, id),
            exit_pe(pe, id),
            tr.push(id),
            chain.drop_last(),
            exit_sorted(sorted, id),
        ),
        inv_roots(entries, runtime_id, s0, vn, ve),
        inv_reach(t0, entries, runtime_id, s0, vn, ve),
        inv_start(entries, runtime_id, s0, tr.push(id), chain.drop_last()),
{
    reveal(sort_inv);
    lemma_exit_shared(
        t0, cur, entries, runtime_id, s0, vn, ve, pn, pe, tr, chain, sorted, id,
    );
    let pre = s0.push(Status::WaitForExit(id));
    let pn2 = exit_pn(pn, id);
    let pe2 = exit_pe(pe, id);
    let tr2 = tr.push(id);
    let ch2 = chain.drop_last();
    assert(cur2.same_structure(&t0)) by {
        assert(forall|i: int|
            0 <= i < cur2.normal_modules@.len() ==> (#[trigger] cur2.normal_modules@[i]).resource_id
                == cur.normal_modules@[i].resource_id && cur2.normal_modules@[i].import_records@
                == cur.normal_modules@[i].import_records@);
    }
    assert forall|q: int| 0 <= q < tr2.len() implies t0.valid_id(#[trigger] tr2[q])
        && cur2.order_of(tr2[q]) == q by {
        if q < tr.len() {
            assert(tr2[q] == tr[q]);
            assert(tr[q] != id);
        } else {
            assert(tr2[q] == id);
        }
    }
    assert forall|x: ModuleId| #[trigger] t0.valid_id(x) implies {
        &&& (cur2.ordered(x) <==> tr2.contains(x))
        &&& (executed_at(vn, ve, x) <==> (cur2.ordered(x) || prog_at(pn2, pe2, x) is Some))
        &&& (cur2.ordered(x) ==> prog_at(pn2, pe2, x) is None)
        &&& (prog_at(pn2, pe2, x) is Some ==> ch2.contains(x))
    } by {
        if x == id {
            assert(tr2[tr2.len() - 1] == id);
        } else {
            assert(prog_at(pn2, pe2, x) == prog_at(pn, pe, x));
            if tr2.contains(x) {
                let q = choose|q: int| 0 <= q < tr2.len() && tr2[q] == x;
                assert(tr[q] == x);
            }
            if tr.contains(x) {
                let q = choose|q: int| 0 <= q < tr.len() && tr[q] == x;
                assert(tr2[q] == x);
            }
            if prog_at(pn, pe, x) is Some {
                let j = choose|j: int| 0 <= j < chain.len() && chain[j] == x;
                assert(j < chain.len() - 1);
                assert(ch2[j] == x);
            }
        }
    }
    match id {
        ModuleId::Normal(i) => {
            assert(normals_of(tr2) =~= normals_of(tr).push(i)) by {
                assert(tr2.drop_last() =~= tr);
            }
        },
        ModuleId::External(_) => {
            assert(normals_of(tr2) =~= normals_of(tr)) by {
                assert(tr2.drop_last() =~= tr);
            }
        },
    }
    if !executed_at(vn, ve, ModuleId::Normal(runtime_id)) {
        let p = choose|p: int|
            0 <= p < pre.len() && pre[p] == Status::ToBeExecuted(ModuleId::Normal(runtime_id));
        assert(p != pre.len() - 1);
        assert(s0[p] == Status::ToBeExecuted(ModuleId::Normal(runtime_id)));
    }
    assert forall|i: int|
        0 <= i < entries.len() implies executed_at(
        vn,
        ve,
        ModuleId::Normal(#[trigger] entries[i]),
    ) || exists|p: int|
        0 <= p < s0.len() && s0[p] == Status::ToBeExecuted(ModuleId::Normal(entries[i])) by {
        if !executed_at(vn, ve, ModuleId::Normal(entries[i])) {
            let p = choose|p: int|
                0 <= p < pre.len() && pre[p] == Status::ToBeExecuted(
                    ModuleId::Normal(entries[i]),
                );
            assert(p != pre.len() - 1);
            assert(s0[p] == Status::ToBeExecuted(ModuleId::Normal(entries[i])));
        }
    }
    assert forall|p: int|
        0 <= p < s0.len() && is_tbe(#[trigger] s0[p]) implies reachable_from_roots(
        &t0,
        entries,
        runtime_id,
        status_id(s0[p]),
    ) by {
        assert(s0[p] == pre[p]);
    }
}

/// At the exit of `id`, the shorter chain still mirrors the shorter stack.
#[verifier::rlimit(100)]
#[verifier::spinoff_prover]
proof fn lemma_exit_chain(
    t0: ModuleTable,
    cur: ModuleTable,
    entries: Seq<u32>,
    runtime_id: u32,
    s0: Seq<Status>,
    vn: Seq<bool>,
    ve: Seq<bool>,
    pn: Seq<Option<usize>>,
    pe: Seq<Option<usize>>,
    tr: Seq<ModuleId>,
    chain: Seq<ModuleId>,
    sorted: Seq<u32>,
    id: ModuleId,
)
    requires
        sort_inv(
            t0,
            cur,
            entries,
            runtime_id,
            s0.push(Status::WaitForExit(id)),
            vn,
            ve,
            pn,
            pe,
            tr,
            chain,
            sorted,
        ),
        s0.len() < usize::MAX,
        t0.valid_id(id),
    ensures
        inv_chain(t0, s0, exit_pn(pn, id), exit_pe(pe, id), chain.drop_last()),
{
    reveal(sort_inv);
    lemma_exit_shared(
        t0, cur, entries, runtime_id, s0, vn, ve, pn, pe, tr, chain, sorted, id,
    );
    let pre = s0.push(Status::WaitForExit(id));
    let pn2 = exit_pn(pn, id);
    let pe2 = exit_pe(pe, id);
    let ch2 = chain.drop_last();
    assert forall|j: int| 0 <= j < ch2.len() implies {
        let p = idx_of(prog_at(pn2, pe2, #[trigger] ch2[j]));
        0 <= p < s0.len() && s0[p] == Status::WaitForExit(ch2[j])
    } by {
        assert(ch2[j] == chain[j] && chain[j] != id);
        let p = idx_of(prog_at(pn, pe, chain[j]));
        assert(pre[p] == Status::WaitForExit(chain[j]));
        assert(p < s0.len());
        assert(s0[p] == pre[p]);
    }
    assert forall|p: int|
        0 <= p < s0.len() && is_wfe(#[trigger] s0[p]) implies t0.valid_id(status_id(s0[p]))
        && prog_at(pn2, pe2, status_id(s0[p])) == Some(p as usize) by {
        assert(s0[p] == pre[p]);
        assert(status_id(s0[p]) != id);
    }
    assert forall|j: int| 0 <= j < ch2.len() implies t0.valid_id(#[trigger] ch2[j]) by {
        assert(ch2[j] == chain[j]);
    }
    assert forall|j1: int, j2: int| 0 <= j1 < j2 < ch2.len() implies idx_of(
        prog_at(pn2, pe2, #[trigger] ch2[j1]),
    ) < idx_of(prog_at(pn2, pe2, #[trigger] ch2[j2])) by {
        assert(ch2[j1] == chain[j1] && chain[j1] != id);
        assert(ch2[j2] == chain[j2] && chain[j2] != id);
        assert(idx_of(prog_at(pn, pe, chain[j1])) < idx_of(prog_at(pn, pe, chain[j2])));
    }
    assert forall|j: int| 0 <= j < ch2.len() - 1 implies t0.is_static_dep(
        #[trigger] ch2[j],
        ch2[j + 1],
    ) by {
        assert(ch2[j] == chain[j] && ch2[j + 1] == chain[j + 1]);
        assert(t0.is_static_dep(chain[j], chain[j + 1]));
    }
    assert forall|p: int|
        0 <= p < s0.len() && is_tbe(#[trigger] s0[p]) implies t0.valid_id(status_id(s0[p])) by {
        assert(s0[p] == pre[p]);
    }
    lemma_exit_sponsors(
        t0, cur, entries, runtime_id, s0, vn, ve, pn, pe, tr, chain, sorted, id,
    );
}

/// At the exit of `id`, the queued visits keep their sponsors: the entry
/// above a surviving in-progress module was queued by it.
#[verifier::rlimit(100)]
proof fn lemma_exit_sponsors(
    t0: ModuleTable,
    cur: ModuleTable,
    entries: Seq<u32>,
    runtime_id: u32,
    s0: Seq<Status>,
    vn: Seq<bool>,
    ve: Seq<bool>,
    pn: Seq<Option<usize>>,
    pe: Seq<Option<usize>>,
    tr: Seq<ModuleId>,
    chain: Seq<ModuleId>,
    sorted: Seq<u32>,
    id: ModuleId,
)
    requires
        sort_inv(
            t0,
            cur,
            entries,
            runtime_id,
            s0.push(Status::WaitForExit(id)),
            vn,
            ve,
            pn,
            pe,
            tr,
            chain,
            sorted,
        ),
        s0.len() < usize::MAX,
        t0.valid_id(id),
    ensures
        forall|p: int, j: int|
            0 <= p < s0.len() && is_tbe(#[trigger] s0[p]) && 0 <= j < chain.drop_last().len()
                && idx_of(
                prog_at(exit_pn(pn, id), exit_pe(pe, id), #[trigger] chain.drop_last()[j]),
            ) < p && (j == chain.drop_last().len() - 1 || idx_of(
                prog_at(exit_pn(pn, id), exit_pe(pe, id), chain.drop_last()[j + 1]),
            ) >= p) ==> t0.is_static_dep(chain.drop_last()[j], status_id(s0[p])),
{
    reveal(sort_inv);
    lemma_exit_shared(
        t0, cur, entries, runtime_id, s0, vn, ve, pn, pe, tr, chain, sorted, id,
    );
    let pre = s0.push(Status::WaitForExit(id));
    let pn2 = exit_pn(pn, id);
    let pe2 = exit_pe(pe, id);
    let ch2 = chain.drop_last();
    assert forall|p: int, j: int|
        0 <= p < s0.len() && is_tbe(#[trigger] s0[p]) && 0 <= j < ch2.len() && idx_of(
            prog_at(pn2, pe2, #[trigger] ch2[j]),
        ) < p && (j == ch2.len() - 1 || idx_of(prog_at(pn2, pe2, ch2[j + 1])) >= p) implies
        t0.is_static_dep(ch2[j], status_id(s0[p])) by {
        assert(s0[p] == pre[p]);
        assert(ch2[j] == chain[j] && chain[j] != id);
        if j == ch2.len() - 1 {
            assert(j + 1 == chain.len() - 1);
            assert(idx_of(prog_at(pn, pe, chain[j + 1])) == pre.len() - 1);
            assert(idx_of(prog_at(pn, pe, chain[j + 1])) >= p);
            assert(t0.is_static_dep(chain[j], status_id(pre[p])));
        } else {
            assert(ch2[j + 1] == chain[j + 1] && chain[j + 1] != id);
            assert(t0.is_static_dep(chain[j], status_id(pre[p])));
        }
    }
}

/// At the exit of `id`, its dependencies are all visited and settle into the
/// ordered-earlier-or-cycle story; everyone else's story is untouched.
#[verifier::rlimit(100)]
proof fn lemma_exit_deps(
    t0: ModuleTable,
    cur: ModuleTable,
    cur2: ModuleTable,
    entries: Seq<u32>,
    runtime_id: u32,
    s0: Seq<Status>,
    vn: Seq<bool>,
    ve: Seq<bool>,
    pn: Seq<Option<usize>>,
    pe: Seq<Option<usize>>,
    tr: Seq<ModuleId>,
    chain: Seq<ModuleId>,
    sorted: Seq<u32>,
    id: ModuleId,
)
    requires
        sort_inv(
            t0,
            cur,
            entries,
            runtime_id,
            s0.push(Status::WaitForExit(id)),
            vn,
            ve,
            pn,
            pe,
            tr,
            chain,
            sorted,
        ),
        s0.len() < usize::MAX,
        cur2.same_structure(&cur),
        t0.valid_id(id),
        cur2.order_of(id) == tr.len(),
        tr.len() < EXEC_ORDER_UNSET as int,
        forall|x: ModuleId| t0.valid_id(x) && x != id ==> cur2.order_of(x) == cur.order_of(x),
    ensures
        inv_deps(
            t0,
            cur2,
            s0,
            vn,
            ve,
            exit_pn(pn, id),
            exit_pe(pe, id),
            tr.push(id),
            chain.drop_last(),
        ),
{
    reveal(sort_inv);
    lemma_exit_shared(
        t0, cur, entries, runtime_id, s0, vn, ve, pn, pe, tr, chain, sorted, id,
    );
    let pre = s0.push(Status::WaitForExit(id));
    let pn2 = exit_pn(pn, id);
    let pe2 = exit_pe(pe, id);
    let tr2 = tr.push(id);
    let ch2 = chain.drop_last();
    assert forall|j: int, d: ModuleId|
        0 <= j < ch2.len() && #[trigger] t0.is_static_dep(ch2[j], d) implies executed_at(
        vn,
        ve,
        d,
    ) || exists|p: int|
        idx_of(prog_at(pn2, pe2, ch2[j])) < p < s0.len() && s0[p] == Status::ToBeExecuted(
            d,
        ) by {
        assert(ch2[j] == chain[j] && chain[j] != id);
        if !executed_at(vn, ve, d) {
            let p = choose|p: int|
                idx_of(prog_at(pn, pe, chain[j])) < p < pre.len() && pre[p]
                    == Status::ToBeExecuted(d);
            assert(p != pre.len() - 1);
            assert(s0[p] == Status::ToBeExecuted(d));
            assert(idx_of(prog_at(pn2, pe2, ch2[j])) == idx_of(prog_at(pn, pe, chain[j])));
        }
    }
    assert forall|m: ModuleId, d: ModuleId|
        tr2.contains(m) && #[trigger] t0.is_static_dep(m, d) implies executed_at(vn, ve, d) && ((
    cur2.ordered(d) && cur2.order_of(d) < cur2.order_of(m)) || has_path(&t0, d, m)) by {
        if m == id {
            // every dependency of the exiting module is visited: nothing is
            // queued above the topmost stack entry
            assert(executed_at(vn, ve, d)) by {
                if !executed_at(vn, ve, d) {
                    let p = choose|p: int|
                        idx_of(prog_at(pn, pe, chain[chain.len() - 1])) < p < pre.len()
                            && pre[p] == Status::ToBeExecuted(d);
                    assert(idx_of(prog_at(pn, pe, id)) == pre.len() - 1);
                }
            }
            assert(t0.valid_id(d)) by {
                match m {
                    ModuleId::Normal(mi) => {
                        let kk = choose|kk: int|
                            0 <= kk < t0.recs_of(mi as int).len() && t0.recs_of(
                                mi as int,
                            )[kk].kind.spec_is_static() && t0.recs_of(
                                mi as int,
                            )[kk].resolved_module == d;
                        assert(t0.valid_id(t0.recs_of(mi as int)[kk].resolved_module));
                    },
                    ModuleId::External(_) => {},
                }
            }
            if cur.ordered(d) {
                assert(tr.contains(d));
                let q = choose|q: int| 0 <= q < tr.len() && tr[q] == d;
                assert(cur.order_of(d) == q);
                assert(d != id);
                assert(cur2.order_of(d) == q);
                assert(cur2.order_of(m) == tr.len());
                assert(cur2.ordered(d));
            } else {
                assert(executed_at(vn, ve, d));
                assert(prog_at(pn, pe, d) is Some);
                assert(chain.contains(d));
                let jd = choose|j: int| 0 <= j < chain.len() && chain[j] == d;
                lemma_chain_suffix_path(&t0, chain, jd);
                assert(has_path(&t0, d, chain[chain.len() - 1]));
            }
        } else {
            assert(tr.contains(m)) by {
                let q = choose|q: int| 0 <= q < tr2.len() && tr2[q] == m;
                assert(tr[q] == m);
            }
            assert(executed_at(vn, ve, d));
            if cur.ordered(d) && cur.order_of(d) < cur.order_of(m) {
                assert(d != id);
                assert(m != id);
                assert(cur2.order_of(d) == cur.order_of(d));
                assert(cur2.order_of(m) == cur.order_of(m));
            }
        }
    }
}

/// Popping a wait-for-exit entry assigns the next order and closes the
/// deepest in-progress module; the invariant carries over to the updated
/// table.
proof fn lemma_sort_exit_inv(
    t0: ModuleTable,
    cur: ModuleTable,
    cur2: ModuleTable,
    entries: Seq<u32>,
    runtime_id: u32,
    s0: Seq<Status>,
    vn: Seq<bool>,
    ve: Seq<bool>,
    pn: Seq<Option<usize>>,
    pe: Seq<Option<usize>>,
    tr: Seq<ModuleId>,
    chain: Seq<ModuleId>,
    sorted: Seq<u32>,
    id: ModuleId,
)
    requires
        sort_inv(
            t0,
            cur,
            entries,
            runtime_id,
            s0.push(Status::WaitForExit(id)),
            vn,
            ve,
            pn,
            pe,
            tr,
            chain,
            sorted,
        ),
        s0.len() < usize::MAX,
        cur2.same_structure(&cur),
        t0.valid_id(id),
        cur2.order_of(id) == tr.len(),
        tr.len() < EXEC_ORDER_UNSET as int,
        forall|x: ModuleId| t0.valid_id(x) && x != id ==> cur2.order_of(x) == cur.order_of(x),
    ensures
        sort_inv(
            t0,
            cur2,
            entries,
            runtime_id,
            s0,
            vn,
            ve,
            exit_pn(pn, id),
            exit_pe(pe, id),
            tr.push(id),
            chain.drop_last(),
            exit_sorted(sorted, id),
        ),
        chain.len() > 0 && id == chain[chain.len() - 1],
        !tr.contains(id),
{
    lemma_exit_shared(
        t0, cur, entries, runtime_id, s0, vn, ve, pn, pe, tr, chain, sorted, id,
    );
    lemma_exit_book(
        t0, cur, cur2, entries, runtime_id, s0, vn, ve, pn, pe, tr, chain, sorted, id,
    );
    lemma_exit_chain(
        t0, cur, entries, runtime_id, s0, vn, ve, pn, pe, tr, chain, sorted, id,
    );
    lemma_exit_deps(
        t0, cur, cur2, entries, runtime_id, s0, vn, ve, pn, pe, tr, chain, sorted, id,
    );
    assert(tr.push(id).len() + chain.drop_last().len() == count_true(vn, vn.len() as int)
        + count_true(ve, ve.len() as int)) by {
        reveal(sort_inv);
    }
    assert(sort_inv(
        t0,
        cur2,
        entries,
        runtime_id,
        s0,
        vn,
        ve,
        exit_pn(pn, id),
        exit_pe(pe, id),
        tr.push(id),
        chain.drop_last(),
        exit_sorted(sorted, id),
    )) by {
        reveal(sort_inv);
    }
}


/// A suffix of the edge-linked in-progress chain, followed again by its own
/// first member, is a circular dependency.
proof fn lemma_cycle_closes(
    t0: ModuleTable,
    chain: Seq<ModuleId>,
    j0: int,
    id: ModuleId,
    cyc: Seq<ModuleId>,
)
    requires
        0 <= j0 < chain.len(),
        chain[j0] == id,
        forall|j: int|
            0 <= j < chain.len() - 1 ==> t0.is_static_dep(#[trigger] chain[j], chain[j + 1]),
        t0.is_static_dep(chain[chain.len() - 1], id),
        cyc == chain.subrange(j0, chain.len() as int).push(id),
    ensures
        is_cycle(&t0, cyc),
{
    assert(cyc.len() == chain.len() - j0 + 1);
    assert(cyc.len() >= 2);
    assert(cyc.first() == chain[j0]);
    assert(cyc.last() == id);
    assert forall|i: int| 0 <= i < cyc.len() - 1 implies t0.is_static_dep(
        #[trigger] cyc[i],
        cyc[i + 1],
    ) by {
        if i < cyc.len() - 2 {
            assert(cyc[i] == chain[j0 + i]);
            assert(cyc[i + 1] == chain[j0 + i + 1]);
            assert(t0.is_static_dep(chain[j0 + i], chain[j0 + i + 1]));
        } else {
            assert(cyc[i] == chain[chain.len() - 1]);
            assert(cyc[i + 1] == id);
        }
    }
}

/// In a graph without cycles, the ordered-earlier-or-cycle story leaves only
/// ordered-earlier.
proof fn lemma_final_acyclic(t0: ModuleTable, cur: ModuleTable, tr: Seq<ModuleId>)
    requires
        topological_up_to_cycles(&cur, &t0, tr),
    ensures
        acyclic(&t0) ==> forall|m: ModuleId, d: ModuleId|
            tr.contains(m) && #[trigger] t0.is_static_dep(m, d) ==> cur.order_of(d)
                < cur.order_of(m),
{
    if acyclic(&t0) {
        assert forall|m: ModuleId, d: ModuleId|
            tr.contains(m) && #[trigger] t0.is_static_dep(m, d) implies cur.order_of(d)
            < cur.order_of(m) by {
            if !(cur.order_of(d) < cur.order_of(m)) {
                assert(has_path(&t0, d, m));
                lemma_back_path_gives_cycle(&t0, m, d);
            }
        }
    }
}


/// Collects the circular chain discovered when the visit of `id` finds it
/// already on the way in: every module pending exit from its recorded stack
/// position up, plus `id` itself, in stack order.
#[verifier::rlimit(100)]
fn collect_cycle(
    stack: &Vec<Status>,
    id: ModuleId,
    start: usize,
    Ghost(t0): Ghost<ModuleTable>,
    Ghost(cur): Ghost<ModuleTable>,
    Ghost(entries): Ghost<Seq<u32>>,
    Ghost(runtime_id): Ghost<u32>,
    Ghost(vn): Ghost<Seq<bool>>,
    Ghost(ve): Ghost<Seq<bool>>,
    Ghost(pn): Ghost<Seq<Option<usize>>>,
    Ghost(pe): Ghost<Seq<Option<usize>>>,
    Ghost(tr): Ghost<Seq<ModuleId>>,
    Ghost(chain): Ghost<Seq<ModuleId>>,
    Ghost(sorted): Ghost<Seq<u32>>,
) -> (cyc: Vec<ModuleId>)
    requires
        sort_inv(
            t0,
            cur,
            entries,
            runtime_id,
            stack@.push(Status::ToBeExecuted(id)),
            vn,
            ve,
            pn,
            pe,
            tr,
            chain,
            sorted,
        ),
        t0.valid_id(id),
        prog_at(pn, pe, id) == Some(start),
    ensures
        is_cycle(&t0, cyc@),
{
    proof {
        reveal(sort_inv);
    }
    let ghost pre0 = stack@.push(Status::ToBeExecuted(id));
    let ghost j0 = choose|j: int| 0 <= j < chain.len() && chain[j] == id;
    proof {
        assert(chain.contains(id));
        assert(chain[j0] == id);
        assert(idx_of(prog_at(pn, pe, id)) == start as int);
        assert(pre0[start as int] == Status::WaitForExit(id));
        assert(start < stack@.len());
    }
    let mut cyc: Vec<ModuleId> = Vec::new();
    let mut p = start;
    while p < stack.len()
        invariant
            start <= p <= stack@.len(),
            0 <= j0 < chain.len(),
            chain[j0] == id,
            idx_of(prog_at(pn, pe, id)) == start as int,
            j0 + cyc@.len() <= chain.len(),
            cyc@ == chain.subrange(j0, j0 + cyc@.len()),
            forall|j: int|
                j0 <= j < j0 + cyc@.len() ==> idx_of(prog_at(pn, pe, #[trigger] chain[j])) < p,
            j0 + cyc@.len() < chain.len() ==> idx_of(
                prog_at(pn, pe, chain[j0 + cyc@.len()]),
            ) >= p,
            forall|j: int| 0 <= j < chain.len() ==> t0.valid_id(#[trigger] chain[j]),
            forall|j: int|
                0 <= j < chain.len() ==> {
                    let q = idx_of(prog_at(pn, pe, #[trigger] chain[j]));
                    0 <= q < stack@.len() + 1 && stack@.push(Status::ToBeExecuted(id))[q]
                        == Status::WaitForExit(chain[j])
                },
            forall|j1: int, j2: int|
                0 <= j1 < j2 < chain.len() ==> idx_of(prog_at(pn, pe, #[trigger] chain[j1]))
                    < idx_of(prog_at(pn, pe, #[trigger] chain[j2])),
            forall|q: int|
                0 <= q < stack@.len() + 1 && is_wfe(
                    #[trigger] stack@.push(Status::ToBeExecuted(id))[q],
                ) ==> t0.valid_id(status_id(stack@.push(Status::ToBeExecuted(id))[q]))
                    && prog_at(pn, pe, status_id(stack@.push(Status::ToBeExecuted(id))[q]))
                    == Some(q as usize),
            forall|xm: ModuleId|
                t0.valid_id(xm) && #[trigger] prog_at(pn, pe, xm) is Some ==> chain.contains(xm),
        decreases stack@.len() - p,
    {
        let ghost pre = stack@.push(Status::ToBeExecuted(id));
        let ghost jx = j0 + cyc@.len();
        match stack[p] {
            Status::WaitForExit(x) => {
                proof {
                    assert(stack@[p as int] == pre[p as int]);
                    assert(is_wfe(pre[p as int]));
                    assert(t0.valid_id(x));
                    assert(prog_at(pn, pe, x) == Some(p));
                    assert(chain.contains(x));
                    let jw = choose|j: int| 0 <= j < chain.len() && chain[j] == x;
                    assert(jw == jx) by {
                        if jw < j0 {
                            assert(idx_of(prog_at(pn, pe, chain[jw])) < idx_of(
                                prog_at(pn, pe, chain[j0]),
                            ));
                        } else if jw < jx {
                            assert(idx_of(prog_at(pn, pe, chain[jw])) < p);
                        } else if jw > jx {
                            assert(jx < chain.len());
                            assert(idx_of(prog_at(pn, pe, chain[jx])) >= p);
                            assert(idx_of(prog_at(pn, pe, chain[jx])) < idx_of(
                                prog_at(pn, pe, chain[jw]),
                            ));
                        }
                    }
                    assert(chain[jx] == x);
                }
                cyc.push(x);
                proof {
                    assert(cyc@ =~= chain.subrange(j0, j0 + cyc@.len()));
                }
            },
            Status::ToBeExecuted(_) => {
                proof {
                    if jx < chain.len() {
                        assert(stack@[p as int] == pre[p as int]);
                        assert(is_tbe(pre[p as int]));
                        assert(idx_of(prog_at(pn, pe, chain[jx])) != p);
                    }
                }
            },
        }
        p += 1;
    }
    proof {
        let jx = j0 + cyc@.len();
        if jx < chain.len() {
            assert(idx_of(prog_at(pn, pe, chain[jx])) < stack@.len());
            assert(false);
        }
        assert(cyc@ =~= chain.subrange(j0, chain.len() as int));
    }
    cyc.push(id);
    proof {
        // the chain closes back on `id`: the deepest in-progress module
        // queued the popped visit of `id`
        assert(t0.is_static_dep(chain[chain.len() - 1], id)) by {
            assert(is_tbe(pre0[pre0.len() - 1]));
            let pl = idx_of(prog_at(pn, pe, chain[chain.len() - 1]));
            assert(pre0[pl] == Status::WaitForExit(chain[chain.len() - 1]));
            assert(pl < pre0.len() - 1);
        }
        lemma_cycle_closes(t0, chain, j0, id, cyc@);
    }
    cyc
}

/// With the traversal finished, every static dependency of an ordered module
/// is ordered, earlier or on a chain back to its importer.
#[verifier::rlimit(100)]
proof fn lemma_final_topo(
    t0: ModuleTable,
    cur: ModuleTable,
    entries: Seq<u32>,
    runtime_id: u32,
    vn: Seq<bool>,
    ve: Seq<bool>,
    pn: Seq<Option<usize>>,
    pe: Seq<Option<usize>>,
    tr: Seq<ModuleId>,
    chain: Seq<ModuleId>,
    sorted: Seq<u32>,
)
    requires
        sort_inv(t0, cur, entries, runtime_id, Seq::empty(), vn, ve, pn, pe, tr, chain, sorted),
    ensures
        topological_up_to_cycles(&cur, &t0, tr),
{
    reveal(sort_inv);
    let stack = Seq::<Status>::empty();
    assert(chain.len() == 0) by {
        if chain.len() > 0 {
            assert(idx_of(prog_at(pn, pe, chain[0])) < stack.len());
        }
    }
    assert forall|m: ModuleId, d: ModuleId|
        tr.contains(m) && #[trigger] t0.is_static_dep(m, d) implies tr.contains(d) && (
    cur.order_of(d) < cur.order_of(m) || has_path(&t0, d, m)) by {
        match m {
            ModuleId::Normal(mi) => {
                let kk = choose|kk: int|
                    0 <= kk < t0.recs_of(mi as int).len() && t0.recs_of(
                        mi as int,
                    )[kk].kind.spec_is_static() && t0.recs_of(mi as int)[kk].resolved_module == d;
                assert(t0.valid_id(t0.recs_of(mi as int)[kk].resolved_module));
            },
            ModuleId::External(_) => {
                assert(false);
            },
        }
        assert(executed_at(vn, ve, d));
        assert(prog_at(pn, pe, d) is None) by {
            if prog_at(pn, pe, d) is Some {
                assert(chain.contains(d));
            }
        }
        assert(cur.ordered(d));
        assert(tr.contains(d));
    }
}

/// When the stack is spent, nothing is in progress: visited means ordered,
/// the roots and all reached dependencies are in the trace, and the runtime
/// module owns order 0.
#[verifier::rlimit(100)]
proof fn lemma_inv_final(
    t0: ModuleTable,
    cur: ModuleTable,
    entries: Seq<u32>,
    runtime_id: u32,
    vn: Seq<bool>,
    ve: Seq<bool>,
    pn: Seq<Option<usize>>,
    pe: Seq<Option<usize>>,
    tr: Seq<ModuleId>,
    chain: Seq<ModuleId>,
    sorted: Seq<u32>,
)
    requires
        sort_inv(t0, cur, entries, runtime_id, Seq::empty(), vn, ve, pn, pe, tr, chain, sorted),
    ensures
        forall|k: int|
            0 <= k < tr.len() ==> t0.valid_id(#[trigger] tr[k]) && cur.order_of(tr[k]) == k,
        forall|id: ModuleId|
            t0.valid_id(id) ==> ((#[trigger] cur.ordered(id)) <==> tr.contains(id)),
        tr.contains(ModuleId::Normal(runtime_id)),
        forall|i: int|
            0 <= i < entries.len() ==> tr.contains(ModuleId::Normal(#[trigger] entries[i])),
        topological_up_to_cycles(&cur, &t0, tr),
        acyclic(&t0) ==> forall|m: ModuleId, d: ModuleId|
            tr.contains(m) && #[trigger] t0.is_static_dep(m, d) ==> cur.order_of(d)
                < cur.order_of(m),
        tr.len() > 0,
        tr[0] == ModuleId::Normal(runtime_id),
        cur.order_of(ModuleId::Normal(runtime_id)) == 0,
        sorted == normals_of(tr),
        sorted.len() > 0,
        sorted[0] == runtime_id,
        cur.same_structure(&t0),
        forall|id: ModuleId|
            t0.valid_id(id) && #[trigger] cur.ordered(id) ==> reachable_from_roots(
                &t0,
                entries,
                runtime_id,
                id,
            ),
{
    lemma_final_book(t0, cur, entries, runtime_id, vn, ve, pn, pe, tr, chain, sorted);
    lemma_normals_first(tr, runtime_id);
    lemma_final_topo(t0, cur, entries, runtime_id, vn, ve, pn, pe, tr, chain, sorted);
    lemma_final_acyclic(t0, cur, tr);
}

/// The bookkeeping facts at the end of the traversal: with the stack spent,
/// visited means ordered, and every root made it into the trace.
#[verifier::rlimit(100)]
proof fn lemma_final_book(
    t0: ModuleTable,
    cur: ModuleTable,
    entries: Seq<u32>,
    runtime_id: u32,
    vn: Seq<bool>,
    ve: Seq<bool>,
    pn: Seq<Option<usize>>,
    pe: Seq<Option<usize>>,
    tr: Seq<ModuleId>,
    chain: Seq<ModuleId>,
    sorted: Seq<u32>,
)
    requires
        sort_inv(t0, cur, entries, runtime_id, Seq::empty(), vn, ve, pn, pe, tr, chain, sorted),
    ensures
        forall|k: int|
            0 <= k < tr.len() ==> t0.valid_id(#[trigger] tr[k]) && cur.order_of(tr[k]) == k,
        forall|id: ModuleId|
            t0.valid_id(id) ==> ((#[trigger] cur.ordered(id)) <==> tr.contains(id)),
        tr.contains(ModuleId::Normal(runtime_id)),
        forall|i: int|
            0 <= i < entries.len() ==> tr.contains(ModuleId::Normal(#[trigger] entries[i])),
        tr.len() > 0,
        tr[0] == ModuleId::Normal(runtime_id),
        cur.order_of(ModuleId::Normal(runtime_id)) == 0,
        sorted == normals_of(tr),
        cur.same_structure(&t0),
        forall|id: ModuleId|
            t0.valid_id(id) && #[trigger] cur.ordered(id) ==> reachable_from_roots(
                &t0,
                entries,
                runtime_id,
                id,
            ),
{
    reveal(sort_inv);
    let stack = Seq::<Status>::empty();
    assert(chain.len() == 0) by {
        if chain.len() > 0 {
            assert(idx_of(prog_at(pn, pe, chain[0])) < stack.len());
        }
    }
    assert forall|id: ModuleId| t0.valid_id(id) && prog_at(pn, pe, id) is Some implies false by {
        assert(chain.contains(id));
    }
    assert forall|id: ModuleId|
        t0.valid_id(id) && #[trigger] cur.ordered(id) implies reachable_from_roots(
        &t0,
        entries,
        runtime_id,
        id,
    ) by {
        assert(executed_at(vn, ve, id));
    }
    assert(executed_at(vn, ve, ModuleId::Normal(runtime_id)));
    assert(tr.contains(ModuleId::Normal(runtime_id)));
    assert(tr.len() > 0);
    assert forall|i: int|
        0 <= i < entries.len() implies tr.contains(
        ModuleId::Normal(#[trigger] entries[i]),
    ) by {
        assert(executed_at(vn, ve, ModuleId::Normal(entries[i])));
        assert(t0.valid_id(ModuleId::Normal(entries[i])));
    }
}


/// First visit of a module: flag it, park its wait-for-exit entry, extend
/// the in-progress chain, and queue its static dependencies.
fn sort_visit(
    table: &ModuleTable,
    stack: &mut Vec<Status>,
    visited_n: &mut Vec<bool>,
    visited_e: &mut Vec<bool>,
    prog_n: &mut Vec<Option<usize>>,
    prog_e: &mut Vec<Option<usize>>,
    id: ModuleId,
    Ghost(t0): Ghost<ModuleTable>,
    Ghost(entries): Ghost<Seq<u32>>,
    Ghost(runtime_id): Ghost<u32>,
    Ghost(tr): Ghost<Seq<ModuleId>>,
    Ghost(chain): Ghost<Seq<ModuleId>>,
    Ghost(sorted): Ghost<Seq<u32>>,
) -> (new_chain: Ghost<Seq<ModuleId>>)
    requires
        sort_inv(
            t0,
            *table,
            entries,
            runtime_id,
            old(stack)@.push(Status::ToBeExecuted(id)),
            old(visited_n)@,
            old(visited_e)@,
            old(prog_n)@,
            old(prog_e)@,
            tr,
            chain,
            sorted,
        ),
        t0.valid_id(id),
        !executed_at(old(visited_n)@, old(visited_e)@, id),
    ensures
        sort_inv(
            t0,
            *table,
            entries,
            runtime_id,
            final(stack)@,
            final(visited_n)@,
            final(visited_e)@,
            final(prog_n)@,
            final(prog_e)@,
            tr,
            new_chain@,
            sorted,
        ),
        new_chain@ == chain.push(id),
        sort_measure(t0, final(stack)@, final(visited_n)@, final(visited_e)@) < sort_measure(
            t0,
            old(stack)@.push(Status::ToBeExecuted(id)),
            old(visited_n)@,
            old(visited_e)@,
        ),
{
    proof {
        lemma_inv_facts(
            t0,
            *table,
            entries,
            runtime_id,
            old(stack)@.push(Status::ToBeExecuted(id)),
            old(visited_n)@,
            old(visited_e)@,
            old(prog_n)@,
            old(prog_e)@,
            tr,
            chain,
            sorted,
        );
    }
    let ghost s0 = stack@;
    let ghost pre_vn = visited_n@;
    let ghost pre_ve = visited_e@;
    let ghost pre_pn = prog_n@;
    let ghost pre_pe = prog_e@;
    match id {
        ModuleId::Normal(i) => {
            visited_n[i as usize] = true;
        },
        ModuleId::External(i) => {
            visited_e[i as usize] = true;
        },
    }
    stack.push(Status::WaitForExit(id));
    let widx = stack.len() - 1;
    match id {
        ModuleId::Normal(i) => {
            prog_n[i as usize] = Some(widx);
        },
        ModuleId::External(i) => {
            prog_e[i as usize] = Some(widx);
        },
    }
    match id {
        ModuleId::Normal(mi) => {
            proof {
                assert(t0.recs_of(mi as int) == table.recs_of(mi as int));
            }
            push_static_deps(stack, &table.normal_modules[mi as usize]);
        },
        ModuleId::External(_) => {},
    }
    proof {
        lemma_sort_visit_inv(
            t0,
            *table,
            entries,
            runtime_id,
            s0,
            pre_vn,
            pre_ve,
            pre_pn,
            pre_pe,
            tr,
            chain,
            sorted,
            id,
        );
        assert(visited_n@ =~= visit_vn(pre_vn, id));
        assert(visited_e@ =~= visit_ve(pre_ve, id));
        assert(prog_n@ =~= visit_pn(pre_pn, id, s0.len() as usize));
        assert(prog_e@ =~= visit_pe(pre_pe, id, s0.len() as usize));
        assert(stack@ =~= visit_stack(t0, s0, id));
    }
    Ghost(chain.push(id))
}

/// Exit of the deepest in-progress module: assign it the next execution
/// order, record it in the normal-module order, and shorten the chain.
fn sort_exit(
    table: &mut ModuleTable,
    prog_n: &mut Vec<Option<usize>>,
    prog_e: &mut Vec<Option<usize>>,
    sorted: &mut Vec<u32>,
    next_exec_order: u32,
    id: ModuleId,
    Ghost(t0): Ghost<ModuleTable>,
    Ghost(entries): Ghost<Seq<u32>>,
    Ghost(runtime_id): Ghost<u32>,
    Ghost(s0): Ghost<Seq<Status>>,
    Ghost(vn): Ghost<Seq<bool>>,
    Ghost(ve): Ghost<Seq<bool>>,
    Ghost(tr): Ghost<Seq<ModuleId>>,
    Ghost(chain): Ghost<Seq<ModuleId>>,
) -> (new_trace: (Ghost<Seq<ModuleId>>, Ghost<Seq<ModuleId>>))
    requires
        sort_inv(
            t0,
            *old(table),
            entries,
            runtime_id,
            s0.push(Status::WaitForExit(id)),
            vn,
            ve,
            old(prog_n)@,
            old(prog_e)@,
            tr,
            chain,
            old(sorted)@,
        ),
        t0.valid_id(id),
        s0.len() < usize::MAX,
        next_exec_order as int == tr.len(),
    ensures
        sort_inv(
            t0,
            *final(table),
            entries,
            runtime_id,
            s0,
            vn,
            ve,
            final(prog_n)@,
            final(prog_e)@,
            new_trace.0@,
            new_trace.1@,
            final(sorted)@,
        ),
        new_trace.0@ == tr.push(id),
        new_trace.1@ == chain.drop_last(),
{
    proof {
        lemma_inv_facts(
            t0,
            *old(table),
            entries,
            runtime_id,
            s0.push(Status::WaitForExit(id)),
            vn,
            ve,
            old(prog_n)@,
            old(prog_e)@,
            tr,
            chain,
            old(sorted)@,
        );
    }
    let ghost pre_table = *table;
    let ghost pre_pn = prog_n@;
    let ghost pre_pe = prog_e@;
    let ghost pre_sorted = sorted@;
    match id {
        ModuleId::Normal(i) => {
            table.normal_modules[i as usize].exec_order = next_exec_order;
            sorted.push(i);
        },
        ModuleId::External(i) => {
            table.external_modules[i as usize].exec_order = next_exec_order;
        },
    }
    match id {
        ModuleId::Normal(i) => {
            prog_n[i as usize] = None;
        },
        ModuleId::External(i) => {
            prog_e[i as usize] = None;
        },
    }
    proof {
        assert(table.same_structure(&pre_table));
        assert(table.order_of(id) == next_exec_order);
        assert forall|x: ModuleId| t0.valid_id(x) && x != id implies table.order_of(x)
            == pre_table.order_of(x) by {}
        lemma_sort_exit_inv(
            t0,
            pre_table,
            *table,
            entries,
            runtime_id,
            s0,
            vn,
            ve,
            pre_pn,
            pre_pe,
            tr,
            chain,
            pre_sorted,
            id,
        );
        assert(prog_n@ =~= exit_pn(pre_pn, id));
        assert(prog_e@ =~= exit_pe(pre_pe, id));
        assert(sorted@ =~= exit_sorted(pre_sorted, id));
    }
    (Ghost(tr.push(id)), Ghost(chain.drop_last()))
}

impl LinkStage {
    /// Assigns every module reached from the runtime module and the entry
    /// modules a unique execution order, dense from 0, by an explicit-stack
    /// depth-first traversal; fills `sorted_modules` with the normal modules
    /// in that order; and appends one warning per distinct circular-
    /// dependency chain discovered. Cycles are reported, never fatal. The
    /// runtime module is visited first — and, having no static dependencies,
    /// it always runs first.
    #[verifier::rlimit(100)]
    pub fn sort_modules(&mut self)
        requires
            old(self).wf_input(),
        ensures
            final(self).module_table.same_structure(&old(self).module_table),
            final(self).entries == old(self).entries,
            final(self).runtime_id == old(self).runtime_id,
            // orders are the trace positions: unique and dense from 0
            forall|k: int|
                0 <= k < final(self).order_trace@.len() ==> old(self).module_table.valid_id(
                    #[trigger] final(self).order_trace@[k],
                ) && final(self).module_table.order_of(final(self).order_trace@[k]) == k,
            forall|id: ModuleId|
                old(self).module_table.valid_id(id) ==> ((#[trigger] final(self).module_table.ordered(id)) <==> final(self).order_trace@.contains(id)),
            // the runtime module, the entries, and every static dependency
            // of an ordered module are ordered
            final(self).order_trace@.contains(ModuleId::Normal(old(self).runtime_id)),
            forall|i: int|
                0 <= i < old(self).entries@.len() ==> final(self).order_trace@.contains(
                    ModuleId::Normal(#[trigger] old(self).entries@[i]),
                ),
            topological_up_to_cycles(
                &final(self).module_table,
                &old(self).module_table,
                final(self).order_trace@,
            ),
            // a graph without cycles is ordered topologically
            acyclic(&old(self).module_table) ==> forall|m: ModuleId, d: ModuleId|
                final(self).order_trace@.contains(m) && #[trigger] old(self).module_table.is_static_dep(m, d) ==> final(self).module_table.order_of(d)
                    < final(self).module_table.order_of(m),
            // only modules reachable from the runtime module or an entry are
            // ordered: an unreachable module keeps its unset order and stays
            // out of the sorted output
            forall|id: ModuleId|
                old(self).module_table.valid_id(id) && #[trigger] final(self).module_table.ordered(id) ==> reachable_from_roots(
                    &old(self).module_table,
                    old(self).entries@,
                    old(self).runtime_id,
                    id,
                ),
            // the runtime module always gets order 0 and leads the output
            final(self).order_trace@.len() > 0,
            final(self).order_trace@[0] == ModuleId::Normal(old(self).runtime_id),
            final(self).module_table.order_of(ModuleId::Normal(old(self).runtime_id)) == 0,
            final(self).sorted_modules@ == normals_of(final(self).order_trace@),
            final(self).sorted_modules@.len() > 0,
            final(self).sorted_modules@[0] == old(self).runtime_id,
            // warnings are appended: one per distinct circular chain
            // discovered, each naming a genuine cycle of the input graph
            final(self).warnings@.len() >= old(self).warnings@.len(),
            forall|i: int|
                0 <= i < old(self).warnings@.len() ==> final(self).warnings@[i] == old(self).warnings@[i],
            final(self).cycle_trace@.len() == final(self).warnings@.len() - old(self).warnings@.len(),
            forall|c: int|
                0 <= c < final(self).cycle_trace@.len() ==> is_cycle(
                    &old(self).module_table,
                    #[trigger] final(self).cycle_trace@[c],
                ),
            forall|a: int, b: int|
                0 <= a < b < final(self).cycle_trace@.len() ==> distinct_module_sets(
                    #[trigger] final(self).cycle_trace@[a],
                    #[trigger] final(self).cycle_trace@[b],
                ),
            forall|w: int|
                old(self).warnings@.len() <= w < final(self).warnings@.len() ==> ((
                #[trigger] final(self).warnings@[w]) matches BuildWarning::CircularDependency {
                    paths,
                } && paths@ == normal_paths(
                    &final(self).module_table,
                    final(self).cycle_trace@[w - old(self).warnings@.len()],
                )),
    {
        let ghost t0 = old(self).module_table;
        let n_norm = self.module_table.normal_modules.len();
        let n_ext = self.module_table.external_modules.len();

        // seed the stack: entries in reverse declaration order, the runtime
        // module on top, so it is visited first
        let mut stack: Vec<Status> = Vec::new();
        let n_entries = self.entries.len();
        let mut k = n_entries;
        while k > 0
            invariant
                k <= n_entries,
                n_entries == self.entries@.len(),
                stack@.len() == n_entries - k,
                forall|i: int|
                    0 <= i < stack@.len() ==> stack@[i] == Status::ToBeExecuted(
                        ModuleId::Normal(self.entries@[n_entries - 1 - i]),
                    ),
            decreases k,
        {
            k -= 1;
            let e = self.entries[k];
            stack.push(Status::ToBeExecuted(ModuleId::Normal(e)));
        }
        stack.push(Status::ToBeExecuted(ModuleId::Normal(self.runtime_id)));
        proof {
            assert(stack@ =~= init_stack(self.entries@, self.runtime_id));
        }

        let mut visited_n = make_flags(n_norm);
        let mut visited_e = make_flags(n_ext);
        let mut prog_n = make_marks(n_norm);
        let mut prog_e = make_marks(n_ext);
        let mut sorted: Vec<u32> = Vec::new();
        let mut next_exec_order: u32 = 0;
        let mut cycles: Vec<Vec<ModuleId>> = Vec::new();
        let ghost mut tr: Seq<ModuleId> = Seq::empty();
        let ghost mut chain: Seq<ModuleId> = Seq::empty();
        proof {
            lemma_inv_init(
                t0,
                self.entries@,
                self.runtime_id,
                visited_n@,
                visited_e@,
                prog_n@,
                prog_e@,
            );
        }

        while stack.len() > 0
            invariant
                sort_inv(
                    t0,
                    self.module_table,
                    self.entries@,
                    self.runtime_id,
                    stack@,
                    visited_n@,
                    visited_e@,
                    prog_n@,
                    prog_e@,
                    tr,
                    chain,
                    sorted@,
                ),
                t0 == old(self).module_table,
                self.entries == old(self).entries,
                self.runtime_id == old(self).runtime_id,
                self.warnings == old(self).warnings,
                next_exec_order as int == tr.len(),
                forall|c: int| 0 <= c < cycles@.len() ==> is_cycle(&t0, #[trigger] cycles@[c]@),
                forall|a: int, b: int|
                    0 <= a < b < cycles@.len() ==> distinct_module_sets(
                        (#[trigger] cycles@[a])@,
                        (#[trigger] cycles@[b])@,
                    ),
            decreases sort_measure(t0, stack@, visited_n@, visited_e@),
        {
            proof {
                lemma_inv_facts(
                    t0,
                    self.module_table,
                    self.entries@,
                    self.runtime_id,
                    stack@,
                    visited_n@,
                    visited_e@,
                    prog_n@,
                    prog_e@,
                    tr,
                    chain,
                    sorted@,
                );
            }
            let ghost pre_stack = stack@;
            let status = stack.pop().unwrap();
            proof {
                assert(pre_stack =~= stack@.push(status));
                assert(t0.valid_id(status_id(status))) by {
                    assert(status_id(pre_stack[pre_stack.len() - 1]) == status_id(status));
                }
            }
            match status {
                Status::ToBeExecuted(id) => {
                    let already = match id {
                        ModuleId::Normal(i) => visited_n[i as usize],
                        ModuleId::External(i) => visited_e[i as usize],
                    };
                    if already {
                        let prog_idx = match id {
                            ModuleId::Normal(i) => prog_n[i as usize],
                            ModuleId::External(i) => prog_e[i as usize],
                        };
                        if let Some(start) = prog_idx {
                            // the module is still on the way in: the chain
                            // from its recorded position closes a cycle
                            let cyc = collect_cycle(
                                &stack,
                                id,
                                start,
                                Ghost(t0),
                                Ghost(self.module_table),
                                Ghost(self.entries@),
                                Ghost(self.runtime_id),
                                Ghost(visited_n@),
                                Ghost(visited_e@),
                                Ghost(prog_n@),
                                Ghost(prog_e@),
                                Ghost(tr),
                                Ghost(chain),
                                Ghost(sorted@),
                            );
                            // keep each distinct chain once, as a set of
                            // modules
                            let mut dup = false;
                            let mut ci: usize = 0;
                            while ci < cycles.len()
                                invariant
                                    ci <= cycles@.len(),
                                    forall|c: int|
                                        0 <= c < cycles@.len() ==> is_cycle(
                                            &t0,
                                            #[trigger] cycles@[c]@,
                                        ),
                                    forall|a: int, b: int|
                                        0 <= a < b < cycles@.len() ==> distinct_module_sets(
                                            (#[trigger] cycles@[a])@,
                                            (#[trigger] cycles@[b])@,
                                        ),
                                    is_cycle(&t0, cyc@),
                                    !dup ==> forall|c: int|
                                        0 <= c < ci ==> distinct_module_sets(
                                            (#[trigger] cycles@[c])@,
                                            cyc@,
                                        ),
                                decreases cycles@.len() - ci,
                            {
                                if same_module_set(&cycles[ci], &cyc) {
                                    dup = true;
                                }
                                ci += 1;
                            }
                            if !dup {
                                cycles.push(cyc);
                            }
                        }
                        proof {
                            lemma_sort_pop_executed(
                                t0,
                                self.module_table,
                                self.entries@,
                                self.runtime_id,
                                stack@,
                                visited_n@,
                                visited_e@,
                                prog_n@,
                                prog_e@,
                                tr,
                                chain,
                                sorted@,
                                id,
                            );
                            lemma_inv_facts(
                                t0,
                                self.module_table,
                                self.entries@,
                                self.runtime_id,
                                stack@,
                                visited_n@,
                                visited_e@,
                                prog_n@,
                                prog_e@,
                                tr,
                                chain,
                                sorted@,
                            );
                        }
                    } else {
                        let Ghost(new_chain) = sort_visit(
                            &self.module_table,
                            &mut stack,
                            &mut visited_n,
                            &mut visited_e,
                            &mut prog_n,
                            &mut prog_e,
                            id,
                            Ghost(t0),
                            Ghost(self.entries@),
                            Ghost(self.runtime_id),
                            Ghost(tr),
                            Ghost(chain),
                            Ghost(sorted@),
                        );
                        proof {
                            chain = new_chain;
                            lemma_inv_facts(
                                t0,
                                self.module_table,
                                self.entries@,
                                self.runtime_id,
                                stack@,
                                visited_n@,
                                visited_e@,
                                prog_n@,
                                prog_e@,
                                tr,
                                chain,
                                sorted@,
                            );
                        }
                    }
                },
                Status::WaitForExit(id) => {
                    let traces = sort_exit(
                        &mut self.module_table,
                        &mut prog_n,
                        &mut prog_e,
                        &mut sorted,
                        next_exec_order,
                        id,
                        Ghost(t0),
                        Ghost(self.entries@),
                        Ghost(self.runtime_id),
                        Ghost(stack@),
                        Ghost(visited_n@),
                        Ghost(visited_e@),
                        Ghost(tr),
                        Ghost(chain),
                    );
                    proof {
                        tr = traces.0@;
                        chain = traces.1@;
                        lemma_inv_facts(
                            t0,
                            self.module_table,
                            self.entries@,
                            self.runtime_id,
                            stack@,
                            visited_n@,
                            visited_e@,
                            prog_n@,
                            prog_e@,
                            tr,
                            chain,
                            sorted@,
                        );
                    }
                    next_exec_order += 1;
                },
            }
        }

        proof {
            assert(stack@ =~= Seq::<Status>::empty());
            lemma_inv_final(
                t0,
                self.module_table,
                self.entries@,
                self.runtime_id,
                visited_n@,
                visited_e@,
                prog_n@,
                prog_e@,
                tr,
                chain,
                sorted@,
            );
        }
        let ghost pre_warn_table = self.module_table;
        let ghost pre_warn_sorted = sorted@;

        // report each distinct circular chain as one warning
        let mut wi: usize = 0;
        while wi < cycles.len()
            invariant
                wi <= cycles@.len(),
                forall|c: int| 0 <= c < cycles@.len() ==> is_cycle(&t0, #[trigger] cycles@[c]@),
                self.module_table == pre_warn_table,
                pre_warn_table.same_structure(&t0),
                self.entries == old(self).entries,
                self.runtime_id == old(self).runtime_id,
                self.warnings@.len() == old(self).warnings@.len() + wi,
                forall|i: int|
                    0 <= i < old(self).warnings@.len() ==> self.warnings@[i] == old(self).warnings@[i],
                forall|w: int|
                    old(self).warnings@.len() <= w < self.warnings@.len() ==> ((
                    #[trigger] self.warnings@[w]) matches BuildWarning::CircularDependency {
                        paths,
                    } && paths@ == normal_paths(
                        &self.module_table,
                        cycles@[w - old(self).warnings@.len()]@,
                    )),
            decreases cycles@.len() - wi,
        {
            let cyc = &cycles[wi];
            let mut paths: Vec<String> = Vec::new();
            let mut q: usize = 0;
            proof {
                assert forall|j: int|
                    0 <= j < cyc@.len() implies match #[trigger] cyc@[j] {
                    ModuleId::Normal(i) => (i as int) < self.module_table.normal_modules@.len(),
                    ModuleId::External(_) => true,
                } by {
                    assert(self.module_table.normal_modules@.len()
                        == t0.normal_modules@.len());
                    if j < cyc@.len() - 1 {
                        assert(t0.is_static_dep(cyc@[j], cyc@[j + 1]));
                    } else {
                        assert(cyc@[j] == cyc@[0]);
                        assert(cyc@.len() >= 2);
                        assert(t0.is_static_dep(cyc@[0], cyc@[1]));
                    }
                }
            }
            while q < cyc.len()
                invariant
                    q <= cyc@.len(),
                    paths@ == normal_paths(&self.module_table, cyc@.take(q as int)),
                    self.module_table == pre_warn_table,
                    forall|j: int|
                        0 <= j < cyc@.len() ==> match #[trigger] cyc@[j] {
                            ModuleId::Normal(i) => (i as int)
                                < self.module_table.normal_modules@.len(),
                            ModuleId::External(_) => true,
                        },
                decreases cyc@.len() - q,
            {
                match cyc[q] {
                    ModuleId::Normal(i) => {
                        let rid = self.module_table.normal_modules[i as usize].resource_id.clone();
                        paths.push(rid);
                    },
                    ModuleId::External(_) => {},
                }
                proof {
                    assert(cyc@.take(q as int + 1).drop_last() =~= cyc@.take(q as int));
                    assert(cyc@.take(q as int + 1).last() == cyc@[q as int]);
                }
                q += 1;
            }
            proof {
                assert(cyc@.take(cyc@.len() as int) =~= cyc@);
            }
            self.warnings.push(BuildWarning::CircularDependency { paths });
            wi += 1;
        }

        self.sorted_modules = sorted;
        self.order_trace = Ghost(tr);
        self.cycle_trace = Ghost(Seq::new(cycles@.len(), |i: int| cycles@[i]@));
    }
}

} // verus!
