//! Resolved dependency graphs and the three-way comparison that aligns them
//! by package name and reports version drift.
use vstd::prelude::*;
use vstd::string::*;

verus! {

/// One resolved package: its name, its exact version, and the indices of the
/// packages it depends on, in the order the resolver listed them.
#[derive(Debug)]
pub struct PackageNode {
    pub name: String,
    pub version: String,
    pub deps: Vec<usize>,
}

/// A resolved dependency graph. Nodes are identified by their index.
#[derive(Debug)]
pub struct ResolvedGraph {
    pub nodes: Vec<PackageNode>,
}

impl ResolvedGraph {
    pub open spec fn len(&self) -> int {
        self.nodes@.len() as int
    }

    pub open spec fn name(&self, i: int) -> Seq<char> {
        self.nodes@[i].name@
    }

    pub open spec fn version(&self, i: int) -> Seq<char> {
        self.nodes@[i].version@
    }

    pub open spec fn deps(&self, i: int) -> Seq<usize> {
        self.nodes@[i].deps@
    }

    /// Every edge points at a node of the graph.
    pub open spec fn wf(&self) -> bool {
        forall|i: int, k: int|
            0 <= i < self.len() && 0 <= k < self.deps(i).len() ==> (#[trigger] self.deps(i)[k])
                < self.len()
    }

    /// The first direct dependency of `pkg`, at position `k` or later, whose
    /// name is `name`.
    pub open spec fn dep_named_from(&self, pkg: int, name: Seq<char>, k: int) -> Option<usize>
        decreases self.deps(pkg).len() - k,
    {
        if k < 0 || k >= self.deps(pkg).len() {
            None
        } else if self.name(self.deps(pkg)[k] as int) == name {
            Some(self.deps(pkg)[k])
        } else {
            self.dep_named_from(pkg, name, k + 1)
        }
    }

    /// The first direct dependency of `pkg` whose name is `name`.
    pub open spec fn dep_named(&self, pkg: int, name: Seq<char>) -> Option<usize> {
        self.dep_named_from(pkg, name, 0)
    }

    /// Tells whether every edge points at a node of the graph.
    pub fn is_well_formed(&self) -> (r: bool)
        ensures
            r == self.wf(),
    {
        let n = self.nodes.len();
        let mut i: usize = 0;
        while i < n
            invariant
                n == self.len(),
                i <= n,
                forall|a: int, k: int|
                    0 <= a < i && 0 <= k < self.deps(a).len() ==> (#[trigger] self.deps(a)[k])
                        < self.len(),
            decreases n - i,
        {
            let deps = &self.nodes[i].deps;
            let mut k: usize = 0;
            while k < deps.len()
                invariant
                    n == self.len(),
                    i < n,
                    deps@ == self.deps(i as int),
                    k <= deps@.len(),
                    forall|a: int, k2: int|
                        0 <= a < i && 0 <= k2 < self.deps(a).len() ==> (#[trigger] self.deps(a)[k2])
                            < self.len(),
                    forall|k2: int| 0 <= k2 < k ==> (#[trigger] self.deps(i as int)[k2]) < self.len(),
                decreases deps@.len() - k,
            {
                if deps[k] >= n {
                    return false;
                }
                k = k + 1;
            }
            i = i + 1;
        }
        true
    }
}

proof fn lemma_dep_named_from(g: &ResolvedGraph, pkg: int, name: Seq<char>, k: int)
    requires
        0 <= k <= g.deps(pkg).len(),
    ensures
        match g.dep_named_from(pkg, name, k) {
            None => forall|k2: int|
                k <= k2 < g.deps(pkg).len() ==> g.name(#[trigger] g.deps(pkg)[k2] as int) != name,
            Some(d) => exists|k2: int|
                k <= k2 < g.deps(pkg).len() && g.deps(pkg)[k2] == d && g.name(d as int) == name
                    && forall|k3: int|
                    k <= k3 < k2 ==> g.name(#[trigger] g.deps(pkg)[k3] as int) != name,
        },
    decreases g.deps(pkg).len() - k,
{
    if k < g.deps(pkg).len() {
        lemma_dep_named_from(g, pkg, name, k + 1);
        if g.name(g.deps(pkg)[k] as int) != name {
            match g.dep_named_from(pkg, name, k + 1) {
                None => {},
                Some(d) => {
                    let k2 = choose|k2: int|
                        k + 1 <= k2 < g.deps(pkg).len() && g.deps(pkg)[k2] == d && g.name(d as int)
                            == name && forall|k3: int|
                            k + 1 <= k3 < k2 ==> g.name(#[trigger] g.deps(pkg)[k3] as int) != name;
                    assert(k <= k2 < g.deps(pkg).len() && g.deps(pkg)[k2] == d && g.name(d as int)
                        == name && forall|k3: int|
                        k <= k3 < k2 ==> g.name(#[trigger] g.deps(pkg)[k3] as int) != name);
                },
            }
        }
    }
}

/// The dependency of `pkg` that an edge of the same name aligns with: the
/// first direct dependency of `pkg` in `g` named `name`, or `None` when `pkg`
/// has no such edge.
pub fn find_dep_by_name(name: &String, pkg: usize, g: &ResolvedGraph) -> (r: Option<usize>)
    requires
        g.wf(),
        pkg < g.len(),
    ensures
        r == g.dep_named(pkg as int, name@),
        match r {
            None => forall|k: int|
                0 <= k < g.deps(pkg as int).len() ==> g.name(#[trigger] g.deps(pkg as int)[k] as int)
                    != name@,
            Some(d) => d < g.len() && g.name(d as int) == name@ && exists|k: int|
                0 <= k < g.deps(pkg as int).len() && g.deps(pkg as int)[k] == d && forall|k3: int|
                    0 <= k3 < k ==> g.name(#[trigger] g.deps(pkg as int)[k3] as int) != name@,
        },
{
    proof {
        lemma_dep_named_from(g, pkg as int, name@, 0);
    }
    let deps = &g.nodes[pkg].deps;
    let mut k: usize = 0;
    while k < deps.len()
        invariant
            g.wf(),
            pkg < g.len(),
            deps@ == g.deps(pkg as int),
            k <= deps@.len(),
            g.dep_named(pkg as int, name@) == g.dep_named_from(pkg as int, name@, k as int),
            forall|k3: int|
                0 <= k3 < k ==> g.name(#[trigger] g.deps(pkg as int)[k3] as int) != name@,
        decreases deps@.len() - k,
    {
        let d = deps[k];
        if g.nodes[d].name == *name {
            assert(g.deps(pkg as int)[k as int] == d);
            return Some(d);
        }
        k = k + 1;
    }
    None
}

/// A package whose version differs, or which disappears, under at least one
/// of the two looser resolutions. `None` in a branch means the package is
/// absent there; `Some(v)` gives the version resolved there.
#[derive(Debug, PartialEq, Eq)]
pub struct DriftRecord {
    pub name: String,
    pub current: String,
    pub compat: Option<String>,
    pub latest: Option<String>,
}

pub struct DriftView {
    pub name: Seq<char>,
    pub current: Seq<char>,
    pub compat: Option<Seq<char>>,
    pub latest: Option<Seq<char>>,
}

pub open spec fn opt_view(v: Option<String>) -> Option<Seq<char>> {
    match v {
        Some(s) => Some(s@),
        None => None,
    }
}

impl View for DriftRecord {
    type V = DriftView;

    open spec fn view(&self) -> DriftView {
        DriftView {
            name: self.name@,
            current: self.current@,
            compat: opt_view(self.compat),
            latest: opt_view(self.latest),
        }
    }
}

pub open spec fn views(s: Seq<DriftRecord>) -> Seq<DriftView> {
    s.map_values(|r: DriftRecord| r@)
}

/// A branch drifts when the package is absent there or resolved to another
/// version than the current one.
pub open spec fn branch_drifts(v: Option<Seq<char>>, current: Seq<char>) -> bool {
    match v {
        None => true,
        Some(x) => x != current,
    }
}

impl DriftView {
    pub open spec fn drifts(self) -> bool {
        branch_drifts(self.compat, self.current) || branch_drifts(self.latest, self.current)
    }
}

pub open spec fn version_in(g: &ResolvedGraph, i: Option<usize>) -> Option<Seq<char>> {
    match i {
        Some(j) => Some(g.version(j as int)),
        None => None,
    }
}

/// The record of current node `c`, aligned with `p` in the compatible graph and
/// `l` in the latest graph.
pub open spec fn record_of(
    curr: &ResolvedGraph,
    compat: &ResolvedGraph,
    latest: &ResolvedGraph,
    c: usize,
    p: Option<usize>,
    l: Option<usize>,
) -> DriftView {
    DriftView {
        name: curr.name(c as int),
        current: curr.version(c as int),
        compat: version_in(compat, p),
        latest: version_in(latest, l),
    }
}

/// Where the edge of `g` from `i` to a package named `name` leads.
pub open spec fn aligned(g: &ResolvedGraph, i: Option<usize>, name: Seq<char>) -> Option<usize> {
    match i {
        Some(j) => g.dep_named(j as int, name),
        None => None,
    }
}

/// The report for the subtree of current node `c`, in pre-order, reached along
/// `path`. A node already on the path is not entered again, so a cycle in the
/// current graph ends the walk instead of repeating it.
pub open spec fn drift_report(
    curr: &ResolvedGraph,
    compat: &ResolvedGraph,
    latest: &ResolvedGraph,
    c: usize,
    p: Option<usize>,
    l: Option<usize>,
    path: Seq<usize>,
) -> Seq<DriftView>
    decreases curr.len() - path.len(), 0int,
{
    if path.len() >= curr.len() || path.contains(c) {
        Seq::empty()
    } else {
        let rec = record_of(curr, compat, latest, c, p, l);
        let here = if rec.drifts() {
            seq![rec]
        } else {
            Seq::empty()
        };
        here + drift_report_deps(curr, compat, latest, c, p, l, path.push(c), 0)
    }
}

/// The reports of the direct dependencies of `c` from position `k` on, each
/// aligned by name in the two other graphs.
pub open spec fn drift_report_deps(
    curr: &ResolvedGraph,
    compat: &ResolvedGraph,
    latest: &ResolvedGraph,
    c: usize,
    p: Option<usize>,
    l: Option<usize>,
    path: Seq<usize>,
    k: int,
) -> Seq<DriftView>
    decreases curr.len() - path.len(), curr.deps(c as int).len() - k + 1,
{
    if k < 0 || k >= curr.deps(c as int).len() || path.len() > curr.len() {
        Seq::empty()
    } else {
        let d = curr.deps(c as int)[k];
        let name = curr.name(d as int);
        drift_report(curr, compat, latest, d, aligned(compat, p, name), aligned(latest, l, name), path)
            + drift_report_deps(curr, compat, latest, c, p, l, path, k + 1)
    }
}

pub open spec fn in_graph(g: &ResolvedGraph, i: Option<usize>) -> bool {
    match i {
        Some(j) => j < g.len(),
        None => true,
    }
}

fn on_path(path: &Vec<usize>, c: usize) -> (r: bool)
    ensures
        r == path@.contains(c),
{
    let mut i: usize = 0;
    while i < path.len()
        invariant
            i <= path@.len(),
            forall|j: int| 0 <= j < i ==> path@[j] != c,
        decreases path@.len() - i,
    {
        if path[i] == c {
            return true;
        }
        i = i + 1;
    }
    false
}

fn version_at(g: &ResolvedGraph, i: Option<usize>) -> (r: Option<String>)
    requires
        in_graph(g, i),
    ensures
        opt_view(r) == version_in(g, i),
{
    match i {
        Some(j) => Some(g.nodes[j].version.clone()),
        None => None,
    }
}

fn shows_drift(v: &Option<String>, current: &String) -> (r: bool)
    ensures
        r == branch_drifts(opt_view(*v), current@),
{
    match v {
        Some(x) => !(*x == *current),
        None => true,
    }
}

fn align(g: &ResolvedGraph, i: Option<usize>, name: &String) -> (r: Option<usize>)
    requires
        g.wf(),
        in_graph(g, i),
    ensures
        r == aligned(g, i, name@),
        in_graph(g, r),
{
    match i {
        Some(j) => find_dep_by_name(name, j, g),
        None => None,
    }
}

/// Appends to `out` the report for the subtree of current node `c`, reached
/// along `path`; `path` is the same afterwards.
fn compare_versions_recursive(
    curr: &ResolvedGraph,
    c: usize,
    compat: &ResolvedGraph,
    p: Option<usize>,
    latest: &ResolvedGraph,
    l: Option<usize>,
    path: &mut Vec<usize>,
    out: &mut Vec<DriftRecord>,
)
    requires
        curr.wf(),
        compat.wf(),
        latest.wf(),
        c < curr.len(),
        in_graph(compat, p),
        in_graph(latest, l),
    ensures
        final(path)@ == old(path)@,
        views(final(out)@) == views(old(out)@) + drift_report(
            curr,
            compat,
            latest,
            c,
            p,
            l,
            old(path)@,
        ),
    decreases curr.len() - path@.len(),
{
    if path.len() >= curr.nodes.len() || on_path(path, c) {
        assert(views(out@) =~= views(out@) + Seq::<DriftView>::empty());
        return;
    }
    let ghost path0 = path@;
    let ghost out0 = out@;
    let rec = DriftRecord {
        name: curr.nodes[c].name.clone(),
        current: curr.nodes[c].version.clone(),
        compat: version_at(compat, p),
        latest: version_at(latest, l),
    };
    assert(rec@ == record_of(curr, compat, latest, c, p, l));
    if shows_drift(&rec.compat, &rec.current) || shows_drift(&rec.latest, &rec.current) {
        out.push(rec);
        assert(views(out@) =~= views(out0).push(rec@));
    }
    let ghost out1 = out@;
    path.push(c);
    let deps = &curr.nodes[c].deps;
    let mut k: usize = 0;
    while k < deps.len()
        invariant
            curr.wf(),
            compat.wf(),
            latest.wf(),
            c < curr.len(),
            in_graph(compat, p),
            in_graph(latest, l),
            deps@ == curr.deps(c as int),
            k <= deps@.len(),
            path@ == path0.push(c),
            old(path)@ == path0,
            path0.len() < curr.len(),
            views(out@) + drift_report_deps(curr, compat, latest, c, p, l, path@, k as int)
                == views(out1) + drift_report_deps(curr, compat, latest, c, p, l, path@, 0),
        decreases deps@.len() - k,
    {
        let d = deps[k];
        let name = &curr.nodes[d].name;
        let np = align(compat, p, name);
        let nl = align(latest, l, name);
        let ghost before = out@;
        compare_versions_recursive(curr, d, compat, np, latest, nl, path, out);
        proof {
            let rest = drift_report_deps(curr, compat, latest, c, p, l, path@, k + 1);
            let sub = drift_report(curr, compat, latest, d, np, nl, path@);
            assert(drift_report_deps(curr, compat, latest, c, p, l, path@, k as int) == sub + rest);
            assert(views(before) + (sub + rest) =~= (views(before) + sub) + rest);
        }
        k = k + 1;
    }
    path.pop();
    proof {
        assert(drift_report_deps(curr, compat, latest, c, p, l, path0.push(c), k as int)
            =~= Seq::<DriftView>::empty());
        assert(views(out@) =~= views(out@) + Seq::<DriftView>::empty());
        assert(path@ =~= path0);
        let rec_s = record_of(curr, compat, latest, c, p, l);
        let here = if rec_s.drifts() {
            seq![rec_s]
        } else {
            Seq::<DriftView>::empty()
        };
        assert(views(out1) =~= views(out0) + here);
    }
}

/// The version-drift report of three resolutions of one workspace, walked in
/// pre-order from the current root. `compat_root` and `latest_root` are the
/// root package in the compatible and the latest resolution, `None` when it is
/// absent there.
pub fn compare_versions(
    curr: &ResolvedGraph,
    curr_root: usize,
    compat: &ResolvedGraph,
    compat_root: Option<usize>,
    latest: &ResolvedGraph,
    latest_root: Option<usize>,
) -> (r: Vec<DriftRecord>)
    requires
        curr.wf(),
        compat.wf(),
        latest.wf(),
        curr_root < curr.len(),
        in_graph(compat, compat_root),
        in_graph(latest, latest_root),
    ensures
        views(r@) == drift_report(
            curr,
            compat,
            latest,
            curr_root,
            compat_root,
            latest_root,
            Seq::empty(),
        ),
{
    let mut out: Vec<DriftRecord> = Vec::new();
    let mut path: Vec<usize> = Vec::new();
    assert(views(out@) =~= Seq::<DriftView>::empty());
    compare_versions_recursive(
        curr,
        curr_root,
        compat,
        compat_root,
        latest,
        latest_root,
        &mut path,
        &mut out,
    );
    assert(path@ =~= Seq::<usize>::empty());
    out
}

/// Under a resolution in which the package of current node `c` has no aligned
/// node (`None`), the report for `c` opens with the record of `c`, which marks
/// that branch as removed instead of comparing versions.
pub proof fn lemma_unaligned_reported_removed(
    curr: &ResolvedGraph,
    compat: &ResolvedGraph,
    latest: &ResolvedGraph,
    c: usize,
    p: Option<usize>,
    l: Option<usize>,
    path: Seq<usize>,
)
    requires
        path.len() < curr.len(),
        !path.contains(c),
        p is None || l is None,
    ensures
        drift_report(curr, compat, latest, c, p, l, path).len() > 0,
        drift_report(curr, compat, latest, c, p, l, path)[0] == record_of(
            curr,
            compat,
            latest,
            c,
            p,
            l,
        ),
        p is None ==> drift_report(curr, compat, latest, c, p, l, path)[0].compat is None,
        l is None ==> drift_report(curr, compat, latest, c, p, l, path)[0].latest is None,
{
}

/// A dependency edge of the current graph whose name no direct dependency of
/// the aligned node `j` carries has no counterpart in `g`: the walk goes on
/// below it with that branch absent.
pub proof fn lemma_missing_edge_unaligned(g: &ResolvedGraph, j: usize, name: Seq<char>)
    requires
        forall|k: int| 0 <= k < g.deps(j as int).len() ==> g.name(#[trigger] g.deps(j as int)[k] as int) != name,
    ensures
        aligned(g, Some(j), name) is None,
{
    lemma_dep_named_from(g, j as int, name, 0);
}

/// A node resolved to the same version in all three resolutions adds no
/// record of its own: its report is that of its dependencies.
pub proof fn lemma_equal_versions_no_record(
    curr: &ResolvedGraph,
    compat: &ResolvedGraph,
    latest: &ResolvedGraph,
    c: usize,
    p: usize,
    l: usize,
    path: Seq<usize>,
)
    requires
        path.len() < curr.len(),
        !path.contains(c),
        compat.version(p as int) == curr.version(c as int),
        latest.version(l as int) == curr.version(c as int),
    ensures
        drift_report(curr, compat, latest, c, Some(p), Some(l), path) == drift_report_deps(
            curr,
            compat,
            latest,
            c,
            Some(p),
            Some(l),
            path.push(c),
            0,
        ),
{
    let deps = drift_report_deps(curr, compat, latest, c, Some(p), Some(l), path.push(c), 0);
    assert(Seq::<DriftView>::empty() + deps =~= deps);
}

/// No two direct dependencies of a node share a name.
pub open spec fn unique_dep_names(g: &ResolvedGraph) -> bool {
    forall|i: int, k1: int, k2: int|
        0 <= i < g.len() && 0 <= k1 < g.deps(i).len() && 0 <= k2 < g.deps(i).len() && k1 != k2
            ==> g.name(#[trigger] g.deps(i)[k1] as int) != g.name(#[trigger] g.deps(i)[k2] as int)
}

proof fn lemma_unique_name_aligns_to_itself(g: &ResolvedGraph, c: usize, k: int)
    requires
        unique_dep_names(g),
        c < g.len(),
        0 <= k < g.deps(c as int).len(),
    ensures
        g.dep_named(c as int, g.name(g.deps(c as int)[k] as int)) == Some(g.deps(c as int)[k]),
{
    let name = g.name(g.deps(c as int)[k] as int);
    lemma_dep_named_from(g, c as int, name, 0);
    match g.dep_named_from(c as int, name, 0) {
        None => {
            assert(g.name(g.deps(c as int)[k] as int) != name);
        },
        Some(d) => {
            let k2 = choose|k2: int|
                0 <= k2 < g.deps(c as int).len() && g.deps(c as int)[k2] == d && g.name(d as int)
                    == name && forall|k3: int|
                    0 <= k3 < k2 ==> g.name(#[trigger] g.deps(c as int)[k3] as int) != name;
            if k2 != k {
                assert(g.name(g.deps(c as int)[k2] as int) != g.name(g.deps(c as int)[k] as int));
            }
        },
    }
}

proof fn lemma_same_resolution_report_empty(g: &ResolvedGraph, c: usize, path: Seq<usize>)
    requires
        g.wf(),
        unique_dep_names(g),
        c < g.len(),
    ensures
        drift_report(g, g, g, c, Some(c), Some(c), path) == Seq::<DriftView>::empty(),
    decreases g.len() - path.len(), 0int,
{
    if !(path.len() >= g.len() || path.contains(c)) {
        lemma_same_resolution_deps_empty(g, c, path.push(c), 0);
        assert(Seq::<DriftView>::empty() + Seq::<DriftView>::empty() =~= Seq::<DriftView>::empty());
    }
}

proof fn lemma_same_resolution_deps_empty(g: &ResolvedGraph, c: usize, path: Seq<usize>, k: int)
    requires
        g.wf(),
        unique_dep_names(g),
        c < g.len(),
    ensures
        drift_report_deps(g, g, g, c, Some(c), Some(c), path, k) == Seq::<DriftView>::empty(),
    decreases g.len() - path.len(), g.deps(c as int).len() - k + 1,
{
    if !(k < 0 || k >= g.deps(c as int).len() || path.len() > g.len()) {
        let d = g.deps(c as int)[k];
        lemma_unique_name_aligns_to_itself(g, c, k);
        lemma_same_resolution_report_empty(g, d, path);
        lemma_same_resolution_deps_empty(g, c, path, k + 1);
        assert(Seq::<DriftView>::empty() + Seq::<DriftView>::empty() =~= Seq::<DriftView>::empty());
    }
}

/// When the compatible and the latest resolution are the current one, the
/// report is empty, provided that no node depends on two packages of one name
/// (alignment by name takes the first of those).
pub proof fn lemma_no_updates_empty_report(g: &ResolvedGraph, root: usize)
    requires
        g.wf(),
        unique_dep_names(g),
        root < g.len(),
    ensures
        drift_report(g, g, g, root, Some(root), Some(root), Seq::empty()) == Seq::<DriftView>::empty(),
{
    lemma_same_resolution_report_empty(g, root, Seq::empty());
}

pub open spec fn removed_marker() -> Seq<char> {
    "  RM  "@
}

pub open spec fn unchanged_marker() -> Seq<char> {
    "  --  "@
}

/// What a report shows for one branch of a record.
pub open spec fn cell_of(v: Option<Seq<char>>, current: Seq<char>) -> Seq<char> {
    match v {
        None => removed_marker(),
        Some(x) => if x == current {
            unchanged_marker()
        } else {
            x
        },
    }
}

/// The text shown for one branch of a record: the removal marker, the
/// no-change marker, or the version resolved in that branch.
pub fn drift_cell(v: &Option<String>, current: &String) -> (r: String)
    ensures
        r@ == cell_of(opt_view(*v), current@),
{
    match v {
        None => "  RM  ".to_owned(),
        Some(x) => if *x == *current {
            "  --  ".to_owned()
        } else {
            x.clone()
        },
    }
}

/// The process exit status for a finished report: `exit_code` when some
/// record shows drift, else 0.
pub fn exit_status(records: &Vec<DriftRecord>, exit_code: u32) -> (r: u32)
    ensures
        r == if exists|i: int| 0 <= i < records@.len() && (#[trigger] records@[i])@.drifts() {
            exit_code
        } else {
            0
        },
{
    let mut i: usize = 0;
    while i < records.len()
        invariant
            i <= records@.len(),
            forall|j: int| 0 <= j < i ==> !(#[trigger] records@[j])@.drifts(),
        decreases records@.len() - i,
    {
        let rec = &records[i];
        if shows_drift(&rec.compat, &rec.current) || shows_drift(&rec.latest, &rec.current) {
            return exit_code;
        }
        i = i + 1;
    }
    0
}

/// Names in lexicographic order of their characters' code points.
pub open spec fn name_le(a: Seq<char>, b: Seq<char>) -> bool
    decreases a.len(),
{
    if a.len() == 0 {
        true
    } else if b.len() == 0 {
        false
    } else if (a[0] as u32) != (b[0] as u32) {
        (a[0] as u32) < (b[0] as u32)
    } else {
        name_le(a.drop_first(), b.drop_first())
    }
}

proof fn lemma_name_le_reflexive(a: Seq<char>)
    ensures
        name_le(a, a),
    decreases a.len(),
{
    if a.len() > 0 {
        lemma_name_le_reflexive(a.drop_first());
    }
}

proof fn lemma_name_le_total(a: Seq<char>, b: Seq<char>)
    ensures
        name_le(a, b) || name_le(b, a),
    decreases a.len(),
{
    if a.len() > 0 && b.len() > 0 && (a[0] as u32) == (b[0] as u32) {
        lemma_name_le_total(a.drop_first(), b.drop_first());
    }
}

proof fn lemma_name_le_transitive(a: Seq<char>, b: Seq<char>, c: Seq<char>)
    requires
        name_le(a, b),
        name_le(b, c),
    ensures
        name_le(a, c),
    decreases a.len(),
{
    if a.len() > 0 && (a[0] as u32) == (b[0] as u32) && (b[0] as u32) == (c[0] as u32) {
        lemma_name_le_transitive(a.drop_first(), b.drop_first(), c.drop_first());
    }
}

fn le_names(a: &String, b: &String) -> (r: bool)
    ensures
        r == name_le(a@, b@),
{
    let sa = a.as_str();
    let sb = b.as_str();
    let la = sa.unicode_len();
    let lb = sb.unicode_len();
    let mut i: usize = 0;
    assert(a@.subrange(0, la as int) =~= a@);
    assert(b@.subrange(0, lb as int) =~= b@);
    while i < la && i < lb
        invariant
            sa@ == a@,
            sb@ == b@,
            la == a@.len(),
            lb == b@.len(),
            i <= la,
            i <= lb,
            name_le(a@, b@) == name_le(a@.subrange(i as int, la as int), b@.subrange(i as int, lb as int)),
        decreases la - i,
    {
        let ca = sa.get_char(i) as u32;
        let cb = sb.get_char(i) as u32;
        assert(a@.subrange(i as int, la as int)[0] == a@[i as int]);
        assert(b@.subrange(i as int, lb as int)[0] == b@[i as int]);
        if ca != cb {
            return ca < cb;
        }
        assert(a@.subrange(i as int, la as int).drop_first() =~= a@.subrange(i + 1, la as int));
        assert(b@.subrange(i as int, lb as int).drop_first() =~= b@.subrange(i + 1, lb as int));
        i = i + 1;
    }
    i == la
}

pub open spec fn key_of(names: Seq<String>, d: usize) -> Seq<char> {
    names[d as int]@
}

pub open spec fn sorted_by_name(deps: Seq<usize>, names: Seq<String>) -> bool {
    forall|i: int, j: int|
        0 <= i < j < deps.len() ==> name_le(key_of(names, #[trigger] deps[i]), key_of(names, #[trigger] deps[j]))
}

fn sort_by_name(deps: Vec<usize>, names: &Vec<String>) -> (r: Vec<usize>)
    requires
        forall|k: int| 0 <= k < deps@.len() ==> (#[trigger] deps@[k]) < names@.len(),
    ensures
        r@.to_multiset() == deps@.to_multiset(),
        sorted_by_name(r@, names@),
        forall|k: int| 0 <= k < r@.len() ==> (#[trigger] r@[k]) < names@.len(),
{
    broadcast use vstd::seq_lib::group_to_multiset_ensures;

    let ghost orig = deps@;
    let mut src = deps;
    let mut out: Vec<usize> = Vec::new();
    assert(out@.to_multiset().add(src@.to_multiset()) =~= orig.to_multiset());
    while src.len() > 0
        invariant
            out@.to_multiset().add(src@.to_multiset()) == orig.to_multiset(),
            forall|k: int| 0 <= k < src@.len() ==> (#[trigger] src@[k]) < names@.len(),
            forall|k: int| 0 <= k < out@.len() ==> (#[trigger] out@[k]) < names@.len(),
            sorted_by_name(out@, names@),
            forall|i: int, k: int|
                0 <= i < out@.len() && 0 <= k < src@.len() ==> name_le(
                    key_of(names@, #[trigger] out@[i]),
                    key_of(names@, #[trigger] src@[k]),
                ),
        decreases src@.len(),
    {
        let mut best: usize = 0;
        let mut k: usize = 1;
        proof {
            lemma_name_le_reflexive(key_of(names@, src@[0]));
        }
        while k < src.len()
            invariant
                forall|j: int| 0 <= j < src@.len() ==> (#[trigger] src@[j]) < names@.len(),
                best < src@.len(),
                1 <= k <= src@.len(),
                forall|j: int|
                    0 <= j < k ==> name_le(key_of(names@, src@[best as int]), key_of(names@, #[trigger] src@[j])),
            decreases src@.len() - k,
        {
            if !le_names(&names[src[best]], &names[src[k]]) {
                let ghost kb = key_of(names@, src@[best as int]);
                let ghost kk = key_of(names@, src@[k as int]);
                proof {
                    lemma_name_le_total(kb, kk);
                    lemma_name_le_reflexive(kk);
                    assert forall|j: int| 0 <= j < k + 1 implies name_le(
                        kk,
                        key_of(names@, #[trigger] src@[j]),
                    ) by {
                        if j < k {
                            lemma_name_le_transitive(kk, kb, key_of(names@, src@[j]));
                        }
                    }
                }
                best = k;
            }
            k = k + 1;
        }
        let ghost before_src = src@;
        let ghost before_out = out@;
        let m = src.remove(best);
        out.push(m);
        proof {
            assert(m == before_src[best as int]);
            assert(out@ == before_out.push(m));
            assert(src@ == before_src.remove(best as int));
            vstd::seq_lib::to_multiset_build(before_out, m);
            vstd::seq_lib::to_multiset_remove(before_src, best as int);
            assert(out@.to_multiset() == before_out.to_multiset().insert(m));
            assert(src@.to_multiset() == before_src.to_multiset().remove(m));
            assert(before_src.contains(m));
            vstd::seq_lib::to_multiset_contains(before_src, m);
            assert(out@.to_multiset().add(src@.to_multiset()) =~= before_out.to_multiset().add(
                before_src.to_multiset(),
            ));
            assert forall|i: int, j: int| 0 <= i < j < out@.len() implies name_le(
                key_of(names@, #[trigger] out@[i]),
                key_of(names@, #[trigger] out@[j]),
            ) by {
                if j < before_out.len() {
                    assert(out@[i] == before_out[i] && out@[j] == before_out[j]);
                } else {
                    assert(out@[i] == before_out[i]);
                    assert(out@[j] == before_src[best as int]);
                }
            }
            assert forall|i: int, k2: int| 0 <= i < out@.len() && 0 <= k2 < src@.len() implies name_le(
                key_of(names@, #[trigger] out@[i]),
                key_of(names@, #[trigger] src@[k2]),
            ) by {
                let k3 = if k2 < best { k2 } else { k2 + 1 };
                assert(src@[k2] == before_src[k3]);
                if i < before_out.len() {
                    assert(out@[i] == before_out[i]);
                } else {
                    assert(out@[i] == before_src[best as int]);
                }
            }
            assert forall|k2: int| 0 <= k2 < src@.len() implies (#[trigger] src@[k2]) < names@.len() by {
                let k3 = if k2 < best { k2 } else { k2 + 1 };
                assert(src@[k2] == before_src[k3]);
            }
        }
    }
    assert(out@.to_multiset() =~= out@.to_multiset().add(src@.to_multiset()));
    out
}

impl ResolvedGraph {
    /// The same graph with each node's dependency edges ordered by the
    /// names of the packages they lead to, so that the report's order does
    /// not depend on the order the resolver listed them in.
    pub fn sort_deps_by_name(self) -> (r: ResolvedGraph)
        requires
            self.wf(),
        ensures
            r.wf(),
            r.len() == self.len(),
            forall|i: int|
                0 <= i < self.len() ==> (#[trigger] r.name(i)) == self.name(i) && r.version(i)
                    == self.version(i) && r.deps(i).to_multiset() == self.deps(i).to_multiset(),
            forall|i: int, a: int, b: int|
                0 <= i < r.len() && 0 <= a < b < r.deps(i).len() ==> name_le(
                    r.name(#[trigger] r.deps(i)[a] as int),
                    r.name(#[trigger] r.deps(i)[b] as int),
                ),
    {
        let n = self.nodes.len();
        let mut names: Vec<String> = Vec::new();
        let mut i: usize = 0;
        while i < n
            invariant
                n == self.len(),
                i <= n,
                names@.len() == i,
                forall|j: int| 0 <= j < i ==> (#[trigger] names@[j])@ == self.name(j),
            decreases n - i,
        {
            names.push(self.nodes[i].name.clone());
            i = i + 1;
        }
        let ghost g = self;
        let mut src = self.nodes;
        let mut out: Vec<PackageNode> = Vec::new();
        while src.len() > 0
            invariant
                g.wf(),
                n == g.len(),
                names@.len() == n,
                forall|j: int| 0 <= j < n ==> (#[trigger] names@[j])@ == g.name(j),
                out@.len() + src@.len() == n,
                src@ == g.nodes@.subrange(out@.len() as int, n as int),
                forall|j: int|
                    0 <= j < out@.len() ==> (#[trigger] out@[j]).name == g.nodes@[j].name
                        && out@[j].version == g.nodes@[j].version && out@[j].deps@.to_multiset()
                        == g.deps(j).to_multiset() && sorted_by_name(out@[j].deps@, names@)
                        && forall|k: int| 0 <= k < out@[j].deps@.len() ==> (#[trigger] out@[j].deps@[k]) < n,
            decreases src@.len(),
        {
            let ghost j = out@.len() as int;
            let node = src.remove(0);
            assert(node == g.nodes@[j]);
            assert(forall|k: int| 0 <= k < node.deps@.len() ==> (#[trigger] node.deps@[k]) < names@.len()) by {
                assert(forall|k: int| 0 <= k < node.deps@.len() ==> node.deps@[k] == g.deps(j)[k]);
            }
            let deps = sort_by_name(node.deps, &names);
            out.push(PackageNode { name: node.name, version: node.version, deps });
            assert(src@ =~= g.nodes@.subrange(out@.len() as int, n as int));
        }
        let r = ResolvedGraph { nodes: out };
        assert forall|i: int, a: int, b: int|
            0 <= i < r.len() && 0 <= a < b < r.deps(i).len() implies name_le(
                r.name(#[trigger] r.deps(i)[a] as int),
                r.name(#[trigger] r.deps(i)[b] as int),
            ) by {
            assert(sorted_by_name(r.deps(i), names@));
            assert(name_le(key_of(names@, r.deps(i)[a]), key_of(names@, r.deps(i)[b])));
        }
        r
    }
}

} // verus!
