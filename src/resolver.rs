//! The registry of package versions and their dependencies, and resolution
//! of a set of requirements against it.
use pubgrub::Reporter;
use vstd::prelude::*;

use crate::constraint::{constraint_outcome, parse_constraint, reports, Fault};
use crate::error::ResolverError;
use crate::package::Package;
use crate::ranges::{members, VersionRanges};
use crate::version::{literal_version, parse_version, Release};

verus! {

/// The solver's registry of package versions and their dependency edges.
/// Held opaquely: what it holds is `registry`, and only the functions below
/// touch it.
#[verifier::external_body]
pub struct Registry {
    provider: pubgrub::OfflineDependencyProvider<String, VersionRanges>,
}

/// The dependency graph as the solver holds it: for each registered
/// (package, version), the versions that each dependency may take.
pub uninterp spec fn registry(
    p: Registry,
) -> Map<(Seq<char>, Release), Map<Seq<char>, Set<Release>>>;

/// The edges of a dependency list; a later edge to the same package
/// replaces an earlier one.
pub open spec fn edge_map(deps: Seq<(String, VersionRanges)>) -> Map<
    Seq<char>,
    Set<Release>,
>
    decreases deps.len(),
{
    if deps.len() == 0 {
        Map::empty()
    } else {
        edge_map(deps.drop_last()).insert(deps.last().0@, members(deps.last().1))
    }
}

/// What a list of (package, constraint) pairs means: the edges, or the
/// fault of the first constraint that fails.
pub open spec fn requirements_outcome(reqs: Seq<(String, String)>) -> Result<
    Map<Seq<char>, Set<Release>>,
    Fault,
>
    decreases reqs.len(),
{
    if reqs.len() == 0 {
        Ok(Map::empty())
    } else {
        match requirements_outcome(reqs.drop_last()) {
            Err(f) => Err(f),
            Ok(m) => match constraint_outcome(reqs.last().1@) {
                Err(f) => Err(f),
                Ok(s) => Ok(m.insert(reqs.last().0@, s)),
            },
        }
    }
}

/// The name of the synthetic package whose dependencies are the requirements.
pub open spec fn root_name() -> Seq<char> {
    seq!['_', '_', 'r', 'o', 'o', 't', '_', '_']
}

pub open spec fn root_version() -> Release {
    Release { major: 0, minor: 0, patch: 0 }
}

/// How the solver ended without a solution.
#[derive(Debug)]
pub enum SolveFailure {
    /// No assignment exists; the text explains why.
    NoSolution(String),
    /// The solver failed for another reason, described by the text.
    Other(String),
}

/// Names in `sol` are pairwise distinct.
pub open spec fn distinct_names<T>(sol: Seq<(Seq<char>, T)>) -> bool {
    forall|i: int, j: int|
        0 <= i < sol.len() && 0 <= j < sol.len() && #[trigger] sol[i].0 == #[trigger] sol[j].0
            ==> i == j
}

/// `sol` picks, for package `q`, a version in `s`.
pub open spec fn picks_within(sol: Seq<(Seq<char>, Release)>, q: Seq<char>, s: Set<Release>) -> bool {
    exists|j: int| 0 <= j < sol.len() && (#[trigger] sol[j]).0 == q && s.contains(sol[j].1)
}

/// `sol` is a consistent selection in the dependency graph `g`: one version
/// per package, each registered, each dependency of each selected version
/// met by the selection.
pub open spec fn consistent(
    g: Map<(Seq<char>, Release), Map<Seq<char>, Set<Release>>>,
    sol: Seq<(Seq<char>, Release)>,
) -> bool {
    &&& distinct_names(sol)
    &&& forall|i: int| 0 <= i < sol.len() ==> g.contains_key(#[trigger] sol[i])
    &&& forall|i: int, q: Seq<char>|
        0 <= i < sol.len() && #[trigger] g[sol[i]].contains_key(q) ==> picks_within(
            sol,
            q,
            g[sol[i]][q],
        )
}

pub open spec fn named(sol: Seq<(String, Release)>) -> Seq<(Seq<char>, Release)> {
    Seq::new(sol.len(), |i: int| (sol[i].0@, sol[i].1))
}

/// Relies on OfflineDependencyProvider::new: no package registered.
#[verifier::external_body]
fn provider_new() -> (r: Registry)
    ensures
        registry(r).dom().is_empty(),
{
    Registry { provider: pubgrub::OfflineDependencyProvider::new() }
}

/// Relies on OfflineDependencyProvider::add_dependencies: the entry of
/// (package, version) becomes the given edges, collected into a map in which
/// a later edge to the same package wins; other entries stay.
#[verifier::external_body]
fn provider_add(
    p: &mut Registry,
    package: String,
    version: Release,
    deps: Vec<(String, VersionRanges)>,
)
    ensures
        registry(*final(p)) == registry(*old(p)).insert((package@, version), edge_map(deps@)),
{
    p.provider.add_dependencies(package, semver::Version::new(version.major, version.minor, version.patch), deps)
}

/// Relies on the derived Clone of OfflineDependencyProvider: an equal copy.
#[verifier::external_body]
fn provider_snapshot(
    p: &Registry,
) -> (r: Registry)
    ensures
        registry(r) == registry(*p),
{
    Registry { provider: p.provider.clone() }
}

/// Relies on pubgrub::resolve: a solution selects one version per package
/// (a map), includes the root at its version, selects only registered
/// versions, and meets every dependency of every selected version. A
/// registered root without dependencies is decided and nothing else is, so
/// the solution is the root alone. On no solution the derivation is rendered
/// by DefaultStringReporter, whose text is never empty. The solver is
/// complete: it reports no solution only when no consistent selection that
/// holds the root exists. The other errors of pubgrub::resolve carry the
/// provider's error type, which for OfflineDependencyProvider is
/// `Infallible`: they cannot occur.
#[verifier::external_body]
fn run_solver(
    p: &Registry,
    root: String,
    version: Release,
) -> (r: Result<Vec<(String, Release)>, SolveFailure>)
    ensures
        r is Ok ==> consistent(registry(*p), named(r->Ok_0@)),
        r is Ok ==> exists|i: int|
            0 <= i < r->Ok_0@.len() && #[trigger] named(r->Ok_0@)[i] == (root@, version),
        registry(*p).contains_key((root@, version)) && registry(*p)[(root@, version)].dom().is_empty()
            ==> r is Ok && r->Ok_0@.len() == 1,
        r is Err ==> r->Err_0 is NoSolution,
        r is Err ==> r->Err_0->NoSolution_0@.len() > 0,
        r is Err ==> !exists|sol: Seq<(Seq<char>, Release)>|
            #[trigger] consistent(registry(*p), sol) && sol.contains((root@, version)),
{
    let v = semver::Version::new(version.major, version.minor, version.patch);
    match pubgrub::resolve(&p.provider, root, v) {
        Ok(sol) => Ok(sol.into_iter().map(|(k, v)| (k, Release { major: v.major, minor: v.minor, patch: v.patch })).collect()),
        Err(pubgrub::PubGrubError::NoSolution(d)) => Err(SolveFailure::NoSolution(pubgrub::DefaultStringReporter::report(&d))),
        Err(e) => Err(SolveFailure::Other(e.to_string())),
    }
}

/// `sol` without the synthetic root, order kept.
pub open spec fn without_root(sol: Seq<(Seq<char>, Release)>) -> Seq<(Seq<char>, Release)>
    decreases sol.len(),
{
    if sol.len() == 0 {
        Seq::empty()
    } else if sol.last().0 == root_name() {
        without_root(sol.drop_last())
    } else {
        without_root(sol.drop_last()).push(sol.last())
    }
}

pub open spec fn package_versions(out: Seq<(Package, Release)>) -> Seq<(Seq<char>, Release)> {
    Seq::new(out.len(), |i: int| (out[i].0@, out[i].1))
}

/// `out` resolves the requirements `req` in the dependency graph `g`: one
/// version per package, none for the synthetic root, each registered, and
/// every requirement and every dependency of every selected version met.
pub open spec fn is_resolution(
    g: Map<(Seq<char>, Release), Map<Seq<char>, Set<Release>>>,
    req: Map<Seq<char>, Set<Release>>,
    out: Seq<(Seq<char>, Release)>,
) -> bool {
    &&& distinct_names(out)
    &&& forall|i: int|
        0 <= i < out.len() ==> (#[trigger] out[i]).0 != root_name() && g.contains_key(out[i])
    &&& forall|q: Seq<char>|
        #[trigger] req.contains_key(q) && q != root_name() ==> picks_within(out, q, req[q])
    &&& forall|i: int, q: Seq<char>|
        0 <= i < out.len() && #[trigger] g[out[i]].contains_key(q) && q != root_name()
            ==> picks_within(out, q, g[out[i]][q])
}

proof fn lemma_without_root(sol: Seq<(Seq<char>, Release)>)
    ensures
        forall|i: int|
            0 <= i < without_root(sol).len() ==> exists|j: int|
                0 <= j < sol.len() && sol[j] == #[trigger] without_root(sol)[i],
        forall|i: int|
            0 <= i < without_root(sol).len() ==> (#[trigger] without_root(sol)[i]).0
                != root_name(),
        forall|j: int|
            0 <= j < sol.len() && (#[trigger] sol[j]).0 != root_name() ==> exists|i: int|
                0 <= i < without_root(sol).len() && without_root(sol)[i] == sol[j],
    decreases sol.len(),
{
    if sol.len() > 0 {
        let pre = sol.drop_last();
        let wp = without_root(pre);
        let w = without_root(sol);
        lemma_without_root(pre);
        if sol.last().0 == root_name() {
            assert(w == wp);
        } else {
            assert(w == wp.push(sol.last()));
        }
        assert forall|j: int| 0 <= j < sol.len() && (#[trigger] sol[j]).0 != root_name() implies exists|i: int|
            0 <= i < w.len() && w[i] == sol[j] by {
            if j < sol.len() - 1 {
                assert(pre[j] == sol[j]);
                let i = choose|i: int| 0 <= i < wp.len() && wp[i] == pre[j];
                assert(w[i] == sol[j]);
            } else {
                assert(w[wp.len() as int] == sol[j]);
            }
        }
        assert forall|i: int| 0 <= i < w.len() implies exists|j: int|
            0 <= j < sol.len() && sol[j] == #[trigger] w[i] by {
            if i < wp.len() {
                let j = choose|j: int| 0 <= j < pre.len() && pre[j] == wp[i];
                assert(sol[j] == w[i]);
            } else {
                assert(sol[sol.len() - 1] == w[i]);
            }
        }
    }
}

proof fn lemma_push_distinct(s: Seq<(Seq<char>, Release)>, e: (Seq<char>, Release))
    requires
        distinct_names(s),
        forall|x: int| 0 <= x < s.len() ==> (#[trigger] s[x]).0 != e.0,
    ensures
        distinct_names(s.push(e)),
{
    let w = s.push(e);
    assert forall|a: int, b: int|
        0 <= a < w.len() && 0 <= b < w.len() && #[trigger] w[a].0 == #[trigger] w[b].0 implies a
        == b by {
        if a < s.len() {
            assert(w[a] == s[a]);
        }
        if b < s.len() {
            assert(w[b] == s[b]);
        }
    }
}

proof fn lemma_without_root_distinct(sol: Seq<(Seq<char>, Release)>)
    requires
        distinct_names(sol),
    ensures
        distinct_names(without_root(sol)),
    decreases sol.len(),
{
    if sol.len() > 0 {
        let pre = sol.drop_last();
        assert(distinct_names(pre)) by {
            assert forall|i: int, j: int|
                0 <= i < pre.len() && 0 <= j < pre.len() && #[trigger] pre[i].0
                    == #[trigger] pre[j].0 implies i == j by {
                assert(sol[i] == pre[i] && sol[j] == pre[j]);
            }
        }
        lemma_without_root_distinct(pre);
        if sol.last().0 != root_name() {
            let wp = without_root(pre);
            assert forall|x: int| 0 <= x < wp.len() implies (#[trigger] wp[x]).0 != sol.last().0 by {
                lemma_without_root(pre);
                let j = choose|j: int| 0 <= j < pre.len() && pre[j] == wp[x];
                assert(sol[j] == pre[j]);
                assert(sol[sol.len() - 1] == sol.last());
            }
            lemma_push_distinct(wp, sol.last());
        }
    }
}

/// Parses each (package, constraint) pair into an edge, in order.
fn parse_requirements(reqs: &Vec<(String, String)>) -> (r: Result<
    Vec<(String, VersionRanges)>,
    ResolverError,
>)
    ensures
        match requirements_outcome(reqs@) {
            Ok(m) => r is Ok && edge_map(r->Ok_0@) == m,
            Err(f) => r is Err && reports(r->Err_0, f),
        },
{
    let mut edges: Vec<(String, VersionRanges)> = Vec::new();
    let mut i: usize = 0;
    while i < reqs.len()
        invariant
            i <= reqs@.len(),
            requirements_outcome(reqs@.take(i as int)) == Ok::<
                Map<Seq<char>, Set<Release>>,
                Fault,
            >(edge_map(edges@)),
        decreases reqs.len() - i,
    {
        assert(reqs@.take(i + 1).drop_last() =~= reqs@.take(i as int));
        match parse_constraint(reqs[i].1.as_str()) {
            Ok(range) => {
                let ghost before = edges@;
                edges.push((reqs[i].0.clone(), range));
                assert(edges@.drop_last() =~= before);
            },
            Err(e) => {
                proof {
                    lemma_requirements_failure_sticks(reqs@, i + 1);
                }
                return Err(e);
            },
        }
        i += 1;
    }
    assert(reqs@.take(reqs@.len() as int) =~= reqs@);
    Ok(edges)
}

proof fn lemma_requirements_failure_sticks(reqs: Seq<(String, String)>, k: int)
    requires
        0 <= k <= reqs.len(),
        requirements_outcome(reqs.take(k)) is Err,
    ensures
        requirements_outcome(reqs) == requirements_outcome(reqs.take(k)),
    decreases reqs.len() - k,
{
    if k < reqs.len() {
        assert(reqs.take(k + 1).drop_last() =~= reqs.take(k));
        lemma_requirements_failure_sticks(reqs, k + 1);
    } else {
        assert(reqs.take(k) =~= reqs);
    }
}

/// Turns what the solver returned into the caller's result: the selection
/// without the synthetic root, or the error that reports the failure.
pub fn finish_resolution(outcome: Result<Vec<(String, Release)>, SolveFailure>) -> (r: Result<
    Vec<(Package, Release)>,
    ResolverError,
>)
    ensures
        match outcome {
            Ok(sol) => r is Ok && package_versions(r->Ok_0@) == without_root(named(sol@)),
            Err(SolveFailure::NoSolution(text)) => r is Err && r->Err_0 is ResolutionFailed
                && r->Err_0->ResolutionFailed_explanation@ == text@,
            Err(SolveFailure::Other(text)) => r is Err && r->Err_0 is SolverError
                && r->Err_0->SolverError_message@ == text@,
        },
{
    match outcome {
        Ok(sol) => {
            let root = String::from_str("__root__");
            proof {
                reveal_strlit("__root__");
                assert(root@ =~= root_name());
            }
            let mut out: Vec<(Package, Release)> = Vec::new();
            let mut i: usize = 0;
            while i < sol.len()
                invariant
                    root@ == root_name(),
                    i <= sol@.len(),
                    package_versions(out@) == without_root(named(sol@).take(i as int)),
                decreases sol.len() - i,
            {
                assert(named(sol@).take(i + 1).drop_last() =~= named(sol@).take(i as int));
                let ghost before = out@;
                if sol[i].0 != root {
                    out.push((Package(sol[i].0.clone()), sol[i].1));
                    assert(package_versions(out@) =~= package_versions(before).push(
                        named(sol@)[i as int],
                    ));
                }
                i += 1;
            }
            assert(named(sol@).take(sol@.len() as int) =~= named(sol@));
            Ok(out)
        },
        Err(SolveFailure::NoSolution(text)) => Err(
            ResolverError::ResolutionFailed {
                message: String::from_str("no assignment of versions meets the requirements"),
                explanation: text,
            },
        ),
        Err(SolveFailure::Other(text)) => Err(ResolverError::SolverError { message: text }),
    }
}

proof fn lemma_picks_survive(n: Seq<(Seq<char>, Release)>, q: Seq<char>, set: Set<Release>)
    requires
        picks_within(n, q, set),
        q != root_name(),
    ensures
        picks_within(without_root(n), q, set),
{
    lemma_without_root(n);
    let j = choose|j: int| 0 <= j < n.len() && (#[trigger] n[j]).0 == q && set.contains(n[j].1);
    let i = choose|i: int| 0 <= i < without_root(n).len() && without_root(n)[i] == n[j];
    assert(without_root(n)[i].0 == q);
}

proof fn lemma_selection_registered(
    g: Map<(Seq<char>, Release), Map<Seq<char>, Set<Release>>>,
    req: Map<Seq<char>, Set<Release>>,
    n: Seq<(Seq<char>, Release)>,
    i: int,
)
    requires
        forall|j: int|
            0 <= j < n.len() ==> g.insert((root_name(), root_version()), req).contains_key(
                #[trigger] n[j],
            ),
        0 <= i < without_root(n).len(),
    ensures
        without_root(n)[i].0 != root_name(),
        g.contains_key(without_root(n)[i]),
{
    lemma_without_root(n);
    let j = choose|j: int| 0 <= j < n.len() && n[j] == without_root(n)[i];
    assert(g.insert((root_name(), root_version()), req).contains_key(n[j]));
}

proof fn lemma_origin(n: Seq<(Seq<char>, Release)>, i: int) -> (j: int)
    requires
        0 <= i < without_root(n).len(),
    ensures
        0 <= j < n.len(),
        n[j] == without_root(n)[i],
{
    lemma_without_root(n);
    choose|j: int| 0 <= j < n.len() && n[j] == without_root(n)[i]
}

proof fn lemma_dependencies_met(
    g: Map<(Seq<char>, Release), Map<Seq<char>, Set<Release>>>,
    req: Map<Seq<char>, Set<Release>>,
    n: Seq<(Seq<char>, Release)>,
    i: int,
    q: Seq<char>,
)
    requires
        consistent(g.insert((root_name(), root_version()), req), n),
        0 <= i < without_root(n).len(),
        without_root(n)[i].0 != root_name(),
        g[without_root(n)[i]].contains_key(q),
        q != root_name(),
    ensures
        picks_within(without_root(n), q, g[without_root(n)[i]][q]),
{
    let s = g.insert((root_name(), root_version()), req);
    let j = lemma_origin(n, i);
    assert(n[j] != (root_name(), root_version()));
    assert(s[n[j]] == g[n[j]]);
    assert(s[n[j]].contains_key(q));
    assert(picks_within(n, q, s[n[j]][q]));
    lemma_picks_survive(n, q, g[n[j]][q]);
}

/// A consistent selection in the graph with the root's edges added is,
/// without the root, a resolution of the requirements in the graph.
proof fn lemma_resolution_from_solution(
    g: Map<(Seq<char>, Release), Map<Seq<char>, Set<Release>>>,
    req: Map<Seq<char>, Set<Release>>,
    n: Seq<(Seq<char>, Release)>,
)
    requires
        consistent(g.insert((root_name(), root_version()), req), n),
        exists|i: int| 0 <= i < n.len() && n[i] == (root_name(), root_version()),
    ensures
        is_resolution(g, req, without_root(n)),
{
    let s = g.insert((root_name(), root_version()), req);
    let w = without_root(n);
    lemma_without_root_distinct(n);
    assert forall|i: int| 0 <= i < w.len() implies (#[trigger] w[i]).0 != root_name()
        && g.contains_key(w[i]) by {
        lemma_selection_registered(g, req, n, i);
    }
    let i0 = choose|i: int| 0 <= i < n.len() && n[i] == (root_name(), root_version());
    assert(s[n[i0]] == req);
    assert forall|q: Seq<char>| #[trigger] req.contains_key(q) && q != root_name() implies picks_within(
        w,
        q,
        req[q],
    ) by {
        assert(s[n[i0]].contains_key(q));
        lemma_picks_survive(n, q, req[q]);
    }
    assert forall|i: int, q: Seq<char>|
        0 <= i < w.len() && #[trigger] g[w[i]].contains_key(q) && q != root_name() implies picks_within(
        w,
        q,
        g[w[i]][q],
    ) by {
        lemma_selection_registered(g, req, n, i);
        lemma_dependencies_met(g, req, n, i, q);
    }
}

/// Edges that name the synthetic root admit it at its version, so that
/// adding the root to `out` keeps every edge met.
pub open spec fn root_edges_met(
    g: Map<(Seq<char>, Release), Map<Seq<char>, Set<Release>>>,
    req: Map<Seq<char>, Set<Release>>,
    out: Seq<(Seq<char>, Release)>,
) -> bool {
    &&& req.contains_key(root_name()) ==> req[root_name()].contains(root_version())
    &&& forall|i: int|
        0 <= i < out.len() && #[trigger] g[out[i]].contains_key(root_name())
            ==> g[out[i]][root_name()].contains(root_version())
}

proof fn lemma_picks_extend(
    out: Seq<(Seq<char>, Release)>,
    e: (Seq<char>, Release),
    q: Seq<char>,
    set: Set<Release>,
)
    requires
        picks_within(out, q, set),
    ensures
        picks_within(out.push(e), q, set),
{
    let j = choose|j: int| 0 <= j < out.len() && (#[trigger] out[j]).0 == q && set.contains(out[j].1);
    assert(out.push(e)[j] == out[j]);
}

/// A resolution of the requirements, with the root added, is a consistent
/// selection in the graph with the root's edges added.
proof fn lemma_solution_from_resolution(
    g: Map<(Seq<char>, Release), Map<Seq<char>, Set<Release>>>,
    req: Map<Seq<char>, Set<Release>>,
    out: Seq<(Seq<char>, Release)>,
)
    requires
        is_resolution(g, req, out),
        root_edges_met(g, req, out),
    ensures
        consistent(g.insert((root_name(), root_version()), req), out.push((root_name(), root_version()))),
        out.push((root_name(), root_version())).contains((root_name(), root_version())),
{
    let rk = (root_name(), root_version());
    let s = g.insert(rk, req);
    let sol = out.push(rk);
    assert(sol[out.len() as int] == rk);
    assert forall|x: int| 0 <= x < out.len() implies (#[trigger] out[x]).0 != rk.0 by {}
    lemma_push_distinct(out, rk);
    assert forall|i: int| 0 <= i < sol.len() implies s.contains_key(#[trigger] sol[i]) by {
        if i < out.len() {
            assert(sol[i] == out[i]);
        }
    }
    assert forall|i: int, q: Seq<char>|
        0 <= i < sol.len() && #[trigger] s[sol[i]].contains_key(q) implies picks_within(
        sol,
        q,
        s[sol[i]][q],
    ) by {
        if i < out.len() {
            assert(sol[i] == out[i]);
            assert(out[i].0 != root_name());
            assert(s[sol[i]] == g[out[i]]);
            if q == root_name() {
                assert(g[out[i]][root_name()].contains(root_version()));
                assert(sol[out.len() as int].0 == q);
            } else {
                assert(picks_within(out, q, g[out[i]][q]));
                lemma_picks_extend(out, rk, q, g[out[i]][q]);
            }
        } else {
            assert(s[sol[i]] == req);
            if q == root_name() {
                assert(sol[out.len() as int].0 == q);
            } else {
                assert(picks_within(out, q, req[q]));
                lemma_picks_extend(out, rk, q, req[q]);
            }
        }
    }
}

/// The dependency list given to a registration; none means no edges.
pub open spec fn dependency_list(deps: Option<Vec<(String, String)>>) -> Seq<(String, String)> {
    match deps {
        Some(d) => d@,
        None => Seq::empty(),
    }
}

/// Holds the dependency graph across registrations and resolves
/// requirements against it.
pub struct Resolver {
    registry: Registry,
}

impl Resolver {
    /// The dependency graph: for each registered (package, version), the
    /// versions that each of its dependencies may take.
    pub closed spec fn universe(&self) -> Map<(Seq<char>, Release), Map<Seq<char>, Set<Release>>> {
        registry(self.registry)
    }

    /// A resolver with nothing registered.
    pub fn new() -> (r: Resolver)
        ensures
            r.universe() == Map::<(Seq<char>, Release), Map<Seq<char>, Set<Release>>>::empty(),
    {
        let empty = provider_new();
        assert(registry(empty) =~= Map::<(Seq<char>, Release), Map<Seq<char>, Set<Release>>>::empty());
        Resolver { registry: empty }
    }

    /// Registers `version` of package `name` with its dependencies, each a
    /// (package, constraint) pair; a later pair for the same package wins.
    /// Replaces whatever that (package, version) had. On an invalid version
    /// or constraint nothing changes.
    pub fn add_package(
        &mut self,
        name: String,
        version: String,
        dependencies: Option<Vec<(String, String)>>,
    ) -> (r: Result<(), ResolverError>)
        ensures
            match literal_version(version@) {
                None => r is Err && r->Err_0 is InvalidVersion && r->Err_0->InvalidVersion_version@
                    == version@ && final(self).universe() == old(self).universe(),
                Some(v) => match requirements_outcome(dependency_list(dependencies)) {
                    Err(f) => r is Err && reports(r->Err_0, f) && final(self).universe() == old(
                        self,
                    ).universe(),
                    Ok(m) => r is Ok && final(self).universe() == old(self).universe().insert(
                        (name@, v),
                        m,
                    ),
                },
            },
    {
        let v = match parse_version(version.as_str()) {
            Ok(v) => v,
            Err(e) => {
                return Err(e);
            },
        };
        let deps = match dependencies {
            Some(d) => d,
            None => Vec::new(),
        };
        assert(deps@ == dependency_list(dependencies));
        let edges = match parse_requirements(&deps) {
            Ok(edges) => edges,
            Err(e) => {
                return Err(e);
            },
        };
        provider_add(&mut self.registry, name, v, edges);
        Ok(())
    }

    /// Resolves `requirements`, (package, constraint) pairs of which a later
    /// one for the same package wins, against the registered graph. The
    /// registry is left as it was: the requirements are added, as the edges
    /// of the synthetic root `__root__` 0.0.0, to a copy only.
    pub fn resolve(&self, requirements: Vec<(String, String)>) -> (r: Result<
        Vec<(Package, Release)>,
        ResolverError,
    >)
        ensures
            match requirements_outcome(requirements@) {
                Err(f) => r is Err && reports(r->Err_0, f),
                Ok(req) => {
                    &&& r is Ok ==> is_resolution(self.universe(), req, package_versions(r->Ok_0@))
                    &&& r is Err ==> r->Err_0 is ResolutionFailed
                    &&& (exists|q: Seq<char>|
                        #[trigger] req.contains_key(q) && q != root_name() && req[q].is_empty())
                        ==> r is Err
                    &&& (exists|out: Seq<(Seq<char>, Release)>|
                        #[trigger] is_resolution(self.universe(), req, out) && root_edges_met(
                            self.universe(),
                            req,
                            out,
                        )) ==> r is Ok
                    &&& r is Err ==> r->Err_0->ResolutionFailed_explanation@.len() > 0
                },
            },
            requirements@.len() == 0 ==> r is Ok && r->Ok_0@.len() == 0,
    {
        let edges = match parse_requirements(&requirements) {
            Ok(edges) => edges,
            Err(e) => {
                return Err(e);
            },
        };
        let root = String::from_str("__root__");
        proof {
            reveal_strlit("__root__");
            assert(root@ =~= root_name());
        }
        let zero = Release::new(0, 0, 0);
        let mut snapshot = provider_snapshot(&self.registry);
        provider_add(&mut snapshot, root.clone(), zero, edges);
        let outcome = run_solver(&snapshot, root, zero);
        proof {
            if requirements@.len() == 0 {
                assert(edge_map(edges@) =~= Map::<Seq<char>, Set<Release>>::empty());
                assert(registry(snapshot)[(root@, zero)].dom() =~= Set::<Seq<char>>::empty());
                let n = named(outcome->Ok_0@);
                assert(n[0] == (root_name(), root_version()));
                assert(n.len() == 1 && n.last().0 == root_name());
                assert(n.drop_last() =~= Seq::<(Seq<char>, Release)>::empty());
                assert(without_root(n.drop_last()) =~= Seq::<(Seq<char>, Release)>::empty());
                assert(without_root(n) == without_root(n.drop_last()));
            }
            if outcome is Err {
                let req = requirements_outcome(requirements@)->Ok_0;
                if exists|out: Seq<(Seq<char>, Release)>|
                    #[trigger] is_resolution(self.universe(), req, out) && root_edges_met(
                        self.universe(),
                        req,
                        out,
                    ) {
                    let out = choose|out: Seq<(Seq<char>, Release)>|
                        #[trigger] is_resolution(self.universe(), req, out) && root_edges_met(
                            self.universe(),
                            req,
                            out,
                        );
                    lemma_solution_from_resolution(self.universe(), req, out);
                    assert(registry(snapshot) == self.universe().insert((root@, zero), req));
                    assert(consistent(registry(snapshot), out.push((root@, zero))));
                    assert(false);
                }
            }
            if outcome is Ok {
                let req = requirements_outcome(requirements@)->Ok_0;
                let out = without_root(named(outcome->Ok_0@));
                if exists|q: Seq<char>| #[trigger] req.contains_key(q) && q != root_name() && req[q].is_empty() {
                    let q = choose|q: Seq<char>| #[trigger] req.contains_key(q) && q != root_name() && req[q].is_empty();
                    lemma_resolution_from_solution(self.universe(), req, named(outcome->Ok_0@));
                    assert(picks_within(out, q, req[q]));
                    let j = choose|j: int| 0 <= j < out.len() && (#[trigger] out[j]).0 == q && req[q].contains(out[j].1);
                    assert(req[q].contains(out[j].1));
                    assert(false);
                }
                lemma_resolution_from_solution(
                    self.universe(),
                    requirements_outcome(requirements@)->Ok_0,
                    named(outcome->Ok_0@),
                );
            }
        }
        finish_resolution(outcome)
    }
}

impl Default for Resolver {
    fn default() -> (r: Resolver)
        ensures
            r.universe() == Map::<(Seq<char>, Release), Map<Seq<char>, Set<Release>>>::empty(),
    {
        Resolver::new()
    }
}

/// Registering the same (package, version) twice keeps only the edges of
/// the second registration: they replace the first, they are not merged.
pub proof fn lemma_reregistration_replaces(
    before: Map<(Seq<char>, Release), Map<Seq<char>, Set<Release>>>,
    key: (Seq<char>, Release),
    first: Map<Seq<char>, Set<Release>>,
    second: Map<Seq<char>, Set<Release>>,
)
    ensures
        before.insert(key, first).insert(key, second) == before.insert(key, second),
        before.insert(key, first).insert(key, second)[key] == second,
{
    assert(before.insert(key, first).insert(key, second) =~= before.insert(key, second));
}

} // verus!
