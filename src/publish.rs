//! The publish-order planner: from the packages of a workspace and their
//! dependencies on each other to levels of packages that can be published
//! together, each level after all the levels that it depends on.
//!
//! A package is identified by its index in the list handed to the planner. A
//! dependency index outside that list is a dependency outside the workspace,
//! and never holds a package back.

use vstd::prelude::*;

verus! {

/// A package of the workspace.
#[derive(Clone, Debug)]
pub struct PackageInfo {
    pub name: String,
    pub path: String,
    /// The indices of the packages that this one depends on.
    pub dependencies: Vec<usize>,
}

/// Packages in publish order.
#[derive(Debug)]
pub struct PublishOrderData {
    /// The levels, in the order in which they are to be published; the
    /// packages within one level do not depend on each other.
    pub levels: Vec<Vec<usize>>,
    /// The level of each package, by index.
    pub id_to_level: Vec<usize>,
    /// The packages that were planned, by index.
    pub id_to_package_info: Vec<PackageInfo>,
}

/// Why no publish order exists.
#[derive(Clone, Debug, PartialEq, Eq)]
pub enum PlanError {
    /// The packages that cannot be placed, in increasing order: each depends
    /// on another of them, so they hold a cycle or depend on one.
    DependencyCycle(Vec<usize>),
}

/// The dependency lists of the packages, by index.
pub open spec fn dependency_graph(packages: Seq<PackageInfo>) -> Seq<Seq<usize>> {
    Seq::new(packages.len(), |p: int| packages[p].dependencies@)
}

/// Package `p` depends on package `d`, both of the workspace.
pub open spec fn depends_on(g: Seq<Seq<usize>>, p: int, d: int) -> bool {
    &&& 0 <= p < g.len()
    &&& 0 <= d < g.len()
    &&& g[p].contains(d as usize)
}

pub open spec fn has_workspace_deps(g: Seq<Seq<usize>>, p: int) -> bool {
    exists|d: int| depends_on(g, p, d)
}

/// Each member of `s` is a package that depends on another member of `s`, so
/// no order puts every member after its dependencies.
#[verifier::opaque]
pub open spec fn is_blocked_set(g: Seq<Seq<usize>>, s: Set<int>) -> bool {
    forall|p: int|
        #![trigger s.contains(p)]
        s.contains(p) ==> 0 <= p < g.len() && exists|d: int| depends_on(g, p, d) && s.contains(d)
}

/// No set of packages is blocked by itself: the dependencies hold no cycle.
pub open spec fn is_acyclic(g: Seq<Seq<usize>>) -> bool {
    forall|s: Set<int>| #[trigger] is_blocked_set(g, s) ==> s.is_empty()
}

/// `levels` and `level_of` are the publish levels of `g`: they partition the
/// packages, a package comes after each of its dependencies, and it comes as
/// early as that allows (level 0 for no dependencies, else one past the
/// highest level of a dependency).
#[verifier::opaque]
pub open spec fn is_layering(g: Seq<Seq<usize>>, levels: Seq<Seq<usize>>, level_of: Seq<usize>) -> bool {
    &&& level_of.len() == g.len()
    &&& forall|p: int|
        0 <= p < g.len() ==> #[trigger] level_of[p] < levels.len() && levels[level_of[p] as int].contains(
            p as usize,
        )
    &&& forall|l: int, i: int|
        0 <= l < levels.len() && 0 <= i < levels[l].len() ==> #[trigger] levels[l][i] < g.len()
            && level_of[levels[l][i] as int] == l
    &&& forall|l: int, i: int, j: int|
        0 <= l < levels.len() && 0 <= i < levels[l].len() && 0 <= j < levels[l].len()
            && #[trigger] levels[l][i] == #[trigger] levels[l][j] ==> i == j
    &&& forall|l: int| 0 <= l < levels.len() ==> #[trigger] levels[l].len() > 0
    &&& forall|p: int, d: int| #[trigger] depends_on(g, p, d) ==> level_of[d] < level_of[p]
    &&& forall|p: int| 0 <= p < g.len() ==> (#[trigger] level_of[p] == 0 <==> !has_workspace_deps(g, p))
    &&& forall|p: int|
        0 <= p < g.len() && #[trigger] level_of[p] > 0 ==> exists|d: int|
            depends_on(g, p, d) && level_of[d] == level_of[p] - 1
}

/// `p` is placed, and each package that `p` depends on is placed at a lower
/// level.
pub open spec fn ranked_below(g: Seq<Seq<usize>>, rank: Seq<Option<usize>>) -> bool {
    forall|p: int, d: int|
        #[trigger] depends_on(g, p, d) && rank[p] is Some ==> rank[d] is Some && rank[d]->0 < rank[p]->0
}

proof fn lemma_ranked_not_blocked(g: Seq<Seq<usize>>, rank: Seq<Option<usize>>, s: Set<int>, p: int)
    requires
        rank.len() == g.len(),
        ranked_below(g, rank),
        is_blocked_set(g, s),
        0 <= p < g.len(),
        rank[p] is Some,
    ensures
        !s.contains(p),
    decreases rank[p]->0,
{
    reveal(is_blocked_set);
    if s.contains(p) {
        let d = choose|d: int| depends_on(g, p, d) && s.contains(d);
        lemma_ranked_not_blocked(g, rank, s, d);
    }
}

pub open spec fn count_placed(rank: Seq<Option<usize>>) -> nat
    decreases rank.len(),
{
    if rank.len() == 0 {
        0
    } else {
        count_placed(rank.drop_last()) + if rank.last() is Some {
            1nat
        } else {
            0nat
        }
    }
}

proof fn lemma_count_placed_bound(rank: Seq<Option<usize>>)
    ensures
        count_placed(rank) <= rank.len(),
    decreases rank.len(),
{
    if rank.len() > 0 {
        lemma_count_placed_bound(rank.drop_last());
    }
}

proof fn lemma_count_placed_update(rank: Seq<Option<usize>>, i: int, x: usize)
    requires
        0 <= i < rank.len(),
        rank[i] is None,
    ensures
        count_placed(rank.update(i, Some(x))) == count_placed(rank) + 1,
    decreases rank.len(),
{
    let u = rank.update(i, Some(x));
    if i == rank.len() - 1 {
        assert(u.drop_last() =~= rank.drop_last());
    } else {
        assert(u.drop_last() =~= rank.drop_last().update(i, Some(x)));
        lemma_count_placed_update(rank.drop_last(), i, x);
    }
}

/// Whether every dependency in `deps` that is a package of the workspace is
/// placed.
fn deps_placed(deps: &Vec<usize>, level_of: &Vec<Option<usize>>) -> (r: bool)
    ensures
        r == forall|i: int|
            0 <= i < deps@.len() && deps@[i] < level_of@.len() ==> #[trigger] level_of@[deps@[i] as int] is Some,
{
    let mut i: usize = 0;
    while i < deps.len()
        invariant
            i <= deps@.len(),
            forall|j: int|
                0 <= j < i && deps@[j] < level_of@.len() ==> #[trigger] level_of@[deps@[j] as int] is Some,
        decreases deps@.len() - i,
    {
        let d = deps[i];
        if d < level_of.len() && level_of[d].is_none() {
            return false;
        }
        i = i + 1;
    }
    true
}

/// Each workspace package that `p` depends on is placed.
pub open spec fn deps_all_placed(g: Seq<Seq<usize>>, rank: Seq<Option<usize>>, p: int) -> bool {
    forall|d: int| #[trigger] depends_on(g, p, d) ==> rank[d] is Some
}

/// The unplaced packages whose workspace dependencies are all placed, in
/// increasing order.
fn ready_packages(packages: &Vec<PackageInfo>, level_of: &Vec<Option<usize>>) -> (r: Vec<usize>)
    requires
        level_of@.len() == packages@.len(),
    ensures
        forall|i: int|
            0 <= i < r@.len() ==> #[trigger] r@[i] < packages@.len() && level_of@[r@[i] as int] is None
                && deps_all_placed(dependency_graph(packages@), level_of@, r@[i] as int),
        forall|p: int|
            0 <= p < packages@.len() && level_of@[p] is None && deps_all_placed(
                dependency_graph(packages@),
                level_of@,
                p,
            ) ==> #[trigger] r@.contains(p as usize),
        forall|i: int, j: int| 0 <= i < j < r@.len() ==> #[trigger] r@[i] < #[trigger] r@[j],
{
    let ghost g = dependency_graph(packages@);
    let n = packages.len();
    let mut ready: Vec<usize> = Vec::new();
    let mut p: usize = 0;
    while p < n
        invariant
            p <= n,
            n == packages@.len(),
            level_of@.len() == n,
            g == dependency_graph(packages@),
            forall|i: int|
                0 <= i < ready@.len() ==> #[trigger] ready@[i] < p && level_of@[ready@[i] as int] is None
                    && deps_all_placed(g, level_of@, ready@[i] as int),
            forall|q: int|
                0 <= q < p && level_of@[q] is None && deps_all_placed(g, level_of@, q)
                    ==> #[trigger] ready@.contains(q as usize),
            forall|i: int, j: int| 0 <= i < j < ready@.len() ==> #[trigger] ready@[i] < #[trigger] ready@[j],
        decreases n - p,
    {
        let deps = &packages[p].dependencies;
        let placed = deps_placed(deps, level_of);
        assert(g[p as int] == deps@);
        proof {
            if placed {
                assert forall|d: int| #[trigger] depends_on(g, p as int, d) implies level_of@[d] is Some by {
                    let i = choose|i: int| 0 <= i < deps@.len() && deps@[i] == d as usize;
                    assert(level_of@[deps@[i] as int] is Some);
                }
            } else {
                let i = choose|i: int|
                    0 <= i < deps@.len() && deps@[i] < level_of@.len() && !(#[trigger] level_of@[deps@[i] as int] is Some);
                assert(depends_on(g, p as int, deps@[i] as int));
            }
        }
        if level_of[p].is_none() && placed {
            let ghost before = ready@;
            ready.push(p);
            assert forall|q: int|
                0 <= q < p + 1 && level_of@[q] is None && deps_all_placed(g, level_of@, q)
                    implies #[trigger] ready@.contains(q as usize) by {
                if q < p {
                    assert(before.contains(q as usize));
                    let k = choose|k: int| 0 <= k < before.len() && before[k] == q as usize;
                    assert(ready@[k] == q as usize);
                } else {
                    assert(ready@[before.len() as int] == q as usize);
                }
            }
        }
        p = p + 1;
    }
    ready
}

/// What holds after `levels.len()` rounds of placing packages, with `rank`
/// the level of each placed package.
#[verifier::opaque]
pub open spec fn rounds_done(g: Seq<Seq<usize>>, levels: Seq<Seq<usize>>, rank: Seq<Option<usize>>) -> bool {
    let n = g.len();
    let rounds = levels.len();
    &&& rank.len() == n
    &&& forall|p: int|
        0 <= p < n && #[trigger] rank[p] is Some ==> rank[p]->0 < rounds && levels[rank[p]->0 as int].contains(
            p as usize,
        )
    &&& forall|l: int, i: int|
        0 <= l < rounds && 0 <= i < levels[l].len() ==> #[trigger] levels[l][i] < n
            && rank[levels[l][i] as int] == Some(l as usize)
    &&& forall|l: int, i: int, j: int|
        0 <= l < rounds && 0 <= i < levels[l].len() && 0 <= j < levels[l].len()
            && #[trigger] levels[l][i] == #[trigger] levels[l][j] ==> i == j
    &&& forall|l: int| 0 <= l < rounds ==> #[trigger] levels[l].len() > 0
    &&& ranked_below(g, rank)
    &&& forall|p: int| 0 <= p < n && #[trigger] rank[p] == Some(0usize) ==> !has_workspace_deps(g, p)
    &&& forall|p: int|
        0 <= p < n && #[trigger] rank[p] is Some && rank[p]->0 > 0 ==> exists|d: int|
            depends_on(g, p, d) && rank[d] == Some((rank[p]->0 - 1) as usize)
    &&& rounds > 0 ==> forall|p: int|
        0 <= p < n && #[trigger] rank[p] is None ==> exists|d: int|
            depends_on(g, p, d) && (rank[d] is None || rank[d] == Some((rounds - 1) as usize))
}

proof fn lemma_rounds_start(g: Seq<Seq<usize>>, rank: Seq<Option<usize>>)
    requires
        rank.len() == g.len(),
        forall|p: int| 0 <= p < rank.len() ==> #[trigger] rank[p] is None,
    ensures
        rounds_done(g, levels_view(Seq::empty()), rank),
{
    reveal(rounds_done);
}

proof fn lemma_rounds_done_facts(g: Seq<Seq<usize>>, levels: Seq<Seq<usize>>, rank: Seq<Option<usize>>)
    requires
        rounds_done(g, levels, rank),
    ensures
        rank.len() == g.len(),
        forall|p: int|
            0 <= p < g.len() && #[trigger] rank[p] is Some ==> rank[p]->0 < levels.len()
                && levels[rank[p]->0 as int].contains(p as usize),
        forall|l: int, i: int|
            0 <= l < levels.len() && 0 <= i < levels[l].len() ==> #[trigger] levels[l][i] < g.len()
                && rank[levels[l][i] as int] == Some(l as usize),
        forall|l: int, i: int, j: int|
            0 <= l < levels.len() && 0 <= i < levels[l].len() && 0 <= j < levels[l].len()
                && #[trigger] levels[l][i] == #[trigger] levels[l][j] ==> i == j,
        forall|l: int| 0 <= l < levels.len() ==> #[trigger] levels[l].len() > 0,
        ranked_below(g, rank),
        forall|p: int| 0 <= p < g.len() && #[trigger] rank[p] == Some(0usize) ==> !has_workspace_deps(g, p),
        forall|p: int|
            0 <= p < g.len() && #[trigger] rank[p] is Some && rank[p]->0 > 0 ==> exists|d: int|
                depends_on(g, p, d) && rank[d] == Some((rank[p]->0 - 1) as usize),
{
    reveal(rounds_done);
}

proof fn lemma_round_step(
    g: Seq<Seq<usize>>,
    levels: Seq<Seq<usize>>,
    rank: Seq<Option<usize>>,
    ready: Seq<usize>,
    rank2: Seq<Option<usize>>,
)
    requires
        rounds_done(g, levels, rank),
        levels.len() < usize::MAX,
        g.len() <= usize::MAX,
        ready.len() > 0,
        forall|i: int|
            0 <= i < ready.len() ==> #[trigger] ready[i] < g.len() && rank[ready[i] as int] is None
                && deps_all_placed(g, rank, ready[i] as int),
        forall|p: int|
            0 <= p < g.len() && rank[p] is None && deps_all_placed(g, rank, p)
                ==> #[trigger] ready.contains(p as usize),
        forall|i: int, j: int| 0 <= i < j < ready.len() ==> #[trigger] ready[i] < #[trigger] ready[j],
        rank2.len() == g.len(),
        forall|p: int|
            0 <= p < g.len() ==> #[trigger] rank2[p] == if ready.contains(p as usize) {
                Some(levels.len() as usize)
            } else {
                rank[p]
            },
    ensures
        rounds_done(g, levels.push(ready), rank2),
{
    reveal(rounds_done);
    let n = g.len();
    let rounds = levels.len();
    let levels2 = levels.push(ready);
    assert forall|p: int| 0 <= p < n && rank[p] is Some implies !ready.contains(p as usize) by {
        if ready.contains(p as usize) {
            let i = choose|i: int| 0 <= i < ready.len() && ready[i] == p as usize;
            assert(rank[ready[i] as int] is None);
        }
    }
    assert forall|p: int|
        0 <= p < n && #[trigger] rank2[p] is Some implies rank2[p]->0 < rounds + 1
            && levels2[rank2[p]->0 as int].contains(p as usize) by {
        if ready.contains(p as usize) {
            assert(levels2[rounds as int] == ready);
        } else {
            assert(levels2[rank[p]->0 as int] == levels[rank[p]->0 as int]);
        }
    }
    assert forall|l: int, i: int|
        0 <= l < rounds + 1 && 0 <= i < levels2[l].len() implies #[trigger] levels2[l][i] < n
            && rank2[levels2[l][i] as int] == Some(l as usize) by {
        if l < rounds {
            assert(levels2[l] == levels[l]);
            assert(rank[levels[l][i] as int] is Some);
        } else {
            assert(levels2[l] == ready);
            assert(ready.contains(ready[i]));
        }
    }
    assert forall|l: int, i: int, j: int|
        0 <= l < rounds + 1 && 0 <= i < levels2[l].len() && 0 <= j < levels2[l].len()
            && #[trigger] levels2[l][i] == #[trigger] levels2[l][j] implies i == j by {
        if l < rounds {
            assert(levels2[l] == levels[l]);
        } else {
            assert(levels2[l] == ready);
            if i < j {
                assert(ready[i] < ready[j]);
            } else if j < i {
                assert(ready[j] < ready[i]);
            }
        }
    }
    assert forall|l: int| 0 <= l < rounds + 1 implies #[trigger] levels2[l].len() > 0 by {
        if l < rounds {
            assert(levels2[l] == levels[l]);
        }
    }
    assert forall|p: int, d: int| #[trigger] depends_on(g, p, d) && rank2[p] is Some implies rank2[d] is Some
        && rank2[d]->0 < rank2[p]->0 by {
        if ready.contains(p as usize) {
            let i = choose|i: int| 0 <= i < ready.len() && ready[i] == p as usize;
            assert(ready[i] as int == p);
            assert(deps_all_placed(g, rank, ready[i] as int));
            assert(rank[d] is Some);
        } else {
            assert(rank[p] is Some);
        }
    }
    assert forall|p: int| 0 <= p < n && #[trigger] rank2[p] == Some(0usize) implies !has_workspace_deps(g, p) by {
        if ready.contains(p as usize) {
            let i = choose|i: int| 0 <= i < ready.len() && ready[i] == p as usize;
            assert(deps_all_placed(g, rank, ready[i] as int));
            if has_workspace_deps(g, p) {
                let d = choose|d: int| depends_on(g, p, d);
                assert(rank[d] is Some);
            }
        }
    }
    assert forall|p: int|
        0 <= p < n && #[trigger] rank2[p] is Some && rank2[p]->0 > 0 implies exists|d: int|
            depends_on(g, p, d) && rank2[d] == Some((rank2[p]->0 - 1) as usize) by {
        if ready.contains(p as usize) {
            let i = choose|i: int| 0 <= i < ready.len() && ready[i] == p as usize;
            assert(deps_all_placed(g, rank, ready[i] as int));
            assert(rank[p] is None);
            assert(rank2[p] == Some(rounds as usize));
            assert(rounds > 0);
            assert(exists|d: int|
                depends_on(g, p, d) && (rank[d] is None || rank[d] == Some((rounds - 1) as usize)));
            let d = choose|d: int|
                depends_on(g, p, d) && (rank[d] is None || rank[d] == Some((rounds - 1) as usize));
            assert(rank[d] is Some);
            assert(rank2[d] == rank[d]);
        } else {
            assert(rank[p] is Some);
            let d = choose|d: int| depends_on(g, p, d) && rank[d] == Some((rank[p]->0 - 1) as usize);
            assert(rank2[d] == rank[d]);
        }
    }
    assert forall|p: int|
        0 <= p < n && #[trigger] rank2[p] is None implies exists|d: int|
            depends_on(g, p, d) && (rank2[d] is None || rank2[d] == Some(rounds as usize)) by {
        assert(!ready.contains(p as usize));
        assert(rank[p] is None);
        assert(!deps_all_placed(g, rank, p));
        let d = choose|d: int| depends_on(g, p, d) && !(rank[d] is Some);
        if ready.contains(d as usize) {
            assert(rank2[d] == Some(rounds as usize));
        } else {
            assert(rank2[d] is None);
        }
    }
}

pub open spec fn levels_view(levels: Seq<Vec<usize>>) -> Seq<Seq<usize>> {
    Seq::new(levels.len(), |l: int| levels[l]@)
}

/// The packages that `ids` lists.
pub open spec fn id_set(ids: Seq<usize>) -> Set<int> {
    Set::new(|p: int| exists|i: int| 0 <= i < ids.len() && ids[i] as int == p)
}

fn all_unplaced(n: usize) -> (r: Vec<Option<usize>>)
    ensures
        r@.len() == n,
        forall|p: int| 0 <= p < n ==> #[trigger] r@[p] is None,
        count_placed(r@) == 0,
{
    let mut level_of: Vec<Option<usize>> = Vec::new();
    while level_of.len() < n
        invariant
            level_of@.len() <= n,
            forall|p: int| 0 <= p < level_of@.len() ==> #[trigger] level_of@[p] is None,
            count_placed(level_of@) == 0,
        decreases n - level_of@.len(),
    {
        let ghost before = level_of@;
        level_of.push(None);
        assert(level_of@.drop_last() =~= before);
    }
    level_of
}

/// Places each package of `ready`, all unplaced and listed in increasing
/// order, at level `round`.
fn place_all(level_of: &mut Vec<Option<usize>>, ready: &Vec<usize>, round: usize)
    requires
        forall|i: int|
            0 <= i < ready@.len() ==> #[trigger] ready@[i] < old(level_of)@.len() && old(level_of)@[ready@[i] as int] is None,
        forall|i: int, j: int| 0 <= i < j < ready@.len() ==> #[trigger] ready@[i] < #[trigger] ready@[j],
    ensures
        final(level_of)@.len() == old(level_of)@.len(),
        forall|p: int|
            0 <= p < old(level_of)@.len() ==> #[trigger] final(level_of)@[p] == if ready@.contains(p as usize) {
                Some(round)
            } else {
                old(level_of)@[p]
            },
        count_placed(final(level_of)@) == count_placed(old(level_of)@) + ready@.len(),
{
    let len = level_of.len();
    let ghost before = level_of@;
    let ghost n = before.len();
    let mut k: usize = 0;
    while k < ready.len()
        invariant
            k <= ready@.len(),
            level_of@.len() == n,
            before.len() == n,
            forall|i: int|
                0 <= i < ready@.len() ==> #[trigger] ready@[i] < n && before[ready@[i] as int] is None,
            forall|i: int, j: int| 0 <= i < j < ready@.len() ==> #[trigger] ready@[i] < #[trigger] ready@[j],
            forall|p: int|
                0 <= p < n ==> #[trigger] level_of@[p] == if exists|j: int|
                    0 <= j < k && ready@[j] as int == p {
                    Some(round)
                } else {
                    before[p]
                },
            count_placed(level_of@) == count_placed(before) + k,
        decreases ready@.len() - k,
    {
        let q = ready[k];
        assert(level_of@[q as int] is None) by {
            if exists|j: int| 0 <= j < k && ready@[j] as int == q as int {
                let j = choose|j: int| 0 <= j < k && ready@[j] as int == q as int;
                assert(ready@[j] < ready@[k as int]);
            }
        }
        proof {
            lemma_count_placed_update(level_of@, q as int, round);
        }
        level_of.set(q, Some(round));
        k = k + 1;
        assert forall|p: int| 0 <= p < n implies #[trigger] level_of@[p] == if exists|j: int|
            0 <= j < k && ready@[j] as int == p {
            Some(round)
        } else {
            before[p]
        } by {
            if p == q as int {
                assert(ready@[k - 1] as int == p);
            } else if exists|j: int| 0 <= j < k && ready@[j] as int == p {
                let j = choose|j: int| 0 <= j < k && ready@[j] as int == p;
                assert(j < k - 1);
            }
        }
    }
    assert forall|p: int| 0 <= p < n implies #[trigger] level_of@[p] == if ready@.contains(p as usize) {
        Some(round)
    } else {
        before[p]
    } by {
        if ready@.contains(p as usize) {
            let j = choose|j: int| 0 <= j < ready@.len() && ready@[j] == p as usize;
            assert(ready@[j] as int == p);
        }
    }
}

/// Places packages round by round until a round finds none to place; gives
/// the levels and the level of each placed package.
fn place_in_rounds(packages: &Vec<PackageInfo>) -> (r: (Vec<Vec<usize>>, Vec<Option<usize>>))
    ensures
        rounds_done(dependency_graph(packages@), levels_view(r.0@), r.1@),
        r.1@.len() == packages@.len(),
        ranked_below(dependency_graph(packages@), r.1@),
        forall|p: int|
            0 <= p < packages@.len() && #[trigger] r.1@[p] is None ==> !deps_all_placed(
                dependency_graph(packages@),
                r.1@,
                p,
            ),
{
    let ghost g = dependency_graph(packages@);
    let n = packages.len();
    let mut level_of = all_unplaced(n);
    let mut levels: Vec<Vec<usize>> = Vec::new();
    let mut placed: usize = 0;
    proof {
        lemma_rounds_start(g, level_of@);
    }
    loop
        invariant
            n == packages@.len(),
            g == dependency_graph(packages@),
            g.len() == n,
            level_of@.len() == n,
            rounds_done(g, levels_view(levels@), level_of@),
            placed == count_placed(level_of@),
            placed <= n,
            levels@.len() <= placed,
        ensures
            rounds_done(g, levels_view(levels@), level_of@),
            forall|p: int|
                0 <= p < n && #[trigger] level_of@[p] is None ==> !deps_all_placed(g, level_of@, p),
        decreases n - placed,
    {
        let ready = ready_packages(packages, &level_of);
        if ready.len() == 0 {
            assert forall|p: int|
                0 <= p < n && #[trigger] level_of@[p] is None implies !deps_all_placed(g, level_of@, p) by {
                if deps_all_placed(g, level_of@, p) {
                    assert(ready@.contains(p as usize));
                }
            }
            break;
        }
        let round = levels.len();
        let ghost before = level_of@;
        place_all(&mut level_of, &ready, round);
        proof {
            lemma_count_placed_bound(level_of@);
            lemma_round_step(g, levels_view(levels@), before, ready@, level_of@);
        }
        placed = placed + ready.len();
        let ghost old_levels = levels@;
        levels.push(ready);
        assert(levels_view(levels@) =~= levels_view(old_levels).push(ready@));
    }
    proof {
        lemma_rounds_done_facts(g, levels_view(levels@), level_of@);
    }
    (levels, level_of)
}

/// The unplaced packages, in increasing order.
fn unplaced_packages(level_of: &Vec<Option<usize>>) -> (r: Vec<usize>)
    ensures
        forall|q: int| id_set(r@).contains(q) <==> 0 <= q < level_of@.len() && #[trigger] level_of@[q] is None,
        forall|i: int, j: int| 0 <= i < j < r@.len() ==> #[trigger] r@[i] < #[trigger] r@[j],
{
    let n = level_of.len();
    let mut remaining: Vec<usize> = Vec::new();
    let mut p: usize = 0;
    while p < n
        invariant
            p <= n,
            n == level_of@.len(),
            forall|i: int|
                0 <= i < remaining@.len() ==> #[trigger] remaining@[i] < p && level_of@[remaining@[i] as int] is None,
            forall|q: int| 0 <= q < p && level_of@[q] is None ==> #[trigger] id_set(remaining@).contains(q),
            forall|i: int, j: int|
                0 <= i < j < remaining@.len() ==> #[trigger] remaining@[i] < #[trigger] remaining@[j],
        decreases n - p,
    {
        if level_of[p].is_none() {
            let ghost before = remaining@;
            remaining.push(p);
            assert forall|q: int| 0 <= q < p + 1 && level_of@[q] is None implies #[trigger] id_set(
                remaining@,
            ).contains(q) by {
                if q < p {
                    assert(id_set(before).contains(q));
                    let i = choose|i: int| 0 <= i < before.len() && before[i] as int == q;
                    assert(remaining@[i] as int == q);
                } else {
                    assert(remaining@[before.len() as int] as int == q);
                }
            }
        }
        p = p + 1;
    }
    assert forall|q: int| id_set(remaining@).contains(q) implies 0 <= q < n && #[trigger] level_of@[q] is None by {
        let i = choose|i: int| 0 <= i < remaining@.len() && remaining@[i] as int == q;
    }
    remaining
}

/// The level of each package, where every package is placed.
fn placed_levels(level_of: &Vec<Option<usize>>) -> (r: Vec<usize>)
    requires
        forall|q: int| 0 <= q < level_of@.len() ==> #[trigger] level_of@[q] is Some,
    ensures
        r@.len() == level_of@.len(),
        forall|q: int| 0 <= q < r@.len() ==> Some(#[trigger] r@[q]) == level_of@[q],
{
    let n = level_of.len();
    let mut id_to_level: Vec<usize> = Vec::new();
    let mut p: usize = 0;
    while p < n
        invariant
            p <= n,
            n == level_of@.len(),
            forall|q: int| 0 <= q < n ==> #[trigger] level_of@[q] is Some,
            id_to_level@.len() == p,
            forall|q: int| 0 <= q < p ==> Some(#[trigger] id_to_level@[q]) == level_of@[q],
        decreases n - p,
    {
        let l = match level_of[p] {
            Some(l) => l,
            None => 0,
        };
        id_to_level.push(l);
        p = p + 1;
    }
    id_to_level
}

proof fn lemma_blocked_member_in_range(g: Seq<Seq<usize>>, s: Set<int>, q: int)
    requires
        is_blocked_set(g, s),
        s.contains(q),
    ensures
        0 <= q < g.len(),
{
    reveal(is_blocked_set);
}

proof fn lemma_blocked_sets_unplaced(g: Seq<Seq<usize>>, rank: Seq<Option<usize>>, unplaced: Set<int>)
    requires
        rank.len() == g.len(),
        ranked_below(g, rank),
        forall|q: int| unplaced.contains(q) <==> 0 <= q < g.len() && #[trigger] rank[q] is None,
    ensures
        forall|s: Set<int>| #[trigger] is_blocked_set(g, s) ==> s.subset_of(unplaced),
{
    assert forall|s: Set<int>| #[trigger] is_blocked_set(g, s) implies s.subset_of(unplaced) by {
        assert forall|q: int| s.contains(q) implies unplaced.contains(q) by {
            lemma_blocked_member_in_range(g, s, q);
            if rank[q] is Some {
                lemma_ranked_not_blocked(g, rank, s, q);
            }
        }
    }
}

proof fn lemma_unplaced_blocked(g: Seq<Seq<usize>>, rank: Seq<Option<usize>>, unplaced: Set<int>)
    requires
        rank.len() == g.len(),
        forall|p: int| 0 <= p < g.len() && #[trigger] rank[p] is None ==> !deps_all_placed(g, rank, p),
        forall|q: int| unplaced.contains(q) <==> 0 <= q < g.len() && #[trigger] rank[q] is None,
    ensures
        is_blocked_set(g, unplaced),
{
    reveal(is_blocked_set);
    assert forall|p: int| unplaced.contains(p) implies 0 <= p < g.len() && exists|d: int|
        depends_on(g, p, d) && unplaced.contains(d) by {
        assert(rank[p] is None);
        assert(!deps_all_placed(g, rank, p));
        let d = choose|d: int| depends_on(g, p, d) && !(rank[d] is Some);
        assert(unplaced.contains(d));
    }
}

proof fn lemma_complete_layering(
    g: Seq<Seq<usize>>,
    levels: Seq<Seq<usize>>,
    rank: Seq<Option<usize>>,
    level_of: Seq<usize>,
)
    requires
        rounds_done(g, levels, rank),
        levels.len() <= usize::MAX,
        forall|q: int| 0 <= q < g.len() ==> #[trigger] rank[q] is Some,
        level_of.len() == g.len(),
        forall|q: int| 0 <= q < g.len() ==> Some(#[trigger] level_of[q]) == rank[q],
    ensures
        is_layering(g, levels, level_of),
        forall|p: int| 0 <= p < g.len() && !has_workspace_deps(g, p) ==> #[trigger] level_of[p] == 0,
{
    lemma_rounds_done_facts(g, levels, rank);
    assert forall|q: int| 0 <= q < g.len() implies (#[trigger] level_of[q] == 0 <==> !has_workspace_deps(g, q)) by {
        assert(rank[q] is Some);
        if level_of[q] == 0 {
            assert(rank[q] == Some(0usize));
        } else {
            let d = choose|d: int| depends_on(g, q, d) && rank[d] == Some((rank[q]->0 - 1) as usize);
        }
    }
    assert forall|p: int, d: int| #[trigger] depends_on(g, p, d) implies level_of[d] < level_of[p] by {
        assert(rank[p] is Some);
        assert(Some(level_of[d]) == rank[d]);
        assert(Some(level_of[p]) == rank[p]);
    }
    assert forall|p: int|
        0 <= p < g.len() && #[trigger] level_of[p] > 0 implies exists|d: int|
            depends_on(g, p, d) && level_of[d] == level_of[p] - 1 by {
        assert(rank[p] is Some);
        let d = choose|d: int| depends_on(g, p, d) && rank[d] == Some((rank[p]->0 - 1) as usize);
        assert(Some(level_of[d]) == rank[d]);
    }
    assert forall|p: int|
        0 <= p < g.len() implies #[trigger] level_of[p] < levels.len() && levels[level_of[p] as int].contains(
            p as usize,
        ) by {
        assert(rank[p] is Some);
    }
    assert forall|l: int, i: int|
        0 <= l < levels.len() && 0 <= i < levels[l].len() implies #[trigger] levels[l][i] < g.len()
            && level_of[levels[l][i] as int] == l by {
        assert(Some(level_of[levels[l][i] as int]) == rank[levels[l][i] as int]);
    }
    reveal(is_layering);
}

/// Plans the publish order of `packages`, identified by their indices: level
/// after level, each package as early as its workspace dependencies allow. A
/// dependency index outside the list is not a workspace package and is
/// ignored. Where some packages cannot be placed because of a cycle, the
/// result is an error that lists them, and no partial plan.
pub fn plan_publish_order(packages: Vec<PackageInfo>) -> (r: Result<PublishOrderData, PlanError>)
    ensures
        r is Ok <==> is_acyclic(dependency_graph(packages@)),
        match r {
            Ok(plan) => {
                &&& plan.id_to_package_info@ == packages@
                &&& is_layering(
                    dependency_graph(packages@),
                    levels_view(plan.levels@),
                    plan.id_to_level@,
                )
            },
            Err(PlanError::DependencyCycle(ids)) => {
                &&& ids@.len() > 0
                &&& forall|i: int, j: int| 0 <= i < j < ids@.len() ==> #[trigger] ids@[i] < #[trigger] ids@[j]
                &&& is_blocked_set(dependency_graph(packages@), id_set(ids@))
                &&& forall|s: Set<int>|
                    #[trigger] is_blocked_set(dependency_graph(packages@), s) ==> s.subset_of(id_set(ids@))
            },
        },
        r is Ok ==> forall|p: int|
            0 <= p < packages@.len() && !has_workspace_deps(dependency_graph(packages@), p)
                ==> #[trigger] r->Ok_0.id_to_level@[p] == 0,
{
    let ghost g = dependency_graph(packages@);
    let (levels, level_of) = place_in_rounds(&packages);
    let remaining = unplaced_packages(&level_of);
    proof {
        lemma_blocked_sets_unplaced(g, level_of@, id_set(remaining@));
    }
    if remaining.len() > 0 {
        proof {
            lemma_unplaced_blocked(g, level_of@, id_set(remaining@));
            assert(id_set(remaining@).contains(remaining@[0] as int));
        }
        return Err(PlanError::DependencyCycle(remaining));
    }
    assert forall|q: int| 0 <= q < g.len() implies #[trigger] level_of@[q] is Some by {
        if level_of@[q] is None {
            assert(id_set(remaining@).contains(q));
        }
    }
    assert forall|s: Set<int>| #[trigger] is_blocked_set(g, s) implies s.is_empty() by {
        assert forall|q: int| !s.contains(q) by {
            if s.contains(q) {
                assert(s.subset_of(id_set(remaining@)));
                assert(id_set(remaining@).contains(q));
                let i = choose|i: int| 0 <= i < remaining@.len() && remaining@[i] as int == q;
            }
        }
        assert(s =~= Set::<int>::empty());
    }
    let id_to_level = placed_levels(&level_of);
    let n_levels = levels.len();
    assert(levels_view(levels@).len() == n_levels);
    proof {
        lemma_complete_layering(g, levels_view(levels@), level_of@, id_to_level@);
    }
    Ok(PublishOrderData { levels, id_to_level, id_to_package_info: packages })
}

} // verus!
