use vstd::prelude::*;

use crate::module_ids::ModuleId;

verus! {

/// The imports recorded so far: each module's id to the ids of its imports.
pub type DepGraph = Map<u64, Seq<ModuleId>>;

/// `a` imports `b` directly.
pub open spec fn depends_on(deps: DepGraph, a: u64, b: u64) -> bool {
    deps.contains_key(a) && exists|i: int| 0 <= i < deps[a].len() && #[trigger] deps[a][i].id == b
}

/// `p` is a chain of imports: each module in it imports the next.
pub open spec fn is_chain(deps: DepGraph, p: Seq<u64>) -> bool {
    forall|i: int| 0 <= i < p.len() - 1 ==> depends_on(deps, #[trigger] p[i], p[i + 1])
}

/// `a` depends on `b`, directly or through other imports.
pub open spec fn reaches(deps: DepGraph, a: u64, b: u64) -> bool {
    exists|p: Seq<u64>|
        #[trigger] is_chain(deps, p) && p.len() >= 2 && p[0] == a && p[p.len() - 1] == b
}

/// Every import of `m` is solved.
pub open spec fn deps_ready(deps: DepGraph, solved: Set<u64>, m: u64) -> bool {
    deps.contains_key(m) && forall|i: int| 0 <= i < deps[m].len() ==> solved.contains(
        #[trigger] deps[m][i].id,
    )
}

pub proof fn lemma_edge_reaches(deps: DepGraph, a: u64, b: u64)
    requires
        depends_on(deps, a, b),
    ensures
        reaches(deps, a, b),
{
    let p = seq![a, b];
    assert(is_chain(deps, p));
}

/// Reaching `x` and then importing `y` reaches `y`.
pub proof fn lemma_reaches_then_edge(deps: DepGraph, a: u64, x: u64, y: u64)
    requires
        reaches(deps, a, x),
        depends_on(deps, x, y),
    ensures
        reaches(deps, a, y),
{
    let p = choose|p: Seq<u64>|
        #[trigger] is_chain(deps, p) && p.len() >= 2 && p[0] == a && p[p.len() - 1] == x;
    let q = p.push(y);
    assert forall|i: int| 0 <= i < q.len() - 1 implies depends_on(deps, #[trigger] q[i], q[i + 1]) by {
        if i < p.len() - 1 {
            assert(depends_on(deps, p[i], p[i + 1]));
        }
    }
    assert(is_chain(deps, q));
}

/// Importing `y` and then reaching `m` reaches `m`.
pub proof fn lemma_edge_then_reaches(deps: DepGraph, x: u64, y: u64, m: u64)
    requires
        depends_on(deps, x, y),
        reaches(deps, y, m),
    ensures
        reaches(deps, x, m),
{
    let p = choose|p: Seq<u64>|
        #[trigger] is_chain(deps, p) && p.len() >= 2 && p[0] == y && p[p.len() - 1] == m;
    let q = seq![x] + p;
    assert forall|i: int| 0 <= i < q.len() - 1 implies depends_on(deps, #[trigger] q[i], q[i + 1]) by {
        if i > 0 {
            assert(q[i] == p[i - 1] && q[i + 1] == p[i]);
            assert(depends_on(deps, p[i - 1], p[(i - 1) + 1]));
        }
    }
    assert(is_chain(deps, q));
}

/// An import of `m` that lies in `waiting`.
spec fn waiting_dep(deps: DepGraph, waiting: Set<u64>, m: u64) -> u64 {
    choose|d: u64| waiting.contains(d) && depends_on(deps, m, d)
}

/// The module reached from `x` after `n` steps of `waiting_dep`.
spec fn walk(deps: DepGraph, waiting: Set<u64>, x: u64, n: nat) -> u64
    decreases n,
{
    if n == 0 {
        x
    } else {
        waiting_dep(deps, waiting, walk(deps, waiting, x, (n - 1) as nat))
    }
}

proof fn lemma_walk_stays(deps: DepGraph, waiting: Set<u64>, x: u64, n: nat)
    requires
        waiting.contains(x),
        forall|m: u64| #[trigger] waiting.contains(m) ==> exists|d: u64|
            waiting.contains(d) && depends_on(deps, m, d),
    ensures
        waiting.contains(walk(deps, waiting, x, n)),
        depends_on(deps, walk(deps, waiting, x, n), walk(deps, waiting, x, n + 1)),
    decreases n,
{
    if n > 0 {
        lemma_walk_stays(deps, waiting, x, (n - 1) as nat);
    }
    let w = walk(deps, waiting, x, n);
    assert(waiting.contains(w));
    assert(walk(deps, waiting, x, n + 1) == waiting_dep(deps, waiting, w));
}

/// In a finite set of modules each of which imports a module of the set,
/// some module lies on an import cycle.
pub proof fn lemma_closed_set_has_cycle(deps: DepGraph, waiting: Set<u64>, x: u64)
    requires
        waiting.finite(),
        waiting.contains(x),
        forall|m: u64| #[trigger] waiting.contains(m) ==> exists|d: u64|
            waiting.contains(d) && depends_on(deps, m, d),
    ensures
        exists|y: u64| waiting.contains(y) && reaches(deps, y, y),
{
    let n = waiting.len();
    let w = Seq::new(n + 1, |i: int| walk(deps, waiting, x, i as nat));
    assert forall|i: int| 0 <= i < w.len() implies waiting.contains(#[trigger] w[i]) by {
        lemma_walk_stays(deps, waiting, x, i as nat);
    }
    if w.no_duplicates() {
        w.unique_seq_to_set();
        assert(w.to_set().subset_of(waiting));
        vstd::set_lib::lemma_len_subset(w.to_set(), waiting);
        assert(false);
    } else {
        let (i, j) = choose|i: int, j: int| 0 <= i < w.len() && 0 <= j < w.len() && i != j && w[i] == w[j];
        let a = if i < j { i } else { j };
        let b = if i < j { j } else { i };
        let p = w.subrange(a, b + 1);
        assert forall|k: int| 0 <= k < p.len() - 1 implies depends_on(deps, #[trigger] p[k], p[k + 1]) by {
            lemma_walk_stays(deps, waiting, x, (a + k) as nat);
            assert(p[k] == walk(deps, waiting, x, (a + k) as nat));
            assert(p[k + 1] == walk(deps, waiting, x, (a + k + 1) as nat));
        }
        assert(is_chain(deps, p));
        assert(p[0] == w[a] && p[p.len() - 1] == w[b]);
        assert(reaches(deps, w[a], w[a]));
        assert(waiting.contains(w[a]));
    }
}

} // verus!
