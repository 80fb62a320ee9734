use vstd::prelude::*;

use crate::graph::{
    deps_ready, depends_on, is_chain, lemma_closed_set_has_cycle, lemma_edge_reaches, lemma_edge_then_reaches,
    lemma_reaches_then_edge, reaches, DepGraph,
};
use crate::id_map::IdMap;
use crate::module_ids::ModuleId;

verus! {

/// What solving a module left for its importers: its solved types, or
/// nothing usable when loading, parsing or solving it failed.
pub enum ModuleSubs<S> {
    Valid(S),
    Invalid,
}

/// One import of a module: its name and the id the registry gave it.
pub struct Dep {
    pub name: String,
    pub id: ModuleId,
}

/// An event sent to the coordinator by a worker.
///
/// `D` is a module's canonical declarations, `W` what solving it needs
/// (scope, constraint, next fresh variable), `S` its solved types and `P` a
/// problem found along the way.
pub enum Msg<D, W, S, P> {
    /// The header of `module_id` was parsed; these are its imports.
    DepsRequested { module_id: ModuleId, deps: Vec<Dep> },
    /// The body of `module_id` was canonicalized and constrained.
    Constrained { module_id: ModuleId, declarations: D, work: W },
    /// Solving `module_id` finished.
    Solved { module_id: ModuleId, solved: S, problems: Vec<P> },
    /// Loading `module_id` failed (missing file, parse failure).
    LoadFailed { module_id: ModuleId, problem: P },
    /// A problem that does not stop its module from loading (a header that
    /// declares another name than the one its path gives).
    Reported { problem: P },
}

/// A diagnostic collected during a load.
pub enum Problem<P> {
    /// Reported by a worker or by the solver.
    Module(P),
    /// These modules import each other in a cycle.
    CyclicImports(Vec<ModuleId>),
}

/// Work the coordinator asks its caller to start.
pub enum Action<W> {
    /// Load module `module_id`, named `name`, in the background.
    Load { name: String, module_id: ModuleId },
    /// Solve `module_id` with `work`, against the solved types of `deps`.
    Solve { module_id: ModuleId, work: W, deps: Vec<ModuleId> },
}

/// What a finished load hands back.
pub struct Finished<D, S, P> {
    pub root_id: ModuleId,
    pub solved: ModuleSubs<S>,
    pub problems: Vec<Problem<P>>,
    pub declarations: Option<D>,
    /// Every other solved module, for a later load to start from.
    pub solved_modules: Vec<(ModuleId, ModuleSubs<S>)>,
}

/// The scheduling state of one load.
///
/// Modules are keyed by id; ids stand for names one to one, so the set of
/// started ids is the set of started names.
pub struct Coordinator<D, W, S, P> {
    root_id: u64,
    started: IdMap<()>,
    deps: IdMap<Vec<ModuleId>>,
    declarations: IdMap<D>,
    pending: IdMap<W>,
    solving: IdMap<()>,
    solved: IdMap<ModuleSubs<S>>,
    problems: Vec<Problem<P>>,
}

/// How many of `marks` are set.
pub open spec fn count_true(marks: Seq<bool>) -> nat
    decreases marks.len(),
{
    if marks.len() == 0 {
        0
    } else {
        count_true(marks.drop_last()) + if marks.last() {
            1nat
        } else {
            0nat
        }
    }
}

proof fn lemma_count_none(marks: Seq<bool>)
    requires
        forall|k: int| 0 <= k < marks.len() ==> !#[trigger] marks[k],
    ensures
        count_true(marks) == 0,
    decreases marks.len(),
{
    if marks.len() > 0 {
        lemma_count_none(marks.drop_last());
    }
}

proof fn lemma_count_bound(marks: Seq<bool>)
    ensures
        count_true(marks) <= marks.len(),
    decreases marks.len(),
{
    if marks.len() > 0 {
        lemma_count_bound(marks.drop_last());
    }
}

proof fn lemma_count_set(marks: Seq<bool>, i: int)
    requires
        0 <= i < marks.len(),
        !marks[i],
    ensures
        count_true(marks.update(i, true)) == count_true(marks) + 1,
    decreases marks.len(),
{
    let u = marks.update(i, true);
    if i == marks.len() - 1 {
        assert(u.drop_last() =~= marks.drop_last());
    } else {
        assert(u.drop_last() =~= marks.drop_last().update(i, true));
        lemma_count_set(marks.drop_last(), i);
    }
}

/// `a` asks to solve `m`.
pub open spec fn is_solve_of<W>(a: Action<W>, m: u64) -> bool {
    match a {
        Action::Solve { module_id, .. } => module_id.id == m,
        Action::Load { .. } => false,
    }
}

/// `a` asks to load `m`.
pub open spec fn is_load_of<W>(a: Action<W>, m: u64) -> bool {
    match a {
        Action::Load { module_id, .. } => module_id.id == m,
        Action::Solve { .. } => false,
    }
}

/// `m` has a `Solve` action among `actions`.
pub open spec fn solve_dispatched<W>(actions: Seq<Action<W>>, m: u64) -> bool {
    exists|k: int| 0 <= k < actions.len() && is_solve_of(#[trigger] actions[k], m)
}

/// `m` has a `Load` action among `actions`.
pub open spec fn load_dispatched<W>(actions: Seq<Action<W>>, m: u64) -> bool {
    exists|k: int| 0 <= k < actions.len() && is_load_of(#[trigger] actions[k], m)
}

impl<D, W, S, P> Coordinator<D, W, S, P> {
    /// The root module.
    pub closed spec fn root(&self) -> u64 {
        self.root_id
    }

    /// Modules whose load was dispatched.
    pub closed spec fn started(&self) -> Set<u64> {
        self.started@.dom()
    }

    /// The imports each module's header declared.
    pub closed spec fn deps(&self) -> DepGraph {
        self.deps@.map_values(|v: Vec<ModuleId>| v@)
    }

    /// Modules whose declarations arrived.
    pub closed spec fn declared(&self) -> Map<u64, D> {
        self.declarations@
    }

    /// Constrained modules waiting for their imports to be solved.
    pub closed spec fn pending(&self) -> Set<u64> {
        self.pending@.dom()
    }

    /// Modules whose solving was dispatched.
    pub closed spec fn solving(&self) -> Set<u64> {
        self.solving@.dom()
    }

    /// Solved modules and what solving left.
    pub closed spec fn solved(&self) -> Map<u64, ModuleSubs<S>> {
        self.solved@
    }

    /// Problems collected so far, in order.
    pub closed spec fn problems(&self) -> Seq<Problem<P>> {
        self.problems@
    }

    /// The state's invariant: a module is pending, or being solved, or
    /// solved, never two of these at once, and a pending module was declared.
    pub closed spec fn inv(&self) -> bool {
        &&& self.started.wf()
        &&& self.deps.wf()
        &&& self.declarations.wf()
        &&& self.pending.wf()
        &&& self.solving.wf()
        &&& self.solved.wf()
        &&& forall|m: u64| #[trigger]
            self.pending@.contains_key(m) ==> !self.solving@.contains_key(m)
                && !self.solved@.contains_key(m) && self.declarations@.contains_key(m)
    }

    /// Nothing that was recorded is lost from `self` to `next`: started,
    /// declared and solved modules stay, and solved types never change.
    pub open spec fn grows_to(&self, next: &Self) -> bool {
        &&& self.root() == next.root()
        &&& self.started().subset_of(next.started())
        &&& self.declared().dom().subset_of(next.declared().dom())
        &&& self.solving().subset_of(next.solving())
        &&& self.solved().submap_of(next.solved())
        &&& self.problems().is_prefix_of(next.problems())
    }

    /// Every `Solve` action is for a module that was not being solved
    /// before, whose imports are all solved in `next`, and carries exactly
    /// those imports.
    pub open spec fn solves_gated(&self, next: &Self, actions: Seq<Action<W>>) -> bool {
        forall|k: int|
            0 <= k < actions.len() ==> match #[trigger] actions[k] {
                Action::Solve { module_id, deps, .. } => {
                    &&& !self.solving().contains(module_id.id)
                    &&& !self.solved().contains_key(module_id.id)
                    &&& next.solving().contains(module_id.id)
                    &&& deps_ready(next.deps(), next.solved().dom(), module_id.id)
                    &&& deps@ == next.deps()[module_id.id]
                },
                Action::Load { .. } => true,
            }
    }

    /// The modules being solved in `next` are those being solved in `self`
    /// and those that `actions` asks to solve: nothing else is marked.
    pub open spec fn solving_exact(&self, next: &Self, actions: Seq<Action<W>>) -> bool {
        forall|m: u64| #[trigger] next.solving().contains(m) <==> self.solving().contains(m)
            || solve_dispatched(actions, m)
    }

    /// Every `Load` action is for a module not started before and started
    /// in `next`, and no module gets two of them: each module is loaded at
    /// most once over a whole load.
    pub open spec fn loads_fresh(&self, next: &Self, actions: Seq<Action<W>>) -> bool {
        &&& forall|k: int|
            0 <= k < actions.len() && (#[trigger] actions[k]) is Load ==> {
                &&& !self.started().contains(actions[k]->Load_module_id.id)
                &&& next.started().contains(actions[k]->Load_module_id.id)
            }
        &&& forall|k1: int, k2: int|
            0 <= k1 < actions.len() && 0 <= k2 < actions.len() && k1 != k2
                && (#[trigger] actions[k1]) is Load && (#[trigger] actions[k2]) is Load
                ==> actions[k1]->Load_module_id != actions[k2]->Load_module_id
    }

    proof fn lemma_grows_trans(a: &Self, b: &Self, c: &Self)
        requires
            a.grows_to(b),
            b.grows_to(c),
        ensures
            a.grows_to(c),
    {
        assert forall|k: u64| #[trigger] a.solved().contains_key(k) implies c.solved().contains_key(k)
            && c.solved()[k] == a.solved()[k] by {
            assert(a.solved().dom().contains(k));
            assert(b.solved().dom().contains(k));
            assert(b.solved()[k] == a.solved()[k]);
            assert(c.solved().dom().contains(k));
            assert(c.solved()[k] == b.solved()[k]);
        }
        assert(a.solved().submap_of(c.solved()));
        assert(a.started().subset_of(c.started()));
        assert(a.declared().dom().subset_of(c.declared().dom()));
        assert(a.solving().subset_of(c.solving()));
        assert(a.problems().is_prefix_of(c.problems())) by {
            assert forall|k: int| 0 <= k < a.problems().len() implies a.problems()[k] == c.problems()[k] by {
                assert(b.problems()[k] == c.problems()[k]);
            }
        }
    }

    /// Without import cycles a load cannot get stuck: when every pending
    /// module's imports are recorded and each of them is pending or solved
    /// (no load or solve is still out), some pending module has all its
    /// imports solved, and so gets dispatched.
    pub proof fn lemma_acyclic_progress(c: &Self, x: u64)
        requires
            c.inv(),
            c.pending().contains(x),
            forall|m: u64| #[trigger] c.pending().contains(m) ==> c.deps().contains_key(m),
            forall|m: u64, i: int|
                c.pending().contains(m) && 0 <= i < c.deps()[m].len() ==> c.solved().contains_key(
                    #[trigger] c.deps()[m][i].id,
                ) || c.pending().contains(c.deps()[m][i].id),
            forall|y: u64| !reaches(c.deps(), y, y),
        ensures
            exists|m: u64| c.pending().contains(m) && deps_ready(c.deps(), c.solved().dom(), m),
    {
        if !exists|m: u64| c.pending().contains(m) && deps_ready(c.deps(), c.solved().dom(), m) {
            c.pending.lemma_dom_finite();
            assert forall|m: u64| #[trigger] c.pending().contains(m) implies exists|d: u64|
                c.pending().contains(d) && depends_on(c.deps(), m, d) by {
                assert(!deps_ready(c.deps(), c.solved().dom(), m));
                let i = choose|i: int| 0 <= i < c.deps()[m].len() && !c.solved().dom().contains(
                    #[trigger] c.deps()[m][i].id,
                );
                let d = c.deps()[m][i].id;
                assert(c.pending().contains(d));
                assert(depends_on(c.deps(), m, d));
            }
            lemma_closed_set_has_cycle(c.deps(), c.pending(), x);
        }
    }

    /// A coordinator for a load whose root module is `root`, with the root
    /// already started.
    pub fn new(root: ModuleId) -> (r: Self)
        ensures
            r.inv(),
            r.root() == root.id,
            r.started() == set![root.id],
            r.deps() == DepGraph::empty(),
            r.declared() == Map::<u64, D>::empty(),
            r.pending() == Set::<u64>::empty(),
            r.solving() == Set::<u64>::empty(),
            r.solved() == Map::<u64, ModuleSubs<S>>::empty(),
            r.problems() == Seq::<Problem<P>>::empty(),
    {
        let mut started = IdMap::new();
        started.insert(root.id, ());
        let r = Coordinator {
            root_id: root.id,
            started,
            deps: IdMap::new(),
            declarations: IdMap::new(),
            pending: IdMap::new(),
            solving: IdMap::new(),
            solved: IdMap::new(),
            problems: Vec::new(),
        };
        assert(r.started() =~= set![root.id]);
        assert(r.deps() =~= DepGraph::empty());
        r
    }

    /// Records that `module_id` was solved before this load began: it counts
    /// as started and solved, unless it already is.
    pub fn add_prior(&mut self, module_id: ModuleId, solved: S)
        requires
            old(self).inv(),
        ensures
            final(self).inv(),
            old(self).grows_to(final(self)),
            final(self).started() == old(self).started().insert(module_id.id),
            final(self).solved() == if old(self).solved().contains_key(module_id.id) {
                old(self).solved()
            } else {
                old(self).solved().insert(module_id.id, ModuleSubs::Valid(solved))
            },
            final(self).solving() == old(self).solving(),
            final(self).deps() == old(self).deps(),
            final(self).declared() == old(self).declared(),
            final(self).pending() == old(self).pending().remove(module_id.id),
    {
        self.started.insert(module_id.id, ());
        if !self.solved.contains_key(module_id.id) {
            let _ = self.pending.remove(module_id.id);
            self.solved.insert(module_id.id, ModuleSubs::Valid(solved));
        }
        proof {
            assert(self.started() =~= old(self).started().insert(module_id.id));
            assert(self.pending() =~= old(self).pending().remove(module_id.id));
        }
    }

    /// Whether the root module is solved, which ends the load.
    pub fn is_done(&self) -> (r: bool)
        requires
            self.inv(),
        ensures
            r == self.solved().contains_key(self.root()),
    {
        self.solved.contains_key(self.root_id)
    }

    /// What solving `id` left, once it is solved.
    pub fn solved_types(&self, id: ModuleId) -> (r: Option<&ModuleSubs<S>>)
        requires
            self.inv(),
        ensures
            r is Some <==> self.solved().contains_key(id.id),
            r is Some ==> *r->Some_0 == self.solved()[id.id],
    {
        self.solved.get(id.id)
    }

    /// Whether `a` imports `b`.
    fn has_edge(&self, a: u64, b: u64) -> (r: bool)
        requires
            self.inv(),
        ensures
            r == depends_on(self.deps(), a, b),
    {
        match self.deps.get(a) {
            None => false,
            Some(list) => {
                let mut i: usize = 0;
                while i < list.len()
                    invariant
                        i <= list@.len(),
                        list@ == self.deps()[a],
                        self.deps().contains_key(a),
                        forall|j: int| 0 <= j < i ==> list@[j].id != b,
                    decreases list@.len() - i,
                {
                    if list[i].id == b {
                        return true;
                    }
                    i += 1;
                }
                false
            },
        }
    }

    /// Whether every import of `m` is solved.
    fn ready(&self, m: u64) -> (r: bool)
        requires
            self.inv(),
        ensures
            r == deps_ready(self.deps(), self.solved().dom(), m),
    {
        match self.deps.get(m) {
            None => false,
            Some(list) => {
                let mut i: usize = 0;
                while i < list.len()
                    invariant
                        i <= list@.len(),
                        list@ == self.deps()[m],
                        self.deps().contains_key(m),
                        self.inv(),
                        forall|j: int| 0 <= j < i ==> self.solved().contains_key(#[trigger] list@[j].id),
                    decreases list@.len() - i,
                {
                    if !self.solved.contains_key(list[i].id) {
                        return false;
                    }
                    i += 1;
                }
                true
            },
        }
    }

    /// Whether `m` reaches `a` (`forward`) or `a` reaches `m` (otherwise).
    pub open spec fn linked(deps: DepGraph, m: u64, a: u64, forward: bool) -> bool {
        if forward {
            reaches(deps, m, a)
        } else {
            reaches(deps, a, m)
        }
    }

    /// One import step in the chosen direction: `from` imports `to`
    /// (`forward`), or `to` imports `from` (otherwise).
    pub open spec fn step(deps: DepGraph, from: u64, to: u64, forward: bool) -> bool {
        if forward {
            depends_on(deps, from, to)
        } else {
            depends_on(deps, to, from)
        }
    }

    /// No unmarked module among `ks` is one step from `m` or from a marked
    /// module.
    pub open spec fn marks_closed(deps: DepGraph, ks: Seq<u64>, marks: Seq<bool>, m: u64, forward: bool) -> bool {
        forall|i: int| 0 <= i < ks.len() && !(#[trigger] marks[i]) ==> {
            &&& !Self::step(deps, m, ks[i], forward)
            &&& forall|j: int| 0 <= j < ks.len() && #[trigger] marks[j] ==> !Self::step(deps, ks[j], ks[i], forward)
        }
    }

    /// Marks the modules among `ks` that `m` reaches (`forward`) or that
    /// reach `m` (otherwise), following imports until nothing changes.
    fn mark_linked(&self, ks: &Vec<u64>, m: u64, forward: bool) -> (r: Vec<bool>)
        requires
            self.inv(),
        ensures
            r@.len() == ks@.len(),
            forall|i: int| 0 <= i < ks@.len() && #[trigger] r@[i] ==> Self::linked(self.deps(), m, ks@[i], forward),
            Self::marks_closed(self.deps(), ks@, r@, m, forward),
    {
        let n = ks.len();
        let mut marks: Vec<bool> = Vec::new();
        let mut i: usize = 0;
        while i < n
            invariant
                n == ks@.len(),
                i <= n,
                marks@.len() == i,
                forall|k: int| 0 <= k < i ==> !#[trigger] marks@[k],
            decreases n - i,
        {
            marks.push(false);
            i += 1;
        }
        proof {
            lemma_count_none(marks@);
        }
        let mut changed = true;
        while changed
            invariant
                self.inv(),
                n == ks@.len(),
                marks@.len() == n,
                count_true(marks@) <= n,
                forall|k: int| 0 <= k < n && #[trigger] marks@[k] ==> Self::linked(self.deps(), m, ks@[k], forward),
                !changed ==> Self::marks_closed(self.deps(), ks@, marks@, m, forward),
            decreases n - count_true(marks@) + if changed { 1int } else { 0int },
        {
            changed = false;
            let ghost start_count = count_true(marks@);
            let mut i: usize = 0;
            while i < n
                invariant
                    self.inv(),
                    n == ks@.len(),
                    i <= n,
                    marks@.len() == n,
                    count_true(marks@) <= n,
                    changed ==> count_true(marks@) > start_count,
                    !changed ==> count_true(marks@) == start_count,
                    forall|k: int| 0 <= k < n && #[trigger] marks@[k] ==> Self::linked(self.deps(), m, ks@[k], forward),
                    !changed ==> forall|k: int| 0 <= k < i && !(#[trigger] marks@[k]) ==> {
                        &&& !Self::step(self.deps(), m, ks@[k], forward)
                        &&& forall|j: int| 0 <= j < n && #[trigger] marks@[j] ==> !Self::step(self.deps(), ks@[j], ks@[k], forward)
                    },
                decreases n - i,
            {
                if !marks[i] {
                    let a = ks[i];
                    let direct = if forward {
                        self.has_edge(m, a)
                    } else {
                        self.has_edge(a, m)
                    };
                    let mut found = direct;
                    if direct {
                        proof {
                            if forward {
                                lemma_edge_reaches(self.deps(), m, a);
                            } else {
                                lemma_edge_reaches(self.deps(), a, m);
                            }
                        }
                    } else {
                        let mut j: usize = 0;
                        while j < n && !found
                            invariant
                                self.inv(),
                                n == ks@.len(),
                                j <= n,
                                marks@.len() == n,
                                i < n,
                                a == ks@[i as int],
                                forall|k: int| 0 <= k < n && #[trigger] marks@[k] ==> Self::linked(self.deps(), m, ks@[k], forward),
                                found ==> Self::linked(self.deps(), m, a, forward),
                                !found ==> forall|k: int| 0 <= k < j && #[trigger] marks@[k] ==> !Self::step(self.deps(), ks@[k], a, forward),
                            decreases n - j,
                        {
                            if marks[j] {
                                let b = ks[j];
                                let hop = if forward {
                                    self.has_edge(b, a)
                                } else {
                                    self.has_edge(a, b)
                                };
                                if hop {
                                    proof {
                                        assert(Self::linked(self.deps(), m, ks@[j as int], forward));
                                        if forward {
                                            lemma_reaches_then_edge(self.deps(), m, b, a);
                                        } else {
                                            lemma_edge_then_reaches(self.deps(), a, b, m);
                                        }
                                    }
                                    found = true;
                                }
                            }
                            j += 1;
                        }
                    }
                    if found {
                        let ghost before = marks@;
                        marks.set(i, true);
                        proof {
                            lemma_count_set(before, i as int);
                            lemma_count_bound(marks@);
                        }
                        changed = true;
                    }
                }
                i += 1;
            }
        }
        marks
    }

    proof fn lemma_marked_key(ks: Seq<u64>, marks: Seq<bool>, deps: DepGraph, m: u64, forward: bool, y: u64) -> (i: int)
        requires
            ks.to_set() == deps.dom(),
            marks.len() == ks.len(),
            deps.contains_key(y),
        ensures
            0 <= i < ks.len(),
            ks[i] == y,
    {
        assert(ks.to_set().contains(y));
        choose|i: int| 0 <= i < ks.len() && ks[i] == y
    }

    /// With closed marks, every recorded module that `m` reaches is marked.
    proof fn lemma_forward_complete(
        deps: DepGraph,
        ks: Seq<u64>,
        marks: Seq<bool>,
        m: u64,
        p: Seq<u64>,
        k: int,
    )
        requires
            ks.to_set() == deps.dom(),
            marks.len() == ks.len(),
            Self::marks_closed(deps, ks, marks, m, true),
            is_chain(deps, p),
            p.len() >= 2,
            p[0] == m,
            1 <= k < p.len(),
            deps.contains_key(p[k]),
        ensures
            exists|i: int| 0 <= i < ks.len() && ks[i] == p[k] && marks[i],
        decreases k,
    {
        let i = Self::lemma_marked_key(ks, marks, deps, m, true, p[k]);
        assert(depends_on(deps, p[k - 1], p[(k - 1) + 1]));
        if k == 1 {
            assert(Self::step(deps, m, ks[i], true));
        } else {
            Self::lemma_forward_complete(deps, ks, marks, m, p, k - 1);
            let j = choose|j: int| 0 <= j < ks.len() && ks[j] == p[k - 1] && marks[j];
            assert(Self::step(deps, ks[j], ks[i], true));
        }
        assert(marks[i]);
    }

    /// With closed marks, every module that reaches `m` along `p` is marked.
    proof fn lemma_backward_complete(
        deps: DepGraph,
        ks: Seq<u64>,
        marks: Seq<bool>,
        m: u64,
        p: Seq<u64>,
        k: int,
    )
        requires
            ks.to_set() == deps.dom(),
            marks.len() == ks.len(),
            Self::marks_closed(deps, ks, marks, m, false),
            is_chain(deps, p),
            p.len() >= 2,
            p[p.len() - 1] == m,
            0 <= k < p.len() - 1,
        ensures
            exists|i: int| 0 <= i < ks.len() && ks[i] == p[k] && marks[i],
        decreases p.len() - k,
    {
        assert(depends_on(deps, p[k], p[k + 1]));
        let i = Self::lemma_marked_key(ks, marks, deps, m, false, p[k]);
        if k == p.len() - 2 {
            assert(Self::step(deps, m, ks[i], false));
        } else {
            Self::lemma_backward_complete(deps, ks, marks, m, p, k + 1);
            let j = choose|j: int| 0 <= j < ks.len() && ks[j] == p[k + 1] && marks[j];
            assert(Self::step(deps, ks[j], ks[i], false));
        }
        assert(marks[i]);
    }

    /// The recorded modules that `m` reaches and that reach `m` back: the
    /// modules on an import cycle through `m`.
    fn cycle_through(&self, m: u64) -> (r: Vec<ModuleId>)
        requires
            self.inv(),
        ensures
            forall|k: int| 0 <= k < r@.len() ==> reaches(self.deps(), m, #[trigger] r@[k].id)
                && reaches(self.deps(), r@[k].id, m),
            forall|x: u64| reaches(self.deps(), m, x) && reaches(self.deps(), x, m) ==> exists|k: int|
                0 <= k < r@.len() && (#[trigger] r@[k]).id == x,
            forall|k1: int, k2: int| 0 <= k1 < k2 < r@.len() ==> (#[trigger] r@[k1]).id != (#[trigger] r@[k2]).id,
    {
        let ks = self.deps.keys();
        let fwd = self.mark_linked(&ks, m, true);
        let bwd = self.mark_linked(&ks, m, false);
        let mut out: Vec<ModuleId> = Vec::new();
        let ghost mut idx: Seq<int> = Seq::empty();
        let mut i: usize = 0;
        while i < ks.len()
            invariant
                i <= ks@.len(),
                fwd@.len() == ks@.len(),
                bwd@.len() == ks@.len(),
                forall|k: int| 0 <= k < ks@.len() && #[trigger] fwd@[k] ==> Self::linked(self.deps(), m, ks@[k], true),
                forall|k: int| 0 <= k < ks@.len() && #[trigger] bwd@[k] ==> Self::linked(self.deps(), m, ks@[k], false),
                forall|k: int| 0 <= k < out@.len() ==> reaches(self.deps(), m, #[trigger] out@[k].id)
                    && reaches(self.deps(), out@[k].id, m),
                forall|k: int| 0 <= k < i && #[trigger] fwd@[k] && bwd@[k] ==> exists|q: int| 0 <= q < out@.len() && (#[trigger] out@[q]).id == ks@[k],
                crate::id_map::distinct_keys(ks@),
                idx.len() == out@.len(),
                forall|q: int| 0 <= q < out@.len() ==> 0 <= #[trigger] idx[q] < i && ks@[idx[q]] == out@[q].id,
                forall|q1: int, q2: int| 0 <= q1 < q2 < out@.len() ==> #[trigger] idx[q1] < #[trigger] idx[q2],
                forall|k1: int, k2: int| 0 <= k1 < k2 < out@.len() ==> (#[trigger] out@[k1]).id != (#[trigger] out@[k2]).id,
            decreases ks@.len() - i,
        {
            let ghost before = out@;
            if fwd[i] && bwd[i] {
                proof {
                    assert(Self::linked(self.deps(), m, ks@[i as int], true));
                    assert(Self::linked(self.deps(), m, ks@[i as int], false));
                }
                out.push(ModuleId { id: ks[i] });
                proof {
                    idx = idx.push(i as int);
                }
                assert(out@[out@.len() - 1].id == ks@[i as int]);
            }
            proof {
                assert forall|k: int| 0 <= k < i + 1 && #[trigger] fwd@[k] && bwd@[k] implies exists|q: int| 0 <= q < out@.len() && (#[trigger] out@[q]).id == ks@[k] by {
                    if k < i {
                        let q = choose|q: int| 0 <= q < before.len() && (#[trigger] before[q]).id == ks@[k];
                        assert(out@[q] == before[q]);
                    } else {
                        assert(out@[out@.len() - 1].id == ks@[i as int]);
                    }
                }
                assert forall|k1: int, k2: int| 0 <= k1 < k2 < out@.len() implies (#[trigger] out@[k1]).id != (#[trigger] out@[k2]).id by {
                    assert(idx[k1] < idx[k2]);
                    assert(ks@[idx[k1]] != ks@[idx[k2]]);
                }
            }
            i += 1;
        }
        proof {
            assert(self.deps().dom() =~= ks@.to_set());
            assert forall|x: u64| reaches(self.deps(), m, x) && reaches(self.deps(), x, m) implies exists|k: int|
                0 <= k < out@.len() && (#[trigger] out@[k]).id == x by {
                let p = choose|p: Seq<u64>|
                    #[trigger] is_chain(self.deps(), p) && p.len() >= 2 && p[0] == m && p[p.len() - 1] == x;
                let q = choose|q: Seq<u64>|
                    #[trigger] is_chain(self.deps(), q) && q.len() >= 2 && q[0] == x && q[q.len() - 1] == m;
                assert(depends_on(self.deps(), q[0], q[1]));
                Self::lemma_forward_complete(self.deps(), ks@, fwd@, m, p, p.len() - 1);
                Self::lemma_backward_complete(self.deps(), ks@, bwd@, m, q, 0);
                let a = choose|a: int| 0 <= a < ks@.len() && ks@[a] == x && fwd@[a];
                let b = choose|b: int| 0 <= b < ks@.len() && ks@[b] == x && bwd@[b];
                if a != b {
                    assert(ks@[a] != ks@[b]);
                }
                assert(fwd@[a] && bwd@[a]);
            }
        }
        out
    }

    /// The imports recorded for `m`, copied.
    fn deps_copy(&self, m: u64) -> (r: Vec<ModuleId>)
        requires
            self.inv(),
            self.deps().contains_key(m),
        ensures
            r@ == self.deps()[m],
    {
        let mut out: Vec<ModuleId> = Vec::new();
        match self.deps.get(m) {
            Some(list) => {
                let mut i: usize = 0;
                while i < list.len()
                    invariant
                        i <= list@.len(),
                        out@ == list@.subrange(0, i as int),
                    decreases list@.len() - i,
                {
                    out.push(list[i]);
                    assert(list@.subrange(0, i + 1) =~= list@.subrange(0, i as int).push(list@[i as int]));
                    i += 1;
                }
                assert(list@.subrange(0, list@.len() as int) =~= list@);
            },
            None => {},
        }
        out
    }

    /// Dispatches solving for every pending module whose imports are now
    /// all solved; the others stay pending.
    fn solve_unblocked(&mut self) -> (actions: Vec<Action<W>>)
        requires
            old(self).inv(),
        ensures
            final(self).inv(),
            old(self).grows_to(final(self)),
            old(self).solving_exact(final(self), actions@),
            old(self).solves_gated(final(self), actions@),
            final(self).started() == old(self).started(),
            final(self).deps() == old(self).deps(),
            final(self).declared() == old(self).declared(),
            final(self).solved() == old(self).solved(),
            final(self).problems() == old(self).problems(),
            final(self).pending().subset_of(old(self).pending()),
            forall|k: int| 0 <= k < actions@.len() ==> (#[trigger] actions@[k]) is Solve,
            forall|m: u64| #[trigger] old(self).pending().contains(m) ==> if deps_ready(
                old(self).deps(),
                old(self).solved().dom(),
                m,
            ) {
                !final(self).pending().contains(m) && solve_dispatched(actions@, m)
            } else {
                final(self).pending().contains(m)
            },
    {
        let ghost old_self = *self;
        let ks = self.pending.keys();
        let mut actions: Vec<Action<W>> = Vec::new();
        let mut i: usize = 0;
        while i < ks.len()
            invariant
                self.inv(),
                i <= ks@.len(),
                ks@.to_set() == old_self.pending(),
                crate::id_map::distinct_keys(ks@),
                old_self.grows_to(self),
                old_self.solving_exact(self, actions@),
                old_self.solves_gated(self, actions@),
                self.started() == old_self.started(),
                self.deps() == old_self.deps(),
                self.declared() == old_self.declared(),
                self.solved() == old_self.solved(),
                self.problems() == old_self.problems(),
                self.pending().subset_of(old_self.pending()),
                old_self.inv(),
                forall|k: int| 0 <= k < actions@.len() ==> (#[trigger] actions@[k]) is Solve,
                forall|j: int| 0 <= j < ks@.len() ==> if j < i && deps_ready(
                    old_self.deps(),
                    old_self.solved().dom(),
                    #[trigger] ks@[j],
                ) {
                    !self.pending().contains(ks@[j]) && solve_dispatched(actions@, ks@[j])
                } else {
                    self.pending().contains(ks@[j])
                },
            decreases ks@.len() - i,
        {
            let m = ks[i];
            proof {
                assert(ks@.to_set().contains(m));
                assert(self.pending().contains(m)) by {
                    assert(!(0 <= i < i));
                }
            }
            if self.ready(m) {
                let ghost before = *self;
                let ghost before_actions = actions@;
                match self.pending.remove(m) {
                    Some(work) => {
                        self.solving.insert(m, ());
                        let deps = self.deps_copy(m);
                        actions.push(Action::Solve { module_id: ModuleId { id: m }, work, deps });
                        proof {
                            assert(self.solving() =~= before.solving().insert(m));
                            assert(is_solve_of(actions@[actions@.len() - 1], m));
                            assert forall|x: u64| #[trigger] self.solving().contains(x) <==> old_self.solving().contains(x)
                                || solve_dispatched(actions@, x) by {
                                if solve_dispatched(before_actions, x) {
                                    let k = choose|k: int| 0 <= k < before_actions.len() && is_solve_of(#[trigger] before_actions[k], x);
                                    assert(actions@[k] == before_actions[k]);
                                }
                                if solve_dispatched(actions@, x) && x != m {
                                    let k = choose|k: int| 0 <= k < actions@.len() && is_solve_of(#[trigger] actions@[k], x);
                                    if k == actions@.len() - 1 {
                                        assert(false);
                                    }
                                    assert(actions@[k] == before_actions[k]);
                                }
                                if x == m {
                                    assert(solve_dispatched(actions@, x));
                                }
                            }
                            assert forall|k: int| 0 <= k < actions@.len() implies (#[trigger] actions@[k]) is Solve by {
                                if k < before_actions.len() {
                                    assert(actions@[k] == before_actions[k]);
                                }
                            }
                            assert forall|k: int| 0 <= k < actions@.len() implies match #[trigger] actions@[k] {
                                Action::Solve { module_id, deps, .. } => {
                                    &&& !old_self.solving().contains(module_id.id)
                                    &&& !old_self.solved().contains_key(module_id.id)
                                    &&& self.solving().contains(module_id.id)
                                    &&& deps_ready(self.deps(), self.solved().dom(), module_id.id)
                                    &&& deps@ == self.deps()[module_id.id]
                                },
                                Action::Load { .. } => true,
                            } by {
                                if k < before_actions.len() {
                                    assert(actions@[k] == before_actions[k]);
                                } else {
                                    assert(old_self.pending().contains(m));
                                    assert(old_self.pending@.contains_key(m));
                                }
                            }
                            assert forall|j: int| 0 <= j < ks@.len() implies if j < i + 1 && deps_ready(
                                old_self.deps(),
                                old_self.solved().dom(),
                                #[trigger] ks@[j],
                            ) {
                                !self.pending().contains(ks@[j]) && solve_dispatched(actions@, ks@[j])
                            } else {
                                self.pending().contains(ks@[j])
                            } by {
                                if j == i {
                                    assert(is_solve_of(actions@[actions@.len() - 1], ks@[j]));
                                } else {
                                    assert(ks@[j] != ks@[i as int]);
                                    if j < i && deps_ready(old_self.deps(), old_self.solved().dom(), ks@[j]) {
                                        let k = choose|k: int| 0 <= k < before_actions.len() && is_solve_of(#[trigger] before_actions[k], ks@[j]);
                                        assert(actions@[k] == before_actions[k]);
                                    }
                                }
                            }
                        }
                    },
                    None => {},
                }
            }
            i += 1;
        }
        proof {
            assert forall|m: u64| #[trigger] old_self.pending().contains(m) implies if deps_ready(
                old_self.deps(),
                old_self.solved().dom(),
                m,
            ) {
                !self.pending().contains(m) && solve_dispatched(actions@, m)
            } else {
                self.pending().contains(m)
            } by {
                assert(ks@.to_set().contains(m));
                let j = choose|j: int| 0 <= j < ks@.len() && ks@[j] == m;
                assert(ks@[j] == m);
            }
        }
        actions
    }

    /// What handling the imports `deps` of `module_id` does, from `self` to
    /// `next`, with `actions` the work it asks for.
    pub open spec fn after_deps_requested(
        &self,
        next: &Self,
        module_id: ModuleId,
        deps: Seq<Dep>,
        actions: Seq<Action<W>>,
    ) -> bool {
        &&& next.deps() == self.deps().insert(
            module_id.id,
            deps.map_values(|d: Dep| d.id),
        )
        &&& next.started() == self.started().union(
            deps.map_values(|d: Dep| d.id.id).to_set(),
        )
        &&& next.declared() == self.declared()
        &&& next.solved() == self.solved()
        &&& next.problems() == self.problems()
        &&& forall|i: int| #![trigger deps[i]]
            0 <= i < deps.len() && !self.started().contains(deps[i].id.id)
                ==> load_dispatched(actions, deps[i].id.id)
        &&& forall|k: int| #![trigger actions[k]]
            0 <= k < actions.len() && actions[k] is Load ==> {
                &&& !self.started().contains(actions[k]->Load_module_id.id)
                &&& exists|i: int| #![trigger deps[i]]
                    0 <= i < deps.len() && deps[i].id == actions[k]->Load_module_id
                        && deps[i].name@ == actions[k]->Load_name@
            }
        &&& forall|k1: int, k2: int|
            0 <= k1 < actions.len() && 0 <= k2 < actions.len() && k1 != k2
                && (#[trigger] actions[k1]) is Load && (#[trigger] actions[k2]) is Load
                ==> actions[k1]->Load_module_id != actions[k2]->Load_module_id
        &&& forall|m: u64| #[trigger] next.pending().contains(m) ==> self.pending().contains(m)
        &&& forall|m: u64| #[trigger] self.pending().contains(m) ==> (deps_ready(
            next.deps(),
            next.solved().dom(),
            m,
        ) <==> !next.pending().contains(m) && solve_dispatched(actions, m))
    }

    /// What handling the declarations of `module_id` does, from `self` to
    /// `next`, with `actions` the work it asks for.
    pub open spec fn after_constrained(
        &self,
        next: &Self,
        module_id: ModuleId,
        declarations: D,
        actions: Seq<Action<W>>,
    ) -> bool {
        &&& next.declared() == self.declared().insert(module_id.id, declarations)
        &&& next.started() == self.started()
        &&& next.deps() == self.deps()
        &&& !self.solved().contains_key(module_id.id) && !self.solving().contains(module_id.id)
            && !self.pending().contains(module_id.id)
            && !deps_ready(self.deps(), self.solved().dom(), module_id.id)
            && reaches(self.deps(), module_id.id, module_id.id) ==> {
            &&& next.problems().len() == self.problems().len() + 1
            &&& next.problems().last() is CyclicImports
            &&& next.solved().contains_key(module_id.id)
        }
        &&& ({
            let m = module_id.id;
            if self.solved().contains_key(m) || self.solving().contains(m)
                || self.pending().contains(m) {
                &&& actions.len() == 0
                &&& next.solved() == self.solved()
                &&& next.pending() == self.pending()
                &&& next.problems() == self.problems()
            } else if deps_ready(self.deps(), self.solved().dom(), m) {
                &&& actions.len() == 1
                &&& is_solve_of(actions[0], m)
                &&& next.solved() == self.solved()
                &&& next.pending() == self.pending()
                &&& next.problems() == self.problems()
            } else if next.problems() == self.problems() {
                &&& actions.len() == 0
                &&& next.solved() == self.solved()
                &&& next.pending() == self.pending().insert(m)
            } else {
                &&& next.problems().len() == self.problems().len() + 1
                &&& next.problems().last() is CyclicImports
                &&& Self::is_cycle_report(
                    self.deps(),
                    m,
                    next.problems().last()->CyclicImports_0@,
                )
                &&& forall|k: int|
                    0 <= k < next.problems().last()->CyclicImports_0@.len()
                        ==> next.solved().contains_key(
                        #[trigger] next.problems().last()->CyclicImports_0@[k].id,
                    )
                &&& forall|x: u64| #[trigger]
                    next.solved().contains_key(x) && !self.solved().contains_key(x)
                        ==> (next.solved()[x] is Invalid)
                &&& forall|x: u64| #[trigger] next.solved().contains_key(x) <==> self.solved().contains_key(x)
                    || exists|k: int| 0 <= k < next.problems().last()->CyclicImports_0@.len()
                        && (#[trigger] next.problems().last()->CyclicImports_0@[k]).id == x
                &&& next.pending().subset_of(self.pending().insert(m))
                &&& forall|x: u64| #[trigger] self.pending().insert(m).contains(x) && !next.solved().contains_key(x)
                    ==> (deps_ready(next.deps(), next.solved().dom(), x) <==> !next.pending().contains(x)
                        && solve_dispatched(actions, x))
            }
        })
    }

    /// What handling the solved types of `module_id` does, from `self` to
    /// `next`, with `actions` the work it asks for.
    pub open spec fn after_solved(
        &self,
        next: &Self,
        module_id: ModuleId,
        solved: S,
        problems: Seq<P>,
        actions: Seq<Action<W>>,
    ) -> bool {
        &&& next.problems() == self.problems() + problems.map_values(
            |p: P| Problem::Module(p),
        )
        &&& next.solved() == if self.solved().contains_key(module_id.id) {
            self.solved()
        } else {
            self.solved().insert(module_id.id, ModuleSubs::Valid(solved))
        }
        &&& next.started() == self.started()
        &&& next.deps() == self.deps()
        &&& next.declared() == self.declared()
        &&& forall|m: u64| #[trigger] next.pending().contains(m) ==> self.pending().contains(m)
        &&& forall|m: u64| #[trigger] self.pending().contains(m) && m != module_id.id ==> (deps_ready(
            next.deps(),
            next.solved().dom(),
            m,
        ) <==> !next.pending().contains(m) && solve_dispatched(actions, m))
    }

    /// What handling a failed load of `module_id` does, from `self` to
    /// `next`, with `actions` the work it asks for.
    pub open spec fn after_load_failed(
        &self,
        next: &Self,
        module_id: ModuleId,
        problem: P,
        actions: Seq<Action<W>>,
    ) -> bool {
        &&& next.problems() == self.problems().push(Problem::Module(problem))
        &&& next.solved() == if self.solved().contains_key(module_id.id) {
            self.solved()
        } else {
            self.solved().insert(module_id.id, ModuleSubs::Invalid)
        }
        &&& next.started() == self.started()
        &&& next.deps() == self.deps()
        &&& next.declared() == self.declared()
        &&& forall|m: u64| #[trigger] next.pending().contains(m) ==> self.pending().contains(m)
        &&& forall|m: u64| #[trigger] self.pending().contains(m) && m != module_id.id ==> (deps_ready(
            next.deps(),
            next.solved().dom(),
            m,
        ) <==> !next.pending().contains(m) && solve_dispatched(actions, m))
    }

    /// Records the imports of `module_id` and dispatches a load for each
    /// import not started yet, once per module however often it is listed.
    /// Pending modules whose imports are all solved are then dispatched.
    pub fn on_deps_requested(&mut self, module_id: ModuleId, deps: Vec<Dep>) -> (actions: Vec<
        Action<W>,
    >)
        requires
            old(self).inv(),
        ensures
            final(self).inv(),
            old(self).grows_to(final(self)),
            old(self).solving_exact(final(self), actions@),
            old(self).solves_gated(final(self), actions@),
            old(self).after_deps_requested(final(self), module_id, deps@, actions@),
    {
        let ghost old_self = *self;
        let mut ids: Vec<ModuleId> = Vec::new();
        let mut actions: Vec<Action<W>> = Vec::new();
        let mut i: usize = 0;
        while i < deps.len()
            invariant
                self.inv(),
                i <= deps@.len(),
                ids@ == deps@.subrange(0, i as int).map_values(|d: Dep| d.id),
                old_self.grows_to(self),
                self.deps() == old_self.deps(),
                self.declared() == old_self.declared(),
                self.solved() == old_self.solved(),
                self.pending() == old_self.pending(),
                self.solving() == old_self.solving(),
                self.problems() == old_self.problems(),
                self.started() == old_self.started().union(
                    deps@.subrange(0, i as int).map_values(|d: Dep| d.id.id).to_set(),
                ),
                forall|j: int| #![trigger deps@[j]]
                    0 <= j < i && !old_self.started().contains(deps@[j].id.id)
                        ==> load_dispatched(actions@, deps@[j].id.id),
                forall|k: int| #![trigger actions@[k]]
                    0 <= k < actions@.len() ==> actions@[k] is Load && {
                        &&& !old_self.started().contains(actions@[k]->Load_module_id.id)
                        &&& self.started().contains(actions@[k]->Load_module_id.id)
                        &&& exists|j: int| #![trigger deps@[j]]
                            0 <= j < deps@.len() && deps@[j].id == actions@[k]->Load_module_id
                                && deps@[j].name@ == actions@[k]->Load_name@
                    },
                forall|k1: int, k2: int|
                    0 <= k1 < actions@.len() && 0 <= k2 < actions@.len() && k1 != k2
                        ==> (#[trigger] actions@[k1])->Load_module_id != (#[trigger] actions@[k2])->Load_module_id,
            decreases deps@.len() - i,
        {
            let id = deps[i].id;
            ids.push(id);
            let ghost before = *self;
            let ghost before_actions = actions@;
            if !self.started.contains_key(id.id) {
                self.started.insert(id.id, ());
                let name = deps[i].name.clone();
                actions.push(Action::Load { name, module_id: id });
                proof {
                    assert(self.started() =~= before.started().insert(id.id));
                    assert(is_load_of(actions@[actions@.len() - 1], id.id));
                    assert forall|k: int| #![trigger actions@[k]] 0 <= k < actions@.len() - 1 implies actions@[k] == before_actions[k] by {}
                }
            }
            proof {
                let sub = deps@.subrange(0, i as int);
                let sub1 = deps@.subrange(0, i + 1);
                assert(sub1 =~= sub.push(deps@[i as int]));
                assert(sub1.map_values(|d: Dep| d.id) =~= sub.map_values(|d: Dep| d.id).push(id));
                assert(sub1.map_values(|d: Dep| d.id.id) =~= sub.map_values(|d: Dep| d.id.id).push(id.id));
                sub.map_values(|d: Dep| d.id.id).lemma_push_to_set_commute(id.id);
                assert(self.started() =~= old_self.started().union(sub1.map_values(|d: Dep| d.id.id).to_set()));
                assert forall|j: int| #![trigger deps@[j]]
                    0 <= j < i + 1 && !old_self.started().contains(deps@[j].id.id)
                        implies load_dispatched(actions@, deps@[j].id.id) by {
                    if j < i {
                        let k = choose|k: int| 0 <= k < before_actions.len() && is_load_of(#[trigger] before_actions[k], deps@[j].id.id);
                        assert(actions@[k] == before_actions[k]);
                    } else {
                        if before.started().contains(id.id) {
                            // started during this call: by an earlier import listing it
                            let ids_sub = sub.map_values(|d: Dep| d.id.id);
                            assert(ids_sub.to_set().contains(id.id));
                            assert(ids_sub.contains(id.id));
                            let j0 = choose|j0: int| 0 <= j0 < ids_sub.len() && #[trigger] ids_sub[j0] == id.id;
                            assert(ids_sub[j0] == deps@[j0].id.id);
                            let k = choose|k: int| 0 <= k < before_actions.len() && is_load_of(#[trigger] before_actions[k], deps@[j0].id.id);
                            assert(actions@[k] == before_actions[k]);
                        } else {
                            assert(is_load_of(actions@[actions@.len() - 1], id.id));
                        }
                    }
                }
                assert(ids@ =~= sub1.map_values(|d: Dep| d.id));
            }
            i += 1;
        }
        proof {
            assert(deps@.subrange(0, deps@.len() as int) =~= deps@);
        }
        self.deps.insert(module_id.id, ids);
        proof {
            assert(self.deps() =~= old_self.deps().insert(module_id.id, deps@.map_values(|d: Dep| d.id)));
        }
        let ghost mid = *self;
        let ghost load_actions = actions@;
        let mut solves_vec = self.solve_unblocked();
        let ghost solves = solves_vec;
        actions.append(&mut solves_vec);
        proof {
            let n = load_actions.len();
            assert forall|k: int| #![trigger actions@[k]] 0 <= k < n implies actions@[k] == load_actions[k] by {}
            assert forall|x: u64| #[trigger] self.solving().contains(x) <==> old_self.solving().contains(x)
                || solve_dispatched(actions@, x) by {
                if solve_dispatched(solves@, x) {
                    let k = choose|k: int| 0 <= k < solves@.len() && is_solve_of(#[trigger] solves@[k], x);
                    assert(actions@[k + n] == solves@[k]);
                }
                if solve_dispatched(actions@, x) {
                    let k = choose|k: int| 0 <= k < actions@.len() && is_solve_of(#[trigger] actions@[k], x);
                    if k < n {
                        assert(actions@[k] == load_actions[k]);
                    } else {
                        assert(actions@[k] == solves@[k - n]);
                    }
                }
            }
            assert forall|k: int| 0 <= k < actions@.len() implies match #[trigger] actions@[k] {
                Action::Solve { module_id, deps, .. } => {
                    &&& !old_self.solving().contains(module_id.id)
                    &&& !old_self.solved().contains_key(module_id.id)
                    &&& self.solving().contains(module_id.id)
                    &&& deps_ready(self.deps(), self.solved().dom(), module_id.id)
                    &&& deps@ == self.deps()[module_id.id]
                },
                Action::Load { .. } => true,
            } by {
                if k >= n {
                    assert(actions@[k] == solves@[k - n]);
                    assert(solves@[k - n] is Solve);
                }
            }
            assert forall|i: int| #![trigger deps@[i]]
                0 <= i < deps@.len() && !old_self.started().contains(deps@[i].id.id)
                    implies load_dispatched(actions@, deps@[i].id.id) by {
                let k = choose|k: int| 0 <= k < load_actions.len() && is_load_of(#[trigger] load_actions[k], deps@[i].id.id);
                assert(actions@[k] == load_actions[k]);
            }
            assert forall|k: int| #![trigger actions@[k]]
                0 <= k < actions@.len() && actions@[k] is Load implies {
                    &&& !old_self.started().contains(actions@[k]->Load_module_id.id)
                    &&& exists|i: int| #![trigger deps@[i]]
                        0 <= i < deps@.len() && deps@[i].id == actions@[k]->Load_module_id
                            && deps@[i].name@ == actions@[k]->Load_name@
                } by {
                if k >= n {
                    assert(actions@[k] == solves@[k - n]);
                    assert(solves@[k - n] is Solve);
                }
            }
            assert forall|k1: int, k2: int|
                0 <= k1 < actions@.len() && 0 <= k2 < actions@.len() && k1 != k2
                    && (#[trigger] actions@[k1]) is Load && (#[trigger] actions@[k2]) is Load
                    implies actions@[k1]->Load_module_id != actions@[k2]->Load_module_id by {
                if k1 >= n {
                    assert(actions@[k1] == solves@[k1 - n]);
                    assert(solves@[k1 - n] is Solve);
                }
                if k2 >= n {
                    assert(actions@[k2] == solves@[k2 - n]);
                    assert(solves@[k2 - n] is Solve);
                }
                assert(actions@[k1] == load_actions[k1]);
                assert(actions@[k2] == load_actions[k2]);
            }
            assert forall|m: u64| #[trigger] old_self.pending().contains(m) implies (deps_ready(
                self.deps(),
                self.solved().dom(),
                m,
            ) <==> !self.pending().contains(m) && solve_dispatched(actions@, m)) by {
                assert(mid.pending().contains(m));
                if solve_dispatched(solves@, m) {
                    let k = choose|k: int| 0 <= k < solves@.len() && is_solve_of(#[trigger] solves@[k], m);
                    assert(actions@[k + n] == solves@[k]);
                }
                if solve_dispatched(actions@, m) {
                    let k = choose|k: int| 0 <= k < actions@.len() && is_solve_of(#[trigger] actions@[k], m);
                    if k < n {
                        assert(actions@[k] == load_actions[k]);
                    }
                }
            }
        }
        actions
    }

    /// Marks `m` solved with nothing usable, unless it is solved already,
    /// and takes it out of the pending modules.
    fn poison(&mut self, m: u64)
        requires
            old(self).inv(),
        ensures
            final(self).inv(),
            old(self).grows_to(final(self)),
            final(self).started() == old(self).started(),
            final(self).deps() == old(self).deps(),
            final(self).declared() == old(self).declared(),
            final(self).solving() == old(self).solving(),
            final(self).problems() == old(self).problems(),
            final(self).pending() == old(self).pending().remove(m),
            final(self).solved() == if old(self).solved().contains_key(m) {
                old(self).solved()
            } else {
                old(self).solved().insert(m, ModuleSubs::Invalid)
            },
    {
        let _ = self.pending.remove(m);
        if !self.solved.contains_key(m) {
            self.solved.insert(m, ModuleSubs::Invalid);
        }
        proof {
            assert(self.pending() =~= old(self).pending().remove(m));
        }
    }

    /// Records the declarations of `module_id` and, unless the module was
    /// already handled, dispatches its solving when its imports are all
    /// solved, or else stashes it as pending. A pending module on an import
    /// cycle is reported with the cycle, and every module of the cycle is
    /// marked solved with nothing usable, so that importers can go on.
    pub fn on_constrained(&mut self, module_id: ModuleId, declarations: D, work: W) -> (actions:
        Vec<Action<W>>)
        requires
            old(self).inv(),
        ensures
            final(self).inv(),
            old(self).grows_to(final(self)),
            old(self).solving_exact(final(self), actions@),
            old(self).solves_gated(final(self), actions@),
            forall|k: int| 0 <= k < actions@.len() ==> (#[trigger] actions@[k]) is Solve,
            old(self).after_constrained(final(self), module_id, declarations, actions@),
    {
        let m = module_id.id;
        self.declarations.insert(m, declarations);
        if self.solved.contains_key(m) || self.solving.contains_key(m) || self.pending.contains_key(m) {
            return Vec::new();
        }
        if self.ready(m) {
            self.solving.insert(m, ());
            let deps = self.deps_copy(m);
            let mut actions: Vec<Action<W>> = Vec::new();
            actions.push(Action::Solve { module_id, work, deps });
            proof {
                assert(self.solving() =~= old(self).solving().insert(m));
                assert(is_solve_of(actions@[0], m));
            }
            return actions;
        }
        self.pending.insert(m, work);
        proof {
            assert(self.pending() =~= old(self).pending().insert(m));
        }
        let cycle = self.cycle_through(m);
        if cycle.len() == 0 {
            proof {
                if reaches(self.deps(), m, m) {
                    let k = choose|k: int| 0 <= k < cycle@.len() && (#[trigger] cycle@[k]).id == m;
                }
            }
            return Vec::new();
        }
        let ghost members = cycle@;
        let ghost mid = *self;
        let mut i: usize = 0;
        while i < cycle.len()
            invariant
                self.inv(),
                i <= cycle@.len(),
                mid.grows_to(self),
                self.started() == mid.started(),
                self.deps() == mid.deps(),
                self.declared() == mid.declared(),
                self.solving() == mid.solving(),
                self.problems() == mid.problems(),
                forall|k: int| 0 <= k < i ==> self.solved().contains_key(#[trigger] cycle@[k].id),
                forall|x: u64| #[trigger]
                    self.solved().contains_key(x) && !mid.solved().contains_key(x)
                        ==> self.solved()[x] is Invalid,
                forall|x: u64| #[trigger] self.solved().contains_key(x) <==> mid.solved().contains_key(x)
                    || exists|k: int| 0 <= k < i && (#[trigger] cycle@[k]).id == x,
                self.pending().subset_of(mid.pending()),
                forall|x: u64| #[trigger] mid.pending().contains(x) && !self.solved().contains_key(x)
                    ==> self.pending().contains(x),
            decreases cycle@.len() - i,
        {
            let ghost b = *self;
            self.poison(cycle[i].id);
            proof {
                Self::lemma_grows_trans(&mid, &b, self);
                let y = cycle@[i as int].id;
                assert forall|x: u64| #[trigger] self.solved().contains_key(x) <==> mid.solved().contains_key(x)
                    || exists|k: int| 0 <= k < i + 1 && (#[trigger] cycle@[k]).id == x by {
                    if exists|k: int| 0 <= k < i + 1 && (#[trigger] cycle@[k]).id == x {
                        let k = choose|k: int| 0 <= k < i + 1 && (#[trigger] cycle@[k]).id == x;
                        if k < i {
                            assert(b.solved().contains_key(x));
                        }
                    }
                    if b.solved().contains_key(x) && !mid.solved().contains_key(x) {
                        let k = choose|k: int| 0 <= k < i && (#[trigger] cycle@[k]).id == x;
                        assert(0 <= k < i + 1);
                    }
                    if x == y {
                        assert(cycle@[i as int].id == x);
                    }
                }
            }
            i += 1;
        }
        self.problems.push(Problem::CyclicImports(cycle));
        let ghost before = *self;
        let actions = self.solve_unblocked();
        proof {
            assert(self.problems().last() == Problem::<P>::CyclicImports(cycle));
            assert(mid.solved() == old(self).solved());
            assert(mid.pending() == old(self).pending().insert(m));
            assert forall|x: u64| #[trigger] old(self).pending().insert(m).contains(x) && !self.solved().contains_key(x)
                implies (deps_ready(self.deps(), self.solved().dom(), x) <==> !self.pending().contains(x)
                    && solve_dispatched(actions@, x)) by {
                assert(before.pending().contains(x));
            }
            if reaches(old(self).deps(), m, m) {
                let k = choose|k: int| 0 <= k < members.len() && (#[trigger] members[k]).id == m;
                assert(before.solved().contains_key(members[k].id));
            }
            assert(old(self).problems().is_prefix_of(self.problems())) by {
                assert(self.problems() == old(self).problems().push(self.problems().last()));
            }
            assert forall|k: int| 0 <= k < actions@.len() implies match #[trigger] actions@[k] {
                Action::Solve { module_id, deps, .. } => {
                    &&& !old(self).solving().contains(module_id.id)
                    &&& !old(self).solved().contains_key(module_id.id)
                    &&& self.solving().contains(module_id.id)
                    &&& deps_ready(self.deps(), self.solved().dom(), module_id.id)
                    &&& deps@ == self.deps()[module_id.id]
                },
                Action::Load { .. } => true,
            } by {
                assert(!before.solved().contains_key(actions@[k]->Solve_module_id.id));
                assert(!before.solving().contains(actions@[k]->Solve_module_id.id));
            }
        }
        actions
    }

    /// `c` lists exactly the modules on an import cycle through `m`, each
    /// once, and is not empty.
    pub open spec fn is_cycle_report(deps: DepGraph, m: u64, c: Seq<ModuleId>) -> bool {
        &&& c.len() > 0
        &&& forall|k1: int, k2: int| 0 <= k1 < k2 < c.len() ==> (#[trigger] c[k1]).id != (#[trigger] c[k2]).id
        &&& forall|k: int| 0 <= k < c.len() ==> reaches(deps, m, #[trigger] c[k].id) && reaches(deps, c[k].id, m)
        &&& forall|x: u64| reaches(deps, m, x) && reaches(deps, x, m) ==> exists|k: int|
            0 <= k < c.len() && (#[trigger] c[k]).id == x
    }

    /// Appends each of `problems` as a module problem, in order.
    fn add_module_problems(&mut self, problems: Vec<P>)
        requires
            old(self).inv(),
        ensures
            final(self).inv(),
            final(self).problems() == old(self).problems() + problems@.map_values(
                |p: P| Problem::Module(p),
            ),
            final(self).root() == old(self).root(),
            final(self).started() == old(self).started(),
            final(self).deps() == old(self).deps(),
            final(self).declared() == old(self).declared(),
            final(self).pending() == old(self).pending(),
            final(self).solving() == old(self).solving(),
            final(self).solved() == old(self).solved(),
    {
        let mut rest = problems;
        let ghost all = rest@;
        while rest.len() > 0
            invariant
                self.inv(),
                all.len() == self.problems().len() - old(self).problems().len() + rest@.len(),
                self.problems().len() >= old(self).problems().len(),
                self.problems() + rest@.map_values(|p: P| Problem::Module(p)) == old(self).problems()
                    + all.map_values(|p: P| Problem::Module(p)),
                self.root() == old(self).root(),
                self.started() == old(self).started(),
                self.deps() == old(self).deps(),
                self.declared() == old(self).declared(),
                self.pending() == old(self).pending(),
                self.solving() == old(self).solving(),
                self.solved() == old(self).solved(),
            decreases rest@.len(),
        {
            let ghost before = rest@;
            let ghost before_problems = self.problems();
            let p = rest.remove(0);
            self.problems.push(Problem::Module(p));
            proof {
                assert(before.map_values(|p: P| Problem::Module(p)) =~= seq![Problem::Module(p)]
                    + rest@.map_values(|p: P| Problem::Module(p)));
                assert(self.problems() + rest@.map_values(|p: P| Problem::Module(p)) =~= before_problems
                    + before.map_values(|p: P| Problem::Module(p)));
            }
        }
        proof {
            assert(rest@.map_values(|p: P| Problem::Module(p)) =~= Seq::<Problem<P>>::empty());
            assert(self.problems() =~= self.problems() + rest@.map_values(|p: P| Problem::Module(p)));
        }
    }

    /// Records the problems and solved types of `module_id`, unless it is
    /// solved already, then dispatches every pending module whose imports
    /// are now all solved.
    pub fn on_solved(&mut self, module_id: ModuleId, solved: S, problems: Vec<P>) -> (actions: Vec<
        Action<W>,
    >)
        requires
            old(self).inv(),
        ensures
            final(self).inv(),
            old(self).grows_to(final(self)),
            old(self).solving_exact(final(self), actions@),
            old(self).solves_gated(final(self), actions@),
            forall|k: int| 0 <= k < actions@.len() ==> (#[trigger] actions@[k]) is Solve,
            old(self).after_solved(final(self), module_id, solved, problems@, actions@),
    {
        self.add_module_problems(problems);
        let _ = self.pending.remove(module_id.id);
        if !self.solved.contains_key(module_id.id) {
            self.solved.insert(module_id.id, ModuleSubs::Valid(solved));
        }
        let ghost mid = *self;
        let actions = self.solve_unblocked();
        proof {
            assert(old(self).problems().is_prefix_of(self.problems()));
            assert forall|m: u64| #[trigger] old(self).pending().contains(m) && m != module_id.id implies (deps_ready(
                self.deps(),
                self.solved().dom(),
                m,
            ) <==> !self.pending().contains(m) && solve_dispatched(actions@, m)) by {
                assert(mid.pending().contains(m));
            }
            assert forall|k: int| 0 <= k < actions@.len() implies match #[trigger] actions@[k] {
                Action::Solve { module_id, deps, .. } => {
                    &&& !old(self).solving().contains(module_id.id)
                    &&& !old(self).solved().contains_key(module_id.id)
                    &&& self.solving().contains(module_id.id)
                    &&& deps_ready(self.deps(), self.solved().dom(), module_id.id)
                    &&& deps@ == self.deps()[module_id.id]
                },
                Action::Load { .. } => true,
            } by {
                assert(!mid.solved().contains_key(actions@[k]->Solve_module_id.id));
            }
        }
        actions
    }

    /// Records that loading `module_id` failed: the problem is kept, the
    /// module is marked solved with nothing usable so that its importers can
    /// go on, and every pending module whose imports are now all solved is
    /// dispatched.
    pub fn on_load_failed(&mut self, module_id: ModuleId, problem: P) -> (actions: Vec<Action<W>>)
        requires
            old(self).inv(),
        ensures
            final(self).inv(),
            old(self).grows_to(final(self)),
            old(self).solving_exact(final(self), actions@),
            old(self).solves_gated(final(self), actions@),
            forall|k: int| 0 <= k < actions@.len() ==> (#[trigger] actions@[k]) is Solve,
            old(self).after_load_failed(final(self), module_id, problem, actions@),
    {
        self.problems.push(Problem::Module(problem));
        self.poison(module_id.id);
        let ghost mid = *self;
        let actions = self.solve_unblocked();
        proof {
            assert(old(self).problems().is_prefix_of(self.problems()));
            assert forall|m: u64| #[trigger] old(self).pending().contains(m) && m != module_id.id implies (deps_ready(
                self.deps(),
                self.solved().dom(),
                m,
            ) <==> !self.pending().contains(m) && solve_dispatched(actions@, m)) by {
                assert(mid.pending().contains(m));
            }
            assert forall|k: int| 0 <= k < actions@.len() implies match #[trigger] actions@[k] {
                Action::Solve { module_id, deps, .. } => {
                    &&& !old(self).solving().contains(module_id.id)
                    &&& !old(self).solved().contains_key(module_id.id)
                    &&& self.solving().contains(module_id.id)
                    &&& deps_ready(self.deps(), self.solved().dom(), module_id.id)
                    &&& deps@ == self.deps()[module_id.id]
                },
                Action::Load { .. } => true,
            } by {
                assert(!mid.solved().contains_key(actions@[k]->Solve_module_id.id));
            }
        }
        actions
    }

    /// Records a problem that does not stop its module from loading; nothing
    /// else changes.
    pub fn on_reported(&mut self, problem: P)
        requires
            old(self).inv(),
        ensures
            final(self).inv(),
            old(self).grows_to(final(self)),
            final(self).problems() == old(self).problems().push(Problem::Module(problem)),
            final(self).started() == old(self).started(),
            final(self).deps() == old(self).deps(),
            final(self).declared() == old(self).declared(),
            final(self).pending() == old(self).pending(),
            final(self).solving() == old(self).solving(),
            final(self).solved() == old(self).solved(),
    {
        self.problems.push(Problem::Module(problem));
        assert(old(self).problems().is_prefix_of(self.problems()));
    }

    /// Handles one event and returns the work it asks for. Recorded modules,
    /// declarations and solved types are never lost, and a module's solving
    /// is dispatched only once, and only when all its imports are solved.
    pub fn handle(&mut self, msg: Msg<D, W, S, P>) -> (actions: Vec<Action<W>>)
        requires
            old(self).inv(),
        ensures
            final(self).inv(),
            old(self).grows_to(final(self)),
            old(self).solving_exact(final(self), actions@),
            old(self).solves_gated(final(self), actions@),
            old(self).loads_fresh(final(self), actions@),
            match msg {
                Msg::DepsRequested { module_id, deps } => old(self).after_deps_requested(
                    final(self),
                    module_id,
                    deps@,
                    actions@,
                ),
                Msg::Constrained { module_id, declarations, .. } => old(self).after_constrained(
                    final(self),
                    module_id,
                    declarations,
                    actions@,
                ),
                Msg::Solved { module_id, solved, problems } => old(self).after_solved(
                    final(self),
                    module_id,
                    solved,
                    problems@,
                    actions@,
                ),
                Msg::LoadFailed { module_id, problem } => old(self).after_load_failed(
                    final(self),
                    module_id,
                    problem,
                    actions@,
                ),
                Msg::Reported { problem } => {
                    &&& actions@.len() == 0
                    &&& final(self).problems() == old(self).problems().push(Problem::Module(problem))
                    &&& final(self).started() == old(self).started()
                    &&& final(self).deps() == old(self).deps()
                    &&& final(self).declared() == old(self).declared()
                    &&& final(self).pending() == old(self).pending()
                    &&& final(self).solved() == old(self).solved()
                },
            },
    {
        match msg {
            Msg::DepsRequested { module_id, deps } => {
                let actions = self.on_deps_requested(module_id, deps);
                proof {
                    assert forall|k: int|
                        0 <= k < actions@.len() && (#[trigger] actions@[k]) is Load implies self.started().contains(
                        actions@[k]->Load_module_id.id,
                    ) by {
                        let i = choose|i: int| #![trigger deps@[i]]
                            0 <= i < deps@.len() && deps@[i].id == actions@[k]->Load_module_id
                                && deps@[i].name@ == actions@[k]->Load_name@;
                        assert(deps@.map_values(|d: Dep| d.id.id)[i] == deps@[i].id.id);
                        assert(deps@.map_values(|d: Dep| d.id.id).to_set().contains(deps@[i].id.id));
                    }
                }
                actions
            },
            Msg::Constrained { module_id, declarations, work } => self.on_constrained(
                module_id,
                declarations,
                work,
            ),
            Msg::Solved { module_id, solved, problems } => self.on_solved(
                module_id,
                solved,
                problems,
            ),
            Msg::LoadFailed { module_id, problem } => self.on_load_failed(module_id, problem),
            Msg::Reported { problem } => {
                self.on_reported(problem);
                Vec::new()
            },
        }
    }

    /// Ends a load whose root is solved: the root's solved types, every
    /// problem collected, and the root's declarations if they arrived.
    pub fn finish(self) -> (r: Finished<D, S, P>)
        requires
            self.inv(),
            self.solved().contains_key(self.root()),
        ensures
            r.root_id.id == self.root(),
            r.solved == self.solved()[self.root()],
            r.problems@ == self.problems(),
            r.declarations is Some <==> self.declared().contains_key(self.root()),
            r.declarations is Some ==> r.declarations->Some_0 == self.declared()[self.root()],
            forall|k: int| 0 <= k < r.solved_modules@.len() ==> {
                let id = (#[trigger] r.solved_modules@[k]).0.id;
                &&& id != self.root()
                &&& self.solved().contains_key(id)
                &&& self.solved()[id] == r.solved_modules@[k].1
            },
            forall|id: u64| #[trigger] self.solved().contains_key(id) && id != self.root() ==> exists|k: int|
                0 <= k < r.solved_modules@.len() && (#[trigger] r.solved_modules@[k]).0.id == id,
    {
        let root = self.root_id;
        let mut solved = self.solved;
        let mut declarations = self.declarations;
        let s = match solved.remove(root) {
            Some(s) => s,
            None => ModuleSubs::Invalid,
        };
        let ghost rest = solved@;
        let solved_modules = solved.into_entries();
        proof {
            assert forall|id: u64| #[trigger] self.solved().contains_key(id) && id != self.root() implies exists|k: int|
                0 <= k < solved_modules@.len() && (#[trigger] solved_modules@[k]).0.id == id by {
                assert(rest.contains_key(id));
            }
        }
        let r = Finished {
            root_id: ModuleId { id: root },
            solved: s,
            problems: self.problems,
            declarations: declarations.remove(root),
            solved_modules,
        };
        proof {
            assert forall|id: u64| #[trigger] self.solved().contains_key(id) && id != self.root() implies exists|k: int|
                0 <= k < r.solved_modules@.len() && (#[trigger] r.solved_modules@[k]).0.id == id by {
                let k = choose|k: int| 0 <= k < solved_modules@.len() && (#[trigger] solved_modules@[k]).0.id == id;
                assert(r.solved_modules@[k] == solved_modules@[k]);
            }
        }
        r
    }
}

} // verus!
