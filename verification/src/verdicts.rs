//! Whether calling a proc can park its caller.
//!
//! Setting `waitfor = 0` leaves the setter's verdict as it is: a compiled
//! frame has nowhere for BYOND to read that from. Only a callee's does: a callee with
//! `waitfor = 0` stops BYOND's walk up the callers, so nothing below it can
//! park anything above it.

use vstd::prelude::*;
use crate::intern::{visit_index_entries, VisitIndex};
use crate::laws::{
    lemma_caller_of_parking_callee_parks, lemma_judged_procs_are_the_non_builtins,
    lemma_parking_body_gets_parking_verdict, lemma_waitfor_zero_callees_shield,
};
use crate::model::AnalyzeObjectTree;
use crate::visits::Visit;

verus! {

/// The key under which a visit is interned: its four fields.
pub open spec fn visit_key(v: Visit) -> (usize, usize, bool, bool) {
    (v.proc, v.receiver, v.is_exact, v.receiver_is_stable)
}

impl AnalyzeObjectTree {
    /// The walk goes from `v` to `t`: running `v` can go to `t`, and `t`'s
    /// proc does not set `waitfor = 0`.
    pub open spec fn steps_to(&self, v: Visit, t: Visit) -> bool {
        &&& self.is_target(v, t)
        &&& !self.procs@[t.proc as int].sets_waitfor_zero
    }

    /// Running `v` parks its caller by itself: its proc sleeps, or it makes a
    /// call that could not be tied to a proc and such calls count as sleeping.
    pub open spec fn parks_directly(&self, v: Visit, unresolved_calls_sleep: bool) -> bool {
        ||| self.procs@[v.proc as int].sleeps
        ||| (unresolved_calls_sleep && self.procs@[v.proc as int].has_unresolved_call)
    }

    /// The walk goes from the `i`-th visit of `path` to the next.
    pub open spec fn steps_at(&self, path: Seq<Visit>, i: int) -> bool {
        self.steps_to(path[i], path[i + 1])
    }

    /// `path` is a walk whose last visit parks its caller by itself.
    pub open spec fn is_parking_path(&self, path: Seq<Visit>, unresolved_calls_sleep: bool) -> bool {
        &&& path.len() >= 1
        &&& forall|i: int| 0 <= i < path.len() - 1 ==> #[trigger] self.steps_at(path, i)
        &&& self.parks_directly(path.last(), unresolved_calls_sleep)
    }

    /// Running `v` can park its caller: some walk from `v` reaches a visit
    /// that parks its caller by itself.
    pub open spec fn can_park(&self, v: Visit, unresolved_calls_sleep: bool) -> bool {
        exists|path: Seq<Visit>|
            #[trigger] self.is_parking_path(path, unresolved_calls_sleep) && path[0] == v
    }

    /// The procs that get a verdict, among the first `n`: the ones that are
    /// not builtins, in order.
    pub open spec fn judged_procs(&self, n: int) -> Seq<usize>
        decreases n,
    {
        if n <= 0 {
            Seq::empty()
        } else if self.procs@[n - 1].is_builtin {
            self.judged_procs(n - 1)
        } else {
            self.judged_procs(n - 1).push((n - 1) as usize)
        }
    }

    /// Every proc that is not a builtin, in order, with whether calling it
    /// can park the caller.
    pub open spec fn sleep_verdicts_spec(&self, unresolved_calls_sleep: bool) -> Seq<(usize, bool)> {
        self.judged_procs(self.procs@.len() as int).map_values(
            |p: usize| (p, self.can_park(self.exact_visit(p as int), unresolved_calls_sleep)),
        )
    }
}

/// The visits met so far, the index that finds them, and for each the
/// visits that go to it.
struct CallGraph {
    visits: Vec<Visit>,
    index: VisitIndex,
    callers: Vec<Vec<usize>>,
}

impl CallGraph {
    /// The index maps each visit's key to its position and nothing else, and
    /// each visit has its list of callers.
    spec fn wf(&self) -> bool {
        &&& self.callers@.len() == self.visits@.len()
        &&& forall|i: int|
            0 <= i < self.visits@.len() ==> {
                &&& visit_index_entries(self.index).contains_key(visit_key(#[trigger] self.visits@[i]))
                &&& visit_index_entries(self.index)[visit_key(self.visits@[i])] == i
            }
        &&& forall|k: (usize, usize, bool, bool)|
            #[trigger] visit_index_entries(self.index).contains_key(k) ==> {
                &&& visit_index_entries(self.index)[k] < self.visits@.len()
                &&& visit_key(self.visits@[visit_index_entries(self.index)[k] as int]) == k
            }
    }

    /// `other` holds every visit of `self` at the same position, and every
    /// caller that `self` records.
    spec fn grows_to(&self, other: &CallGraph) -> bool {
        &&& self.visits@.len() <= other.visits@.len()
        &&& forall|i: int| 0 <= i < self.visits@.len() ==> other.visits@[i] == #[trigger] self.visits@[i]
        &&& forall|i: int, c: usize|
            0 <= i < self.visits@.len() && #[trigger] self.callers@[i]@.contains(c)
                ==> other.callers@[i]@.contains(c)
    }

    fn new() -> (graph: CallGraph)
        ensures
            graph.wf(),
            graph.visits@.len() == 0,
    {
        CallGraph { visits: Vec::new(), index: VisitIndex::new(), callers: Vec::new() }
    }

    /// The position of `visit`, which is added with no callers where it is
    /// new.
    fn intern(&mut self, visit: Visit) -> (position: usize)
        requires
            old(self).wf(),
        ensures
            final(self).wf(),
            old(self).grows_to(final(self)),
            position < final(self).visits@.len(),
            final(self).visits@[position as int] == visit,
            old(self).visits@.contains(visit) ==> final(self).visits@ == old(self).visits@
                && final(self).callers@ == old(self).callers@,
            !old(self).visits@.contains(visit) ==> {
                &&& final(self).visits@ == old(self).visits@.push(visit)
                &&& final(self).callers@.len() == old(self).callers@.len() + 1
                &&& forall|i: int|
                    0 <= i < old(self).callers@.len() ==> final(self).callers@[i]
                        == old(self).callers@[i]
                &&& final(self).callers@[position as int]@.len() == 0
            },
    {
        let key = (visit.proc, visit.receiver, visit.is_exact, visit.receiver_is_stable);
        match self.index.get(key) {
            Some(position) => {
                proof {
                    let p = visit_index_entries(self.index)[key];
                    assert(visit_key(self.visits@[p as int]) == key);
                    assert(self.visits@[p as int] == visit);
                }
                position
            },
            None => {
                proof {
                    assert forall|i: int| 0 <= i < self.visits@.len() implies self.visits@[i]
                        != visit by {
                        assert(visit_index_entries(self.index).contains_key(
                            visit_key(self.visits@[i]),
                        ));
                    }
                }
                self.visits.push(visit);
                self.callers.push(Vec::new());
                let position = self.visits.len() - 1;
                self.index.insert(key, position);
                proof {
                    assert forall|i: int| 0 <= i < old(self).callers@.len() implies #[trigger] self.callers@[i]
                        == old(self).callers@[i] by {}
                }
                position
            },
        }
    }

    /// Records that the visit at `from` goes to the visit at `to`.
    fn add_caller(&mut self, to: usize, from: usize)
        requires
            old(self).wf(),
            to < old(self).visits@.len(),
        ensures
            final(self).wf(),
            old(self).grows_to(final(self)),
            final(self).visits@ == old(self).visits@,
            final(self).callers@.len() == old(self).callers@.len(),
            forall|i: int|
                0 <= i < old(self).callers@.len() && i != to ==> final(self).callers@[i]
                    == old(self).callers@[i],
            final(self).callers@[to as int]@ == old(self).callers@[to as int]@.push(from),
    {
        self.callers[to].push(from);
        proof {
            assert forall|i: int, c: usize|
                0 <= i < old(self).visits@.len() && #[trigger] old(self).callers@[i]@.contains(c)
                    implies self.callers@[i]@.contains(c) by {
                if i == to {
                    let k = choose|k: int|
                        0 <= k < old(self).callers@[i]@.len() && old(self).callers@[i]@[k] == c;
                    assert(self.callers@[i]@[k] == c);
                }
            }
        }
    }
}

impl CallGraph {
    /// Every visit met names a proc and a type that exist.
    spec fn visits_valid(&self, a: &AnalyzeObjectTree) -> bool {
        forall|i: int| 0 <= i < self.visits@.len() ==> a.visit_valid(#[trigger] self.visits@[i])
    }

    /// Every recorded caller is a visit met, and the walk goes from it to the
    /// visit it is recorded for.
    spec fn callers_sound(&self, a: &AnalyzeObjectTree) -> bool {
        forall|to: int, k: int|
            0 <= to < self.visits@.len() && 0 <= k < self.callers@[to]@.len() ==> {
                &&& (#[trigger] self.callers@[to]@[k]) < self.visits@.len()
                &&& a.steps_to(self.visits@[self.callers@[to]@[k] as int], self.visits@[to])
            }
    }

    /// `t` was met, with the visit at `from` recorded as its caller.
    spec fn has_edge(&self, from: int, t: Visit) -> bool {
        exists|to: int|
            0 <= to < self.visits@.len() && self.visits@[to] == t
                && #[trigger] self.callers@[to]@.contains(from as usize)
    }

    /// Every visit that the walk goes to from the visit at `from` was met,
    /// with `from` recorded as its caller.
    spec fn expanded(&self, a: &AnalyzeObjectTree, from: int) -> bool {
        forall|t: Visit| #[trigger] a.steps_to(self.visits@[from], t) ==> self.has_edge(from, t)
    }
}

proof fn lemma_grows_to_transitive(g1: &CallGraph, g2: &CallGraph, g3: &CallGraph)
    requires
        g1.grows_to(g2),
        g2.grows_to(g3),
    ensures
        g1.grows_to(g3),
{
    assert forall|i: int, c: usize|
        0 <= i < g1.visits@.len() && #[trigger] g1.callers@[i]@.contains(c) implies g3.callers@[
        i
    ]@.contains(c) by {
        assert(g2.callers@[i]@.contains(c));
    }
    assert forall|i: int| 0 <= i < g1.visits@.len() implies g3.visits@[i]
        == #[trigger] g1.visits@[i] by {
        assert(g2.visits@[i] == g1.visits@[i]);
    }
}

proof fn lemma_grows_to_keeps_edge(g1: &CallGraph, g2: &CallGraph, from: int, t: Visit)
    requires
        g1.grows_to(g2),
        g1.has_edge(from, t),
    ensures
        g2.has_edge(from, t),
{
    let to = choose|to: int|
        0 <= to < g1.visits@.len() && g1.visits@[to] == t
            && #[trigger] g1.callers@[to]@.contains(from as usize);
    assert(g2.visits@[to] == g1.visits@[to]);
    assert(g2.callers@[to]@.contains(from as usize));
}

proof fn lemma_wf_no_duplicates(g: &CallGraph)
    requires
        g.wf(),
    ensures
        g.visits@.no_duplicates(),
{
    assert forall|i: int, j: int|
        0 <= i < g.visits@.len() && 0 <= j < g.visits@.len() && i != j implies g.visits@[i]
        != g.visits@[j] by {
        assert(visit_index_entries(g.index)[visit_key(g.visits@[i])] == i);
        assert(visit_index_entries(g.index)[visit_key(g.visits@[j])] == j);
    }
}

/// A number that tells visits of `a` apart, below `procs * types * 4`.
spec fn visit_code(v: Visit, types: int) -> int {
    (v.proc * types + v.receiver) * 4 + (if v.is_exact {
        2int
    } else {
        0int
    }) + (if v.receiver_is_stable {
        1int
    } else {
        0int
    })
}

proof fn lemma_visit_code_bounds(v: Visit, procs: int, types: int)
    requires
        0 <= v.proc < procs,
        0 <= v.receiver < types,
    ensures
        0 <= visit_code(v, types) < procs * types * 4,
{
    let a = v.proc * types + v.receiver;
    assert(0 <= a < procs * types) by (nonlinear_arith)
        requires
            0 <= v.proc < procs,
            0 <= v.receiver < types,
            a == v.proc * types + v.receiver,
    ;
}

proof fn lemma_visit_code_injective(v: Visit, w: Visit, types: int)
    requires
        0 <= v.receiver < types,
        0 <= w.receiver < types,
        visit_code(v, types) == visit_code(w, types),
    ensures
        v == w,
{
    let a = v.proc * types + v.receiver;
    let b = w.proc * types + w.receiver;
    assert(a == b);
    assert(v.is_exact == w.is_exact);
    assert(v.receiver_is_stable == w.receiver_is_stable);
    assert(v.proc == w.proc && v.receiver == w.receiver) by (nonlinear_arith)
        requires
            0 <= v.receiver < types,
            0 <= w.receiver < types,
            v.proc >= 0,
            w.proc >= 0,
            v.proc * types + v.receiver == w.proc * types + w.receiver,
    ;
}

/// Distinct visits of `a` number at most `procs * types * 4`.
proof fn lemma_visit_count_bounded(a: &AnalyzeObjectTree, visits: Seq<Visit>)
    requires
        visits.no_duplicates(),
        forall|i: int| 0 <= i < visits.len() ==> a.visit_valid(#[trigger] visits[i]),
    ensures
        visits.len() <= a.procs@.len() * a.types@.len() * 4,
{
    let np = a.procs@.len() as int;
    let nt = a.types@.len() as int;
    let codes = visits.map_values(|v: Visit| visit_code(v, nt));
    assert forall|i: int, j: int|
        0 <= i < codes.len() && 0 <= j < codes.len() && i != j implies codes[i] != codes[j] by {
        assert(a.visit_valid(visits[i]));
        assert(a.visit_valid(visits[j]));
        if codes[i] == codes[j] {
            lemma_visit_code_injective(visits[i], visits[j], nt);
        }
    }
    assert(codes.no_duplicates());
    codes.unique_seq_to_set();
    assert forall|x: int| codes.to_set().contains(x) implies vstd::set_lib::set_int_range(
        0,
        np * nt * 4,
    ).contains(x) by {
        let i = choose|i: int| 0 <= i < codes.len() && codes[i] == x;
        assert(a.visit_valid(visits[i]));
        lemma_visit_code_bounds(visits[i], np, nt);
    }
    assert(0 <= np * nt * 4) by (nonlinear_arith)
        requires
            np >= 0,
            nt >= 0,
    ;
    vstd::set_lib::lemma_int_range(0, np * nt * 4);
    vstd::set_lib::lemma_len_subset(
        codes.to_set(),
        vstd::set_lib::set_int_range(0, np * nt * 4),
    );
}

/// The visits of `parks` that are not marked.
spec fn unparked(parks: Seq<bool>) -> nat
    decreases parks.len(),
{
    if parks.len() == 0 {
        0
    } else {
        unparked(parks.drop_last()) + if parks.last() {
            0nat
        } else {
            1nat
        }
    }
}

proof fn lemma_unparked_mark(parks: Seq<bool>, i: int)
    requires
        0 <= i < parks.len(),
        !parks[i],
    ensures
        unparked(parks.update(i, true)) + 1 == unparked(parks),
    decreases parks.len(),
{
    if i == parks.len() - 1 {
        assert(parks.update(i, true).drop_last() =~= parks.drop_last());
    } else {
        lemma_unparked_mark(parks.drop_last(), i);
        assert(parks.update(i, true).drop_last() =~= parks.drop_last().update(i, true));
    }
}

/// Once every visit met is expanded and the marks are closed under callers,
/// every visit met that can park its caller is marked.
proof fn lemma_marks_complete(
    a: &AnalyzeObjectTree,
    g: &CallGraph,
    parks: Seq<bool>,
    unresolved_calls_sleep: bool,
    path: Seq<Visit>,
    i: int,
)
    requires
        a.wf(),
        g.wf(),
        parks.len() == g.visits@.len(),
        0 <= i < g.visits@.len(),
        g.visits@[i] == path[0],
        a.is_parking_path(path, unresolved_calls_sleep),
        forall|from: int| 0 <= from < g.visits@.len() ==> #[trigger] g.expanded(a, from),
        forall|j: int|
            0 <= j < g.visits@.len() && a.parks_directly(g.visits@[j], unresolved_calls_sleep)
                ==> #[trigger] parks[j],
        forall|j: int, k: int|
            0 <= j < g.visits@.len() && parks[j] && 0 <= k < g.callers@[j]@.len() ==> parks[
                #[trigger] g.callers@[j]@[k] as int
            ],
    ensures
        parks[i],
    decreases path.len(),
{
    if path.len() == 1 {
        assert(path.last() == path[0]);
    } else {
        assert(a.steps_at(path, 0));
        assert(g.expanded(a, i));
        assert(a.steps_to(g.visits@[i], path[1]));
        assert(g.has_edge(i, path[1]));
        let to = choose|to: int|
            0 <= to < g.visits@.len() && g.visits@[to] == path[1]
                && #[trigger] g.callers@[to]@.contains(i as usize);
        let rest = path.drop_first();
        assert forall|k: int| 0 <= k < rest.len() - 1 implies #[trigger] a.steps_at(rest, k) by {
            assert(a.steps_at(path, k + 1));
        }
        assert(rest.last() == path.last());
        lemma_marks_complete(a, g, parks, unresolved_calls_sleep, rest, to);
        let k = choose|k: int| 0 <= k < g.callers@[to]@.len() && g.callers@[to]@[k] == i as usize;
        assert(parks[g.callers@[to]@[k] as int]);
    }
}

impl AnalyzeObjectTree {
    /// Every proc that is not a builtin, in order, with whether calling it
    /// can park the caller.
    ///
    /// `unresolved_calls_sleep` false assumes that every call the analysis
    /// could not tie to a proc does not sleep.
    pub fn sleep_verdicts(&self, unresolved_calls_sleep: bool) -> (verdicts: Vec<(usize, bool)>)
        requires
            self.wf(),
        ensures
            verdicts@ == self.sleep_verdicts_spec(unresolved_calls_sleep),
            forall|k: int|
                0 <= k < verdicts@.len() && (self.procs@[(#[trigger] verdicts@[k]).0 as int].sleeps
                    || (unresolved_calls_sleep
                    && self.procs@[verdicts@[k].0 as int].has_unresolved_call)) ==> verdicts@[k].1,
            forall|k: int|
                0 <= k < verdicts@.len() ==> (#[trigger] verdicts@[k]).0 < self.procs@.len()
                    && !self.procs@[verdicts@[k].0 as int].is_builtin,
            forall|i: int, j: int|
                0 <= i < j < verdicts@.len() ==> (#[trigger] verdicts@[i]).0 < (
                #[trigger] verdicts@[j]).0,
            forall|p: int|
                0 <= p < self.procs@.len() && !(#[trigger] self.procs@[p]).is_builtin ==> exists|k: int|
                    0 <= k < verdicts@.len() && verdicts@[k].0 == p,
            forall|k: int|
                0 <= k < verdicts@.len() && !self.procs@[(#[trigger] verdicts@[k]).0 as int].sleeps
                    && !(unresolved_calls_sleep
                    && self.procs@[verdicts@[k].0 as int].has_unresolved_call) && (forall|i: int|
                    0 <= i < self.procs@[verdicts@[k].0 as int].calls@.len() ==> (#[trigger] self.procs@[
                    verdicts@[k].0 as int
                ].calls@[i]).new_context || self.procs@[self.procs@[verdicts@[k].0 as int].calls@[
                    i
                ].proc as int].sets_waitfor_zero) ==> !verdicts@[k].1,
    {
        let n = self.procs.len();
        let mut graph = CallGraph::new();
        let mut roots: Vec<usize> = Vec::new();
        let mut root_nodes: Vec<usize> = Vec::new();
        let mut p: usize = 0;
        while p < n
            invariant
                p <= n,
                n == self.procs@.len(),
                self.wf(),
                graph.wf(),
                graph.visits_valid(self),
                forall|i: int| 0 <= i < graph.callers@.len() ==> (#[trigger] graph.callers@[i])@.len() == 0,
                roots@ == self.judged_procs(p as int),
                root_nodes@.len() == roots@.len(),
                forall|k: int|
                    0 <= k < root_nodes@.len() ==> (#[trigger] root_nodes@[k]) < graph.visits@.len()
                        && graph.visits@[root_nodes@[k] as int] == self.exact_visit(
                        roots@[k] as int,
                    ),
            decreases n - p,
        {
            if !self.procs[p].is_builtin {
                proof {
                    assert(self.proc_wf(self.procs@[p as int]));
                }
                let visit = Visit {
                    proc: p,
                    receiver: self.procs[p].ty,
                    is_exact: true,
                    receiver_is_stable: true,
                };
                let ghost before = graph;
                let node = graph.intern(visit);
                proof {
                    assert forall|k: int| 0 <= k < root_nodes@.len() implies graph.visits@[root_nodes@[k] as int]
                        == before.visits@[root_nodes@[k] as int] by {}
                }
                roots.push(p);
                root_nodes.push(node);
            }
            p = p + 1;
        }
        proof {
            assert(graph.callers_sound(self));
        }

        let overrides = self.override_table();
        let ghost bound: int = (self.procs@.len() * self.types@.len() * 4) as int;
        let mut next: usize = 0;
        proof {
            lemma_wf_no_duplicates(&graph);
            lemma_visit_count_bounded(self, graph.visits@);
        }
        while next < graph.visits.len()
            invariant
                self.wf(),
                self.is_override_table(overrides@),
                graph.wf(),
                graph.visits_valid(self),
                graph.callers_sound(self),
                next <= graph.visits@.len(),
                graph.visits@.len() <= bound,
                bound == self.procs@.len() * self.types@.len() * 4,
                forall|from: int| 0 <= from < next ==> #[trigger] graph.expanded(self, from),
                roots@ == self.judged_procs(n as int),
                n == self.procs@.len(),
                root_nodes@.len() == roots@.len(),
                forall|k: int|
                    0 <= k < root_nodes@.len() ==> (#[trigger] root_nodes@[k]) < graph.visits@.len()
                        && graph.visits@[root_nodes@[k] as int] == self.exact_visit(
                        roots@[k] as int,
                    ),
            decreases bound - next,
        {
            let from = next;
            let visit = graph.visits[from];
            next = next + 1;
            let targets = self.visit_targets(&overrides, visit);
            let ghost start = graph;
            let mut j: usize = 0;
            while j < targets.len()
                invariant
                    self.wf(),
                    graph.wf(),
                    graph.visits_valid(self),
                    graph.callers_sound(self),
                    start.grows_to(&graph),
                    from < start.visits@.len(),
                    visit == start.visits@[from as int],
                    graph.visits@.len() <= bound,
                    bound == self.procs@.len() * self.types@.len() * 4,
                    j <= targets@.len(),
                    forall|t: Visit| #[trigger] targets@.contains(t) <==> self.is_target(visit, t),
                    forall|k: int| 0 <= k < targets@.len() ==> self.visit_valid(#[trigger] targets@[k]),
                    forall|k: int|
                        0 <= k < j && !self.procs@[targets@[k].proc as int].sets_waitfor_zero
                            ==> graph.has_edge(from as int, #[trigger] targets@[k]),
                decreases targets@.len() - j,
            {
                let target = targets[j];
                if !self.procs[target.proc].sets_waitfor_zero {
                    let ghost g0 = graph;
                    let to = graph.intern(target);
                    let ghost g1 = graph;
                    graph.add_caller(to, from);
                    proof {
                        lemma_grows_to_transitive(&start, &g0, &g1);
                        lemma_grows_to_transitive(&start, &g1, &graph);
                        lemma_grows_to_transitive(&g0, &g1, &graph);
                        lemma_wf_no_duplicates(&graph);
                        assert(targets@.contains(target));
                        assert(graph.visits@[from as int] == visit);
                        assert(self.steps_to(visit, target));
                        assert forall|i: int| 0 <= i < graph.visits@.len() implies self.visit_valid(
                            #[trigger] graph.visits@[i],
                        ) by {
                            if i < g0.visits@.len() {
                                assert(graph.visits@[i] == g0.visits@[i]);
                            }
                        }
                        lemma_visit_count_bounded(self, graph.visits@);
                        assert forall|t: int, k: int|
                            0 <= t < graph.visits@.len() && 0 <= k < graph.callers@[t]@.len() implies {
                                &&& (#[trigger] graph.callers@[t]@[k]) < graph.visits@.len()
                                &&& self.steps_to(
                                    graph.visits@[graph.callers@[t]@[k] as int],
                                    graph.visits@[t],
                                )
                            } by {
                            if t == to && k == graph.callers@[t]@.len() - 1 {
                            } else if t < g0.visits@.len() {
                                assert(graph.callers@[t]@[k] == g0.callers@[t]@[k]);
                                assert(graph.visits@[t] == g0.visits@[t]);
                                assert(graph.visits@[g0.callers@[t]@[k] as int] == g0.visits@[g0.callers@[t]@[k] as int]);
                            } else {
                                assert(g1.callers@[t]@.len() == 0);
                            }
                        }
                        assert(graph.callers@[to as int]@[graph.callers@[to as int]@.len() - 1] == from);
                        assert(graph.callers@[to as int]@.contains(from));
                        assert(graph.visits@[to as int] == target);
                        assert(to < graph.visits@.len());
                        assert(graph.callers@[to as int]@.contains((from as int) as usize));
                        assert(graph.has_edge(from as int, target));
                        assert forall|k: int|
                            0 <= k < j + 1 && !self.procs@[targets@[k].proc as int].sets_waitfor_zero
                                implies graph.has_edge(from as int, #[trigger] targets@[k]) by {
                            if k < j {
                                lemma_grows_to_keeps_edge(&g0, &graph, from as int, targets@[k]);
                            }
                        }
                    }
                }
                j = j + 1;
            }
            proof {
                assert forall|t: Visit| #[trigger] self.steps_to(graph.visits@[from as int], t) implies graph.has_edge(
                    from as int,
                    t,
                ) by {
                    assert(graph.visits@[from as int] == visit);
                    assert(targets@.contains(t));
                    let k = choose|k: int| 0 <= k < targets@.len() && targets@[k] == t;
                }
                assert forall|f: int| 0 <= f < next implies #[trigger] graph.expanded(self, f) by {
                    if f < from {
                        assert(start.expanded(self, f));
                        assert forall|t: Visit| #[trigger] self.steps_to(graph.visits@[f], t) implies graph.has_edge(
                            f,
                            t,
                        ) by {
                            assert(graph.visits@[f] == start.visits@[f]);
                            assert(start.has_edge(f, t));
                            lemma_grows_to_keeps_edge(&start, &graph, f, t);
                        }
                    }
                }
                assert forall|k: int| 0 <= k < root_nodes@.len() implies (#[trigger] root_nodes@[k])
                    < graph.visits@.len() && graph.visits@[root_nodes@[k] as int] == self.exact_visit(
                    roots@[k] as int,
                ) by {
                    assert(graph.visits@[root_nodes@[k] as int] == start.visits@[root_nodes@[k] as int]);
                }
            }
        }

        let nv = graph.visits.len();
        let mut parks: Vec<bool> = Vec::new();
        let mut queue: Vec<usize> = Vec::new();
        let mut index: usize = 0;
        while index < nv
            invariant
                self.wf(),
                graph.wf(),
                graph.visits_valid(self),
                nv == graph.visits@.len(),
                index <= nv,
                parks@.len() == index,
                forall|k: int| 0 <= k < queue@.len() ==> (#[trigger] queue@[k]) < index && parks@[queue@[k] as int],
                forall|i: int| 0 <= i < index ==> (#[trigger] parks@[i] <==> self.parks_directly(
                    graph.visits@[i],
                    unresolved_calls_sleep,
                )),
                forall|i: int| 0 <= i < index && parks@[i] ==> #[trigger] queue@.contains(i as usize),
            decreases nv - index,
        {
            let proc = graph.visits[index].proc;
            let source = self.procs[proc].sleeps || (unresolved_calls_sleep
                && self.procs[proc].has_unresolved_call);
            let ghost q0 = queue@;
            let ghost p0 = parks@;
            if source {
                queue.push(index);
            }
            parks.push(source);
            proof {
                assert forall|i: int| 0 <= i < index + 1 && parks@[i] implies #[trigger] queue@.contains(i as usize) by {
                    if i < index {
                        assert(parks@[i] == p0[i]);
                        assert(q0.contains(i as usize));
                        let k = choose|k: int| 0 <= k < q0.len() && q0[k] == i as usize;
                        assert(queue@[k] == i as usize);
                    } else {
                        assert(queue@[queue@.len() - 1] == index);
                    }
                }
            }
            index = index + 1;
        }
        proof {
            assert forall|i: int| 0 <= i < nv && #[trigger] parks@[i] implies self.can_park(
                graph.visits@[i],
                unresolved_calls_sleep,
            ) by {
                let path = seq![graph.visits@[i]];
                assert(self.is_parking_path(path, unresolved_calls_sleep));
            }
        }
        while queue.len() > 0
            invariant
                self.wf(),
                graph.wf(),
                graph.visits_valid(self),
                graph.callers_sound(self),
                nv == graph.visits@.len(),
                parks@.len() == nv,
                forall|k: int| 0 <= k < queue@.len() ==> (#[trigger] queue@[k]) < nv && parks@[queue@[k] as int],
                forall|i: int| 0 <= i < nv && #[trigger] parks@[i] ==> self.can_park(
                    graph.visits@[i],
                    unresolved_calls_sleep,
                ),
                forall|i: int|
                    0 <= i < nv && self.parks_directly(graph.visits@[i], unresolved_calls_sleep)
                        ==> #[trigger] parks@[i],
                forall|i: int, k: int|
                    0 <= i < nv && parks@[i] && !queue@.contains(i as usize) && 0 <= k
                        < graph.callers@[i]@.len() ==> parks@[#[trigger] graph.callers@[i]@[k] as int],
            decreases 2 * unparked(parks@) + queue@.len(),
        {
            let ghost measure = 2 * unparked(parks@) + queue@.len();
            let ghost q_full = queue@;
            let index = queue.pop().unwrap();
            let ghost q_popped = queue@;
            let callers = &graph.callers[index];
            let n_callers = callers.len();
            proof {
                assert(q_full =~= q_popped.push(index));
                assert forall|i: int, m: int|
                    0 <= i < nv && i != index && parks@[i] && !queue@.contains(i as usize) && 0 <= m
                        < graph.callers@[i]@.len() implies parks@[#[trigger] graph.callers@[i]@[m] as int] by {
                    if q_full.contains(i as usize) {
                        let w = choose|w: int| 0 <= w < q_full.len() && q_full[w] == i as usize;
                        assert(w < q_popped.len());
                        assert(queue@[w] == i as usize);
                    }
                }
            }
            let mut k: usize = 0;
            while k < n_callers
                invariant
                    self.wf(),
                    graph.wf(),
                    graph.visits_valid(self),
                    graph.callers_sound(self),
                    nv == graph.visits@.len(),
                    index < nv,
                    parks@[index as int],
                    *callers == graph.callers@[index as int],
                    n_callers == callers@.len(),
                    k <= n_callers,
                    parks@.len() == nv,
                    2 * unparked(parks@) + queue@.len() < measure,
                    forall|m: int| 0 <= m < q_popped.len() ==> queue@.contains(#[trigger] q_popped[m]),
                    forall|m: int| 0 <= m < queue@.len() ==> (#[trigger] queue@[m]) < nv && parks@[queue@[m] as int],
                    forall|i: int| 0 <= i < nv && #[trigger] parks@[i] ==> self.can_park(
                        graph.visits@[i],
                        unresolved_calls_sleep,
                    ),
                    forall|i: int|
                        0 <= i < nv && self.parks_directly(graph.visits@[i], unresolved_calls_sleep)
                            ==> #[trigger] parks@[i],
                    forall|i: int, m: int|
                        0 <= i < nv && i != index && parks@[i] && !queue@.contains(i as usize) && 0 <= m
                            < graph.callers@[i]@.len() ==> parks@[#[trigger] graph.callers@[i]@[m] as int],
                    forall|m: int| 0 <= m < k ==> parks@[#[trigger] callers@[m] as int],
                decreases n_callers - k,
            {
                let caller = callers[k];
                proof {
                    assert(graph.callers@[index as int]@[k as int] == caller);
                }
                if !parks[caller] {
                    let ghost p0 = parks@;
                    let ghost qb = queue@;
                    parks.set(caller, true);
                    queue.push(caller);
                    proof {
                        lemma_unparked_mark(p0, caller as int);
                        assert(self.steps_to(graph.visits@[caller as int], graph.visits@[index as int]));
                        lemma_caller_of_parking_callee_parks(
                            self,
                            graph.visits@[caller as int],
                            graph.visits@[index as int],
                            unresolved_calls_sleep,
                        );
                        assert forall|m: int| 0 <= m < q_popped.len() implies queue@.contains(#[trigger] q_popped[m]) by {
                            let w = choose|w: int| 0 <= w < qb.len() && qb[w] == q_popped[m];
                            assert(queue@[w] == q_popped[m]);
                        }
                        assert forall|i: int, m: int|
                            0 <= i < nv && i != index && parks@[i] && !queue@.contains(i as usize) && 0 <= m
                                < graph.callers@[i]@.len() implies parks@[#[trigger] graph.callers@[i]@[m] as int] by {
                            if i != caller {
                                if qb.contains(i as usize) {
                                    let w = choose|w: int| 0 <= w < qb.len() && qb[w] == i as usize;
                                    assert(queue@[w] == i as usize);
                                }
                            } else {
                                assert(queue@[queue@.len() - 1] == caller);
                            }
                        }
                    }
                }
                k = k + 1;
            }
            proof {
                assert forall|i: int, m: int|
                    0 <= i < nv && parks@[i] && !queue@.contains(i as usize) && 0 <= m
                        < graph.callers@[i]@.len() implies parks@[#[trigger] graph.callers@[i]@[m] as int] by {
                    if i == index {
                        assert(callers@[m] == graph.callers@[i]@[m]);
                    }
                }
            }
        }
        proof {
            assert forall|i: int, m: int|
                0 <= i < nv && parks@[i] && 0 <= m < graph.callers@[i]@.len() implies parks@[
                    #[trigger] graph.callers@[i]@[m] as int
                ] by {
                assert(!queue@.contains(i as usize));
            }
        }

        let mut verdicts: Vec<(usize, bool)> = Vec::new();
        let n_roots = roots.len();
        let mut k: usize = 0;
        while k < n_roots
            invariant
                self.wf(),
                graph.wf(),
                nv == graph.visits@.len(),
                parks@.len() == nv,
                n_roots == roots@.len(),
                roots@ == self.judged_procs(n as int),
                n == self.procs@.len(),
                root_nodes@.len() == roots@.len(),
                forall|m: int|
                    0 <= m < root_nodes@.len() ==> (#[trigger] root_nodes@[m]) < graph.visits@.len()
                        && graph.visits@[root_nodes@[m] as int] == self.exact_visit(
                        roots@[m] as int,
                    ),
                forall|from: int| 0 <= from < nv ==> #[trigger] graph.expanded(self, from),
                forall|i: int| 0 <= i < nv && #[trigger] parks@[i] ==> self.can_park(
                    graph.visits@[i],
                    unresolved_calls_sleep,
                ),
                forall|i: int|
                    0 <= i < nv && self.parks_directly(graph.visits@[i], unresolved_calls_sleep)
                        ==> #[trigger] parks@[i],
                forall|i: int, m: int|
                    0 <= i < nv && parks@[i] && 0 <= m < graph.callers@[i]@.len() ==> parks@[
                        #[trigger] graph.callers@[i]@[m] as int
                    ],
                k <= n_roots,
                verdicts@.len() == k,
                forall|m: int|
                    0 <= m < k ==> #[trigger] verdicts@[m] == (
                        roots@[m],
                        self.can_park(self.exact_visit(roots@[m] as int), unresolved_calls_sleep),
                    ),
            decreases n_roots - k,
        {
            let node = root_nodes[k];
            let verdict = parks[node];
            proof {
                if self.can_park(graph.visits@[node as int], unresolved_calls_sleep) {
                    let path = choose|path: Seq<Visit>|
                        #[trigger] self.is_parking_path(path, unresolved_calls_sleep) && path[0]
                            == graph.visits@[node as int];
                    lemma_marks_complete(self, &graph, parks@, unresolved_calls_sleep, path, node as int);
                }
            }
            verdicts.push((roots[k], verdict));
            k = k + 1;
        }
        proof {
            assert(verdicts@ =~= self.sleep_verdicts_spec(unresolved_calls_sleep));
            assert forall|k: int|
                0 <= k < verdicts@.len() && (self.procs@[(#[trigger] verdicts@[k]).0 as int].sleeps
                    || (unresolved_calls_sleep
                    && self.procs@[verdicts@[k].0 as int].has_unresolved_call)) implies verdicts@[k].1 by {
                lemma_parking_body_gets_parking_verdict(self, unresolved_calls_sleep, k);
            }
            let judged = self.judged_procs(n as int);
            lemma_judged_procs_are_the_non_builtins(self, n as int);
            assert forall|k: int| 0 <= k < verdicts@.len() implies (#[trigger] verdicts@[k]).0 == judged[k] by {}
            assert forall|i: int, j: int|
                0 <= i < j < verdicts@.len() implies (#[trigger] verdicts@[i]).0 < (
                #[trigger] verdicts@[j]).0 by {
                assert(judged[i] < judged[j]);
            }
            assert forall|p: int|
                0 <= p < self.procs@.len() && !(#[trigger] self.procs@[p]).is_builtin implies exists|k: int|
                    0 <= k < verdicts@.len() && verdicts@[k].0 == p by {
                let k = choose|k: int| 0 <= k < judged.len() && judged[k] == p;
                assert(verdicts@[k].0 == judged[k]);
            }
            assert forall|k: int|
                0 <= k < verdicts@.len() && !self.procs@[(#[trigger] verdicts@[k]).0 as int].sleeps
                    && !(unresolved_calls_sleep
                    && self.procs@[verdicts@[k].0 as int].has_unresolved_call) && (forall|i: int|
                    0 <= i < self.procs@[verdicts@[k].0 as int].calls@.len() ==> (#[trigger] self.procs@[
                    verdicts@[k].0 as int
                ].calls@[i]).new_context || self.procs@[self.procs@[verdicts@[k].0 as int].calls@[
                    i
                ].proc as int].sets_waitfor_zero) implies !verdicts@[k].1 by {
                let p = verdicts@[k].0;
                assert(verdicts@[k] == (p, self.can_park(self.exact_visit(p as int), unresolved_calls_sleep)));
                lemma_waitfor_zero_callees_shield(self, p, unresolved_calls_sleep);
            }
        }
        verdicts
    }
}

} // verus!
