//! One step of the walk: a proc, the static type of the object it runs on,
//! whether the proc runs as named, and whether that object is known to be the
//! root proc's own; and where running such a step can go next.

use vstd::prelude::*;
use crate::model::{AnalyzeObjectTree, CallEdge, SleepAnalysisVersion};
use crate::overrides::increasing;
use crate::laws::lemma_dynamic_call_reaches_overrides;

verus! {

/// One step of the walk.
#[derive(Clone, Copy, PartialEq, Eq, Debug, Structural)]
pub struct Visit {
    /// The proc that runs.
    pub proc: usize,
    /// The static type of the object it runs on.
    pub receiver: usize,
    /// Whether exactly `proc` runs, with no dispatch to its overrides.
    pub is_exact: bool,
    /// Whether the object is known to be the root proc's own.
    pub receiver_is_stable: bool,
}

impl AnalyzeObjectTree {
    /// The visit's proc and receiver exist.
    pub open spec fn visit_valid(&self, v: Visit) -> bool {
        &&& v.proc < self.procs@.len()
        &&& v.receiver < self.types@.len()
    }

    /// How a proc is visited when it is called exactly, on an object of its
    /// own type that the walk trusts: as a root of the walk, and as an
    /// override that a dynamic call dispatches to.
    pub open spec fn exact_visit(&self, p: int) -> Visit {
        Visit {
            proc: p as usize,
            receiver: self.procs@[p].ty,
            is_exact: true,
            receiver_is_stable: true,
        }
    }

    /// Whether running `v` may dispatch to overrides of its proc: the call is
    /// dynamic, the version trusts the receiver, and the proc is not global.
    pub open spec fn dispatches(&self, v: Visit) -> bool {
        &&& !v.is_exact
        &&& (!(self.sleep_analysis_version is ReceiverProvenance) || v.receiver_is_stable)
        &&& self.procs@[v.proc as int].ty != 0
    }

    /// The step that call `e` in the body of `v`'s proc makes.
    pub open spec fn edge_visit(&self, v: Visit, e: CallEdge) -> Visit {
        Visit {
            proc: e.proc,
            receiver: if self.sleep_analysis_version is CallTree {
                self.procs@[e.proc as int].ty
            } else if e.inherit_receiver {
                v.receiver
            } else {
                e.src
            },
            is_exact: e.is_exact,
            receiver_is_stable: !(self.sleep_analysis_version is ReceiverProvenance) || (
            e.inherit_receiver && v.receiver_is_stable),
        }
    }

    /// `t` is an override of `v`'s proc that running `v` dispatches to.
    pub open spec fn is_dispatch_target(&self, v: Visit, t: Visit) -> bool {
        &&& self.dispatches(v)
        &&& t.proc < self.procs@.len()
        &&& self.is_override(v.proc as int, t.proc as int, v.receiver as int)
        &&& t == self.exact_visit(t.proc as int)
    }

    /// `t` is the step of a call that `v`'s proc makes outside `spawn`.
    pub open spec fn is_call_target(&self, v: Visit, t: Visit) -> bool {
        exists|i: int|
            #![trigger self.procs@[v.proc as int].calls@[i]]
            0 <= i < self.procs@[v.proc as int].calls@.len() && !self.procs@[v.proc as int].calls@[
                i
            ].new_context && t == self.edge_visit(v, self.procs@[v.proc as int].calls@[i])
    }

    /// `t` is the step of one of the first `n` calls in `calls` that is made
    /// outside `spawn`, from `v`.
    pub open spec fn is_step_of_first_calls(&self, v: Visit, calls: Seq<CallEdge>, n: int, t: Visit) -> bool {
        exists|j: int|
            #![trigger calls[j]]
            0 <= j < n && !calls[j].new_context && t == self.edge_visit(v, calls[j])
    }

    /// The steps to the overrides among procs `0..m` that running `v`
    /// dispatches to, in the procs' order.
    pub open spec fn dispatch_steps(&self, v: Visit, m: int) -> Seq<Visit>
        decreases m,
    {
        if m <= 0 {
            Seq::empty()
        } else if self.dispatches(v) && self.is_override(v.proc as int, m - 1, v.receiver as int) {
            self.dispatch_steps(v, m - 1).push(self.exact_visit(m - 1))
        } else {
            self.dispatch_steps(v, m - 1)
        }
    }

    /// The steps of those of the first `n` calls in `calls` that are made
    /// outside `spawn`, one per call, in the calls' order.
    pub open spec fn call_steps(&self, v: Visit, calls: Seq<CallEdge>, n: int) -> Seq<Visit>
        decreases n,
    {
        if n <= 0 {
            Seq::empty()
        } else if !calls[n - 1].new_context {
            self.call_steps(v, calls, n - 1).push(self.edge_visit(v, calls[n - 1]))
        } else {
            self.call_steps(v, calls, n - 1)
        }
    }

    /// Every step that running `v` can take, in order: the overrides it
    /// dispatches to, by proc, then one step per call its proc makes outside
    /// `spawn`, in the body's order.
    pub open spec fn target_steps(&self, v: Visit) -> Seq<Visit> {
        let calls = self.procs@[v.proc as int].calls@;
        self.dispatch_steps(v, self.procs@.len() as int) + self.call_steps(v, calls, calls.len() as int)
    }

    /// Running `v` can go to `t`: an override that `v` dispatches to, or a
    /// call that `v`'s proc makes outside `spawn`.
    pub open spec fn is_target(&self, v: Visit, t: Visit) -> bool {
        self.is_dispatch_target(v, t) || self.is_call_target(v, t)
    }

    /// Procs in `m1..m2` add no dispatch step.
    proof fn lemma_dispatch_steps_skip(&self, v: Visit, m1: int, m2: int)
        requires
            0 <= m1 <= m2,
            forall|q: int|
                m1 <= q < m2 ==> !(self.dispatches(v) && #[trigger] self.is_override(
                    v.proc as int,
                    q,
                    v.receiver as int,
                )),
        ensures
            self.dispatch_steps(v, m2) == self.dispatch_steps(v, m1),
        decreases m2 - m1,
    {
        if m1 < m2 {
            self.lemma_dispatch_steps_skip(v, m1, m2 - 1);
        }
    }

    /// Whether an object whose static type is `receiver` can run proc `q`,
    /// which has proc `p`'s name on a strict subtype of `p`'s type.
    fn dispatch_reaches(&self, p: usize, q: usize, receiver: usize) -> (r: bool)
        requires
            self.wf(),
            p < self.procs@.len(),
            q < self.procs@.len(),
            receiver < self.types@.len(),
            self.overrides_on_subtype(p as int, q as int),
        ensures
            r == self.is_override(p as int, q as int, receiver as int),
    {
        let q_ty = self.procs[q].ty;
        proof {
            assert(self.proc_wf(self.procs@[q as int]));
        }
        if !self.sleep_analysis_version.scopes_dispatch_to_receiver() {
            return true;
        }
        self.type_is_subtype(q_ty, receiver) || self.type_is_subtype(receiver, q_ty)
    }

    /// Where running `visit` can go next: the overrides it may dispatch to,
    /// then the procs its body calls outside `spawn`. `overrides` lists each
    /// proc's overrides on the types below its type.
    pub fn visit_targets(&self, overrides: &Vec<Vec<usize>>, visit: Visit) -> (targets: Vec<Visit>)
        requires
            self.wf(),
            self.is_override_table(overrides@),
            self.visit_valid(visit),
        ensures
            targets@ == self.target_steps(visit),
            forall|j: int|
                0 <= j < self.procs@[visit.proc as int].calls@.len() && !(#[trigger] self.procs@[visit.proc as int].calls@[j]).new_context
                    ==> targets@.contains(
                    Visit {
                        proc: self.procs@[visit.proc as int].calls@[j].proc,
                        receiver: if self.sleep_analysis_version is CallTree {
                            self.procs@[self.procs@[visit.proc as int].calls@[j].proc as int].ty
                        } else if self.procs@[visit.proc as int].calls@[j].inherit_receiver {
                            visit.receiver
                        } else {
                            self.procs@[visit.proc as int].calls@[j].src
                        },
                        is_exact: self.procs@[visit.proc as int].calls@[j].is_exact,
                        receiver_is_stable: !(self.sleep_analysis_version is ReceiverProvenance) || (
                        self.procs@[visit.proc as int].calls@[j].inherit_receiver && visit.receiver_is_stable),
                    },
                ),
            forall|k: int|
                0 <= k < targets@.len() ==> (exists|j: int|
                    0 <= j < self.procs@[visit.proc as int].calls@.len() && !(#[trigger] self.procs@[visit.proc as int].calls@[j]).new_context
                        && targets@[k] == Visit {
                        proc: self.procs@[visit.proc as int].calls@[j].proc,
                        receiver: if self.sleep_analysis_version is CallTree {
                            self.procs@[self.procs@[visit.proc as int].calls@[j].proc as int].ty
                        } else if self.procs@[visit.proc as int].calls@[j].inherit_receiver {
                            visit.receiver
                        } else {
                            self.procs@[visit.proc as int].calls@[j].src
                        },
                        is_exact: self.procs@[visit.proc as int].calls@[j].is_exact,
                        receiver_is_stable: !(self.sleep_analysis_version is ReceiverProvenance) || (
                        self.procs@[visit.proc as int].calls@[j].inherit_receiver && visit.receiver_is_stable),
                    }) || (!visit.is_exact && (!(self.sleep_analysis_version is ReceiverProvenance)
                    || visit.receiver_is_stable) && self.procs@[visit.proc as int].ty != 0
                    && (#[trigger] targets@[k]).proc < self.procs@.len() && targets@[k].is_exact
                    && targets@[k].receiver_is_stable && targets@[k].receiver
                    == self.procs@[targets@[k].proc as int].ty
                    && self.procs@[targets@[k].proc as int].name@ == self.procs@[visit.proc as int].name@
                    && self.procs@[targets@[k].proc as int].ty != self.procs@[visit.proc as int].ty
                    && self.is_subtype(
                    self.procs@[targets@[k].proc as int].ty as int,
                    self.procs@[visit.proc as int].ty as int,
                ) && (self.sleep_analysis_version is CallTree || self.is_subtype(
                    visit.receiver as int,
                    self.procs@[targets@[k].proc as int].ty as int,
                ) || self.is_subtype(self.procs@[targets@[k].proc as int].ty as int, visit.receiver as int))),
            forall|q: int|
                0 <= q < self.procs@.len() && !visit.is_exact && (!(self.sleep_analysis_version is ReceiverProvenance)
                    || visit.receiver_is_stable) && self.procs@[visit.proc as int].ty != 0
                    && (#[trigger] self.procs@[q]).name@ == self.procs@[visit.proc as int].name@
                    && self.procs@[q].ty != self.procs@[visit.proc as int].ty && self.is_subtype(
                    self.procs@[q].ty as int,
                    self.procs@[visit.proc as int].ty as int,
                ) && (self.sleep_analysis_version is CallTree || self.is_subtype(
                    visit.receiver as int,
                    self.procs@[q].ty as int,
                ) || self.is_subtype(self.procs@[q].ty as int, visit.receiver as int))
                    ==> targets@.contains(
                    Visit {
                        proc: q as usize,
                        receiver: self.procs@[q].ty,
                        is_exact: true,
                        receiver_is_stable: true,
                    },
                ),
            forall|t: Visit| #[trigger] targets@.contains(t) <==> self.is_target(visit, t),
            forall|k: int| 0 <= k < targets@.len() ==> self.visit_valid(#[trigger] targets@[k]),
    {
        let n_procs = self.procs.len();
        let mut targets: Vec<Visit> = Vec::new();
        let receiver_provenance = self.sleep_analysis_version.tracks_receiver_provenance();
        let dispatches = !visit.is_exact && (!receiver_provenance || visit.receiver_is_stable)
            && self.procs[visit.proc].ty != 0;
        if dispatches {
            let candidates = &overrides[visit.proc];
            let n_candidates = candidates.len();
            proof {
                assert(increasing(overrides@[visit.proc as int]@));
                let first = if n_candidates > 0 { candidates@[0] as int } else { n_procs as int };
                assert forall|q: int| 0 <= q < first implies !(self.dispatches(visit)
                    && #[trigger] self.is_override(visit.proc as int, q, visit.receiver as int)) by {
                    if n_candidates > 0 {
                        assert(overrides@[visit.proc as int]@.contains(candidates@[0]));
                    }
                    if self.is_override(visit.proc as int, q, visit.receiver as int) {
                        assert(self.procs.len() == self.procs@.len());
                        assert((q as usize) as int == q);
                        assert(overrides@[visit.proc as int]@.contains(q as usize));
                        let w = choose|w: int| 0 <= w < candidates@.len() && candidates@[w] == q as usize;
                        if w > 0 {
                            assert(candidates@[0] < candidates@[w]);
                        }
                    }
                }
                self.lemma_dispatch_steps_skip(visit, 0, first);
            }
            let mut c: usize = 0;
            while c < n_candidates
                invariant
                    c <= n_candidates,
                    n_procs == self.procs@.len(),
                    increasing(candidates@),
                    targets@ == self.dispatch_steps(
                        visit,
                        if c < n_candidates {
                            candidates@[c as int] as int
                        } else {
                            n_procs as int
                        },
                    ),
                    self.wf(),
                    self.is_override_table(overrides@),
                    self.visit_valid(visit),
                    *candidates == overrides@[visit.proc as int],
                    n_candidates == candidates@.len(),
                    self.dispatches(visit),
                    forall|k: int|
                        0 <= k < targets@.len() ==> self.is_dispatch_target(visit, #[trigger] targets@[k]),
                    forall|m: int|
                        0 <= m < c && self.is_override(visit.proc as int, candidates@[m] as int, visit.receiver as int)
                            ==> targets@.contains(self.exact_visit(#[trigger] candidates@[m] as int)),
                decreases n_candidates - c,
            {
                let q = candidates[c];
                let ghost before_q = targets@;
                proof {
                    assert(overrides@[visit.proc as int]@.contains(q));
                }
                if self.dispatch_reaches(visit.proc, q, visit.receiver) {
                    let v = Visit {
                        proc: q,
                        receiver: self.procs[q].ty,
                        is_exact: true,
                        receiver_is_stable: true,
                    };
                    let ghost before = targets@;
                    targets.push(v);
                    proof {
                        assert(targets@ == before.push(v));
                        assert forall|k: int| 0 <= k < before.len() implies #[trigger] targets@[k]
                            == before[k] by {}
                        assert(targets@[targets@.len() - 1] == self.exact_visit(q as int));
                        assert forall|m: int|
                            0 <= m < c + 1 && self.is_override(
                                visit.proc as int,
                                candidates@[m] as int,
                                visit.receiver as int,
                            ) implies targets@.contains(self.exact_visit(#[trigger] candidates@[m] as int)) by {
                            if m < c {
                                assert(before.contains(self.exact_visit(candidates@[m] as int)));
                                let k = choose|k: int|
                                    0 <= k < before.len() && before[k] == self.exact_visit(candidates@[m] as int);
                                assert(targets@[k] == self.exact_visit(candidates@[m] as int));
                            } else {
                                assert(targets@[targets@.len() - 1] == self.exact_visit(candidates@[m] as int));
                            }
                        }
                    }
                }
                proof {
                    assert(q < n_procs);
                    assert(targets@ == self.dispatch_steps(visit, q + 1));
                    let next = if c + 1 < n_candidates { candidates@[c + 1] as int } else { n_procs as int };
                    assert forall|q3: int| q + 1 <= q3 < next implies !(self.dispatches(visit)
                        && #[trigger] self.is_override(visit.proc as int, q3, visit.receiver as int)) by {
                        if c + 1 < n_candidates {
                            assert(overrides@[visit.proc as int]@.contains(candidates@[c + 1]));
                        }
                        if self.is_override(visit.proc as int, q3, visit.receiver as int) {
                            assert((q3 as usize) as int == q3);
                            assert(overrides@[visit.proc as int]@.contains(q3 as usize));
                            let w = choose|w: int| 0 <= w < candidates@.len() && candidates@[w] == q3 as usize;
                            if w <= c {
                                if w < c {
                                    assert(candidates@[w] < candidates@[c as int]);
                                }
                            } else if w > c + 1 {
                                assert(candidates@[c + 1] < candidates@[w]);
                            }
                        }
                    }
                    self.lemma_dispatch_steps_skip(visit, q + 1, next);
                }
                c = c + 1;
            }
            proof {
                assert forall|q2: int|
                    0 <= q2 < self.procs@.len() && self.is_override(
                        visit.proc as int,
                        q2,
                        visit.receiver as int,
                    ) implies targets@.contains(#[trigger] self.exact_visit(q2)) by {
                    assert(self.procs.len() == self.procs@.len());
                    assert((q2 as usize) as int == q2);
                    assert(overrides@[visit.proc as int]@.contains(q2 as usize));
                    let m = choose|m: int| 0 <= m < candidates@.len() && candidates@[m] == q2 as usize;
                    assert(self.exact_visit(candidates@[m] as int) == self.exact_visit(q2));
                }
            }
        }
        proof {
            if !dispatches {
                self.lemma_dispatch_steps_skip(visit, 0, n_procs as int);
            }
            assert(targets@ == self.dispatch_steps(visit, n_procs as int));
        }
        let n_overrides = targets.len();
        let calls = &self.procs[visit.proc].calls;
        let n_calls = calls.len();
        proof {
            assert(self.proc_wf(self.procs@[visit.proc as int]));
        }
        let mut i: usize = 0;
        while i < n_calls
            invariant
                i <= n_calls,
                n_procs == self.procs@.len(),
                targets@ == self.dispatch_steps(visit, n_procs as int) + self.call_steps(
                    visit,
                    calls@,
                    i as int,
                ),
                receiver_provenance == (self.sleep_analysis_version is ReceiverProvenance),
                self.wf(),
                self.visit_valid(visit),
                *calls == self.procs@[visit.proc as int].calls,
                n_calls == calls@.len(),
                n_overrides <= targets@.len(),
                self.proc_wf(self.procs@[visit.proc as int]),
                forall|k: int|
                    0 <= k < n_overrides ==> self.is_dispatch_target(visit, #[trigger] targets@[k]),
                forall|q2: int|
                    0 <= q2 < self.procs@.len() && self.dispatches(visit) && self.is_override(
                        visit.proc as int,
                        q2,
                        visit.receiver as int,
                    ) ==> targets@.contains(#[trigger] self.exact_visit(q2)),
                forall|k: int|
                    n_overrides <= k < targets@.len() ==> self.is_step_of_first_calls(
                        visit,
                        calls@,
                        i as int,
                        #[trigger] targets@[k],
                    ),
                forall|j: int|
                    0 <= j < i && !calls@[j].new_context ==> targets@.contains(
                        self.edge_visit(visit, #[trigger] calls@[j]),
                    ),
            decreases n_calls - i,
        {
            let edge = calls[i];
            if !edge.new_context {
                let receiver = match self.sleep_analysis_version {
                    SleepAnalysisVersion::CallTree => self.procs[edge.proc].ty,
                    _ => if edge.inherit_receiver {
                        visit.receiver
                    } else {
                        edge.src
                    },
                };
                let t = Visit {
                    proc: edge.proc,
                    receiver,
                    is_exact: edge.is_exact,
                    receiver_is_stable: !receiver_provenance || (edge.inherit_receiver
                        && visit.receiver_is_stable),
                };
                let ghost before = targets@;
                targets.push(t);
                proof {
                    assert(targets@ == before.push(t));
                    assert forall|k: int| 0 <= k < before.len() implies #[trigger] targets@[k]
                        == before[k] by {}
                    assert(targets@[targets@.len() - 1] == self.edge_visit(visit, calls@[i as int]));
                    assert forall|q2: int|
                        0 <= q2 < self.procs@.len() && self.dispatches(visit) && self.is_override(
                            visit.proc as int,
                            q2,
                            visit.receiver as int,
                        ) implies targets@.contains(#[trigger] self.exact_visit(q2)) by {
                        assert(before.contains(self.exact_visit(q2)));
                        let k = choose|k: int|
                            0 <= k < before.len() && before[k] == self.exact_visit(q2);
                        assert(targets@[k] == self.exact_visit(q2));
                    }
                    assert forall|k: int| n_overrides <= k < targets@.len() implies self.is_step_of_first_calls(
                        visit,
                        calls@,
                        i + 1,
                        #[trigger] targets@[k],
                    ) by {
                        if k == targets@.len() - 1 {
                            assert(calls@[i as int] == edge);
                        } else {
                            assert(targets@[k] == before[k]);
                            assert(self.is_step_of_first_calls(visit, calls@, i as int, before[k]));
                        }
                    }
                    assert forall|j: int|
                        0 <= j < i + 1 && !calls@[j].new_context implies targets@.contains(
                            self.edge_visit(visit, #[trigger] calls@[j]),
                        ) by {
                        if j < i {
                            assert(before.contains(self.edge_visit(visit, calls@[j])));
                            let k = choose|k: int|
                                0 <= k < before.len() && before[k] == self.edge_visit(
                                    visit,
                                    calls@[j],
                                );
                            assert(targets@[k] == self.edge_visit(visit, calls@[j]));
                        } else {
                            assert(targets@[targets@.len() - 1] == self.edge_visit(
                                visit,
                                calls@[j],
                            ));
                        }
                    }
                }
            } else {
                proof {
                    assert forall|k: int| n_overrides <= k < targets@.len() implies self.is_step_of_first_calls(
                        visit,
                        calls@,
                        i + 1,
                        #[trigger] targets@[k],
                    ) by {
                        assert(self.is_step_of_first_calls(visit, calls@, i as int, targets@[k]));
                    }
                }
            }
            i = i + 1;
        }
        proof {
            assert forall|t: Visit| #[trigger] targets@.contains(t) implies self.is_target(
                visit,
                t,
            ) by {
                let k = choose|k: int| 0 <= k < targets@.len() && targets@[k] == t;
                if k >= n_overrides {
                    let j = choose|j: int|
                        #![trigger calls@[j]]
                        0 <= j < n_calls && !calls@[j].new_context && targets@[k]
                            == self.edge_visit(visit, calls@[j]);
                    assert(self.procs@[visit.proc as int].calls@[j] == calls@[j]);
                }
            }
            assert forall|t: Visit| self.is_target(visit, t) implies #[trigger] targets@.contains(
                t,
            ) by {
                if !self.is_dispatch_target(visit, t) {
                    let j = choose|j: int|
                        #![trigger self.procs@[visit.proc as int].calls@[j]]
                        0 <= j < self.procs@[visit.proc as int].calls@.len()
                            && !self.procs@[visit.proc as int].calls@[j].new_context && t
                            == self.edge_visit(visit, self.procs@[visit.proc as int].calls@[j]);
                    assert(calls@[j] == self.procs@[visit.proc as int].calls@[j]);
                }
            }
            assert forall|k: int| 0 <= k < targets@.len() implies self.visit_valid(
                #[trigger] targets@[k],
            ) by {
                if k >= n_overrides {
                    let j = choose|j: int|
                        #![trigger calls@[j]]
                        0 <= j < n_calls && !calls@[j].new_context && targets@[k]
                            == self.edge_visit(visit, calls@[j]);
                    assert(self.procs@[visit.proc as int].calls@[j] == calls@[j]);
                    assert(self.proc_wf(self.procs@[calls@[j].proc as int]));
                } else {
                    assert(self.proc_wf(self.procs@[targets@[k].proc as int]));
                }
            }
        }
        proof {
            assert forall|q: int|
                0 <= q < self.procs@.len() && !visit.is_exact && (!(self.sleep_analysis_version is ReceiverProvenance)
                    || visit.receiver_is_stable) && self.procs@[visit.proc as int].ty != 0
                    && (#[trigger] self.procs@[q]).name@ == self.procs@[visit.proc as int].name@
                    && self.procs@[q].ty != self.procs@[visit.proc as int].ty && self.is_subtype(
                    self.procs@[q].ty as int,
                    self.procs@[visit.proc as int].ty as int,
                ) && (self.sleep_analysis_version is CallTree || self.is_subtype(
                    visit.receiver as int,
                    self.procs@[q].ty as int,
                ) || self.is_subtype(self.procs@[q].ty as int, visit.receiver as int))
                    implies targets@.contains(
                    Visit {
                        proc: q as usize,
                        receiver: self.procs@[q].ty,
                        is_exact: true,
                        receiver_is_stable: true,
                    },
                ) by {
                lemma_dynamic_call_reaches_overrides(self, visit, q);
            }
        }
        proof {
            assert forall|j: int|
                0 <= j < self.procs@[visit.proc as int].calls@.len() && !(#[trigger] self.procs@[visit.proc as int].calls@[j]).new_context
                    implies targets@.contains(
                    Visit {
                        proc: self.procs@[visit.proc as int].calls@[j].proc,
                        receiver: if self.sleep_analysis_version is CallTree {
                            self.procs@[self.procs@[visit.proc as int].calls@[j].proc as int].ty
                        } else if self.procs@[visit.proc as int].calls@[j].inherit_receiver {
                            visit.receiver
                        } else {
                            self.procs@[visit.proc as int].calls@[j].src
                        },
                        is_exact: self.procs@[visit.proc as int].calls@[j].is_exact,
                        receiver_is_stable: !(self.sleep_analysis_version is ReceiverProvenance) || (
                        self.procs@[visit.proc as int].calls@[j].inherit_receiver && visit.receiver_is_stable),
                    },
                ) by {
                assert(Visit {
                        proc: self.procs@[visit.proc as int].calls@[j].proc,
                        receiver: if self.sleep_analysis_version is CallTree {
                            self.procs@[self.procs@[visit.proc as int].calls@[j].proc as int].ty
                        } else if self.procs@[visit.proc as int].calls@[j].inherit_receiver {
                            visit.receiver
                        } else {
                            self.procs@[visit.proc as int].calls@[j].src
                        },
                        is_exact: self.procs@[visit.proc as int].calls@[j].is_exact,
                        receiver_is_stable: !(self.sleep_analysis_version is ReceiverProvenance) || (
                        self.procs@[visit.proc as int].calls@[j].inherit_receiver && visit.receiver_is_stable),
                    } == self.edge_visit(visit, self.procs@[visit.proc as int].calls@[j]));
                assert(self.is_call_target(visit, self.edge_visit(visit, self.procs@[visit.proc as int].calls@[j])));
            }
            assert forall|k: int| 0 <= k < targets@.len() implies (exists|j: int|
                    0 <= j < self.procs@[visit.proc as int].calls@.len() && !(#[trigger] self.procs@[visit.proc as int].calls@[j]).new_context
                        && targets@[k] == Visit {
                        proc: self.procs@[visit.proc as int].calls@[j].proc,
                        receiver: if self.sleep_analysis_version is CallTree {
                            self.procs@[self.procs@[visit.proc as int].calls@[j].proc as int].ty
                        } else if self.procs@[visit.proc as int].calls@[j].inherit_receiver {
                            visit.receiver
                        } else {
                            self.procs@[visit.proc as int].calls@[j].src
                        },
                        is_exact: self.procs@[visit.proc as int].calls@[j].is_exact,
                        receiver_is_stable: !(self.sleep_analysis_version is ReceiverProvenance) || (
                        self.procs@[visit.proc as int].calls@[j].inherit_receiver && visit.receiver_is_stable),
                    }) || (!visit.is_exact && (!(self.sleep_analysis_version is ReceiverProvenance)
                    || visit.receiver_is_stable) && self.procs@[visit.proc as int].ty != 0
                    && (#[trigger] targets@[k]).proc < self.procs@.len() && targets@[k].is_exact
                    && targets@[k].receiver_is_stable && targets@[k].receiver
                    == self.procs@[targets@[k].proc as int].ty
                    && self.procs@[targets@[k].proc as int].name@ == self.procs@[visit.proc as int].name@
                    && self.procs@[targets@[k].proc as int].ty != self.procs@[visit.proc as int].ty
                    && self.is_subtype(
                    self.procs@[targets@[k].proc as int].ty as int,
                    self.procs@[visit.proc as int].ty as int,
                ) && (self.sleep_analysis_version is CallTree || self.is_subtype(
                    visit.receiver as int,
                    self.procs@[targets@[k].proc as int].ty as int,
                ) || self.is_subtype(self.procs@[targets@[k].proc as int].ty as int, visit.receiver as int))) by {
                let t = targets@[k];
                assert(targets@.contains(t));
                assert(self.is_target(visit, t));
                if !self.is_dispatch_target(visit, t) {
                    let j = choose|j: int|
                        #![trigger self.procs@[visit.proc as int].calls@[j]]
                        0 <= j < self.procs@[visit.proc as int].calls@.len()
                            && !self.procs@[visit.proc as int].calls@[j].new_context && t == self.edge_visit(visit, self.procs@[visit.proc as int].calls@[j]);
                    assert(t == Visit {
                        proc: self.procs@[visit.proc as int].calls@[j].proc,
                        receiver: if self.sleep_analysis_version is CallTree {
                            self.procs@[self.procs@[visit.proc as int].calls@[j].proc as int].ty
                        } else if self.procs@[visit.proc as int].calls@[j].inherit_receiver {
                            visit.receiver
                        } else {
                            self.procs@[visit.proc as int].calls@[j].src
                        },
                        is_exact: self.procs@[visit.proc as int].calls@[j].is_exact,
                        receiver_is_stable: !(self.sleep_analysis_version is ReceiverProvenance) || (
                        self.procs@[visit.proc as int].calls@[j].inherit_receiver && visit.receiver_is_stable),
                    });
                }
            }
        }
        targets
    }
}

} // verus!
