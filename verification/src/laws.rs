//! What holds of every verdict, proved over the walk's definition.

use vstd::prelude::*;
use crate::model::{AnalyzeObjectTree, DeclarationKind, SleepAnalysisVersion};
use crate::visits::Visit;

verus! {

impl AnalyzeObjectTree {
    /// The same analysis, walked by the rules of `version`.
    pub open spec fn with_version(&self, version: SleepAnalysisVersion) -> AnalyzeObjectTree {
        AnalyzeObjectTree {
            types: self.types,
            procs: self.procs,
            sleep_analysis_version: version,
        }
    }

    /// Where a visit stands in version 1's walk: version 1 runs every proc
    /// on an object of the proc's own type and trusts every receiver.
    pub open spec fn call_tree_visit(&self, v: Visit) -> Visit {
        Visit {
            proc: v.proc,
            receiver: self.procs@[v.proc as int].ty,
            is_exact: v.is_exact,
            receiver_is_stable: true,
        }
    }
}

/// A caller waits for its callee: when the walk goes from `v` to `t` and `t`
/// can park its caller, so can `v`.
pub proof fn lemma_caller_of_parking_callee_parks(
    a: &AnalyzeObjectTree,
    v: Visit,
    t: Visit,
    unresolved_calls_sleep: bool,
)
    requires
        a.steps_to(v, t),
        a.can_park(t, unresolved_calls_sleep),
    ensures
        a.can_park(v, unresolved_calls_sleep),
{
    let path = choose|path: Seq<Visit>|
        #[trigger] a.is_parking_path(path, unresolved_calls_sleep) && path[0] == t;
    let longer = seq![v] + path;
    assert forall|i: int| 0 <= i < longer.len() - 1 implies #[trigger] a.steps_at(longer, i) by {
        if i > 0 {
            assert(a.steps_at(path, i - 1));
            assert(longer[i] == path[i - 1] && longer[i + 1] == path[i]);
        }
    }
    assert(longer.last() == path.last());
    assert(a.is_parking_path(longer, unresolved_calls_sleep));
    assert(longer[0] == v);
}

/// Setting `waitfor = 0` leaves the setter's verdict as it is: a visit whose
/// proc sleeps by itself can park its caller, whatever its proc's `waitfor`.
pub proof fn lemma_sleeping_proc_parks(a: &AnalyzeObjectTree, v: Visit, unresolved_calls_sleep: bool)
    requires
        a.parks_directly(v, unresolved_calls_sleep),
    ensures
        a.can_park(v, unresolved_calls_sleep),
{
    let path = seq![v];
    assert(a.is_parking_path(path, unresolved_calls_sleep));
}

/// A callee with `waitfor = 0` stops the walk up the callers: a proc that
/// does not park by itself, and whose every call outside `spawn` goes to a
/// proc with `waitfor = 0`, gets the verdict that it cannot park its caller.
pub proof fn lemma_waitfor_zero_callees_shield(a: &AnalyzeObjectTree, p: usize, unresolved_calls_sleep: bool)
    requires
        p < a.procs@.len(),
        !a.procs@[p as int].sleeps,
        !(unresolved_calls_sleep && a.procs@[p as int].has_unresolved_call),
        forall|i: int|
            0 <= i < a.procs@[p as int].calls@.len() && !(#[trigger] a.procs@[p as int].calls@[i]).new_context
                ==> a.procs@[a.procs@[p as int].calls@[i].proc as int].sets_waitfor_zero,
    ensures
        !a.can_park(a.exact_visit(p as int), unresolved_calls_sleep),
{
    let v = a.exact_visit(p as int);
    if a.can_park(v, unresolved_calls_sleep) {
        let path = choose|path: Seq<Visit>|
            #[trigger] a.is_parking_path(path, unresolved_calls_sleep) && path[0] == v;
        if path.len() == 1 {
            assert(path.last() == v);
        } else {
            assert(a.steps_at(path, 0));
            assert(a.is_target(v, path[1]));
            assert(!a.is_dispatch_target(v, path[1]));
            let i = choose|i: int|
                #![trigger a.procs@[v.proc as int].calls@[i]]
                0 <= i < a.procs@[v.proc as int].calls@.len()
                    && !a.procs@[v.proc as int].calls@[i].new_context && path[1] == a.edge_visit(
                    v,
                    a.procs@[v.proc as int].calls@[i],
                );
            assert(v.proc == p);
        }
    }
}

/// Trusting the calls that could not be tied to a proc only ever clears
/// verdicts: what can park its caller when such calls do not count as
/// sleeping can park it when they do.
pub proof fn lemma_trusting_unresolved_calls_only_clears(a: &AnalyzeObjectTree, v: Visit)
    requires
        a.can_park(v, false),
    ensures
        a.can_park(v, true),
{
    let path = choose|path: Seq<Visit>| #[trigger] a.is_parking_path(path, false) && path[0] == v;
    assert(a.is_parking_path(path, true));
}

/// A type inherits from its ancestors' ancestors.
pub proof fn lemma_subtype_transitive(a: &AnalyzeObjectTree, t: int, u: int, w: int)
    requires
        a.wf(),
        a.is_subtype(t, u),
        a.is_subtype(u, w),
    ensures
        a.is_subtype(t, w),
    decreases t,
{
    if t != u {
        let p = a.types@[t].parent->0;
        lemma_subtype_transitive(a, p as int, u, w);
    }
}

/// A type comes no earlier than any type it inherits from.
pub proof fn lemma_subtype_comes_later(a: &AnalyzeObjectTree, t: int, u: int)
    requires
        a.wf(),
        a.is_subtype(t, u),
    ensures
        u <= t,
    decreases t,
{
    if t != u {
        let p = a.types@[t].parent->0;
        lemma_subtype_comes_later(a, p as int, u);
    }
}

/// Override dispatch is followed through every level: an override of an
/// override of `p`, that an object of type `receiver` can run, is an override
/// of `p` for that object.
pub proof fn lemma_overrides_compose(a: &AnalyzeObjectTree, p: int, q: int, r: int, receiver: int)
    requires
        a.wf(),
        0 <= p < a.procs@.len(),
        0 <= q < a.procs@.len(),
        0 <= r < a.procs@.len(),
        a.is_override(p, q, receiver),
        a.is_override(q, r, receiver),
    ensures
        a.is_override(p, r, receiver),
{
    let (pt, qt, rt) = (
        a.procs@[p].ty as int,
        a.procs@[q].ty as int,
        a.procs@[r].ty as int,
    );
    lemma_subtype_transitive(a, rt, qt, pt);
    lemma_subtype_comes_later(a, rt, qt);
    lemma_subtype_comes_later(a, qt, pt);
}

/// Inheritance depends on the types alone.
proof fn lemma_subtype_same_types(a: &AnalyzeObjectTree, b: &AnalyzeObjectTree, t: int, u: int)
    requires
        a.types == b.types,
    ensures
        a.is_subtype(t, u) == b.is_subtype(t, u),
    decreases t,
{
    if t != u && 0 < t < a.types@.len() {
        match a.types@[t].parent {
            Some(p) => {
                if p < t {
                    lemma_subtype_same_types(a, b, p as int, u);
                }
            },
            None => {},
        }
    }
}

/// Version 1 follows every override: every step of the walk under any
/// version is a step of version 1's walk, seen from where version 1 stands.
pub proof fn lemma_call_tree_step(a: &AnalyzeObjectTree, v: Visit, t: Visit)
    requires
        a.steps_to(v, t),
    ensures
        a.with_version(SleepAnalysisVersion::CallTree).steps_to(
            a.call_tree_visit(v),
            a.call_tree_visit(t),
        ),
{
    let b = a.with_version(SleepAnalysisVersion::CallTree);
    let bv = a.call_tree_visit(v);
    let bt = a.call_tree_visit(t);
    assert(b.procs == a.procs);
    assert(b.sleep_analysis_version is CallTree);
    if a.is_dispatch_target(v, t) {
        assert(b.dispatches(bv));
        lemma_subtype_same_types(a, &b, a.procs@[t.proc as int].ty as int, a.procs@[v.proc as int].ty as int);
        assert(b.is_override(bv.proc as int, bt.proc as int, bv.receiver as int));
        assert(bt == b.exact_visit(bt.proc as int));
        assert(b.is_dispatch_target(bv, bt));
    } else {
        let i = choose|i: int|
            #![trigger a.procs@[v.proc as int].calls@[i]]
            0 <= i < a.procs@[v.proc as int].calls@.len()
                && !a.procs@[v.proc as int].calls@[i].new_context && t == a.edge_visit(
                v,
                a.procs@[v.proc as int].calls@[i],
            );
        let e = a.procs@[v.proc as int].calls@[i];
        assert(bt == b.edge_visit(bv, e));
        assert(b.procs@[bv.proc as int].calls@[i] == e);
        assert(b.is_call_target(bv, bt));
    }
}

/// Version 1 follows every override, so it parks whatever any version
/// parks: if a visit can park its caller, the same proc seen from version
/// 1's walk can too.
pub proof fn lemma_call_tree_parks_whatever_any_version_parks(
    a: &AnalyzeObjectTree,
    v: Visit,
    unresolved_calls_sleep: bool,
)
    requires
        a.can_park(v, unresolved_calls_sleep),
    ensures
        a.with_version(SleepAnalysisVersion::CallTree).can_park(
            a.call_tree_visit(v),
            unresolved_calls_sleep,
        ),
{
    let b = a.with_version(SleepAnalysisVersion::CallTree);
    let path = choose|path: Seq<Visit>|
        #[trigger] a.is_parking_path(path, unresolved_calls_sleep) && path[0] == v;
    let mapped = path.map_values(|w: Visit| a.call_tree_visit(w));
    assert forall|i: int| 0 <= i < mapped.len() - 1 implies #[trigger] b.steps_at(mapped, i) by {
        assert(a.steps_at(path, i));
        lemma_call_tree_step(a, path[i], path[i + 1]);
    }
    assert(mapped.last() == a.call_tree_visit(path.last()));
    assert(b.is_parking_path(mapped, unresolved_calls_sleep));
    assert(mapped[0] == a.call_tree_visit(v));
}

/// Where a visit stands in version 2's walk: version 2 trusts every
/// receiver.
pub open spec fn trusting_visit(v: Visit) -> Visit {
    Visit { receiver_is_stable: true, ..v }
}

/// Version 3 only narrows version 2: every step of version 3's walk is a
/// step of version 2's walk once every receiver is trusted.
pub proof fn lemma_dynamic_dispatch_step(a: &AnalyzeObjectTree, v: Visit, t: Visit)
    requires
        a.sleep_analysis_version is ReceiverProvenance,
        a.steps_to(v, t),
    ensures
        a.with_version(SleepAnalysisVersion::DynamicDispatch).steps_to(
            trusting_visit(v),
            trusting_visit(t),
        ),
{
    let b = a.with_version(SleepAnalysisVersion::DynamicDispatch);
    let bv = trusting_visit(v);
    let bt = trusting_visit(t);
    assert(b.procs == a.procs);
    if a.is_dispatch_target(v, t) {
        assert(b.dispatches(bv));
        lemma_subtype_same_types(a, &b, a.procs@[t.proc as int].ty as int, a.procs@[v.proc as int].ty as int);
        lemma_subtype_same_types(a, &b, a.procs@[t.proc as int].ty as int, v.receiver as int);
        lemma_subtype_same_types(a, &b, v.receiver as int, a.procs@[t.proc as int].ty as int);
        assert(b.is_override(bv.proc as int, bt.proc as int, bv.receiver as int));
        assert(bt == b.exact_visit(bt.proc as int));
        assert(b.is_dispatch_target(bv, bt));
    } else {
        let i = choose|i: int|
            #![trigger a.procs@[v.proc as int].calls@[i]]
            0 <= i < a.procs@[v.proc as int].calls@.len()
                && !a.procs@[v.proc as int].calls@[i].new_context && t == a.edge_visit(
                v,
                a.procs@[v.proc as int].calls@[i],
            );
        let e = a.procs@[v.proc as int].calls@[i];
        assert(bt == b.edge_visit(bv, e));
        assert(b.procs@[bv.proc as int].calls@[i] == e);
        assert(b.is_call_target(bv, bt));
    }
}

/// Version 3 only narrows version 2: what can park its caller under
/// version 3 can park it under version 2, with every receiver trusted.
pub proof fn lemma_dynamic_dispatch_parks_whatever_receiver_provenance_parks(
    a: &AnalyzeObjectTree,
    v: Visit,
    unresolved_calls_sleep: bool,
)
    requires
        a.sleep_analysis_version is ReceiverProvenance,
        a.can_park(v, unresolved_calls_sleep),
    ensures
        a.with_version(SleepAnalysisVersion::DynamicDispatch).can_park(
            trusting_visit(v),
            unresolved_calls_sleep,
        ),
{
    let b = a.with_version(SleepAnalysisVersion::DynamicDispatch);
    let path = choose|path: Seq<Visit>|
        #[trigger] a.is_parking_path(path, unresolved_calls_sleep) && path[0] == v;
    let mapped = path.map_values(|w: Visit| trusting_visit(w));
    assert forall|i: int| 0 <= i < mapped.len() - 1 implies #[trigger] b.steps_at(mapped, i) by {
        assert(a.steps_at(path, i));
        lemma_dynamic_dispatch_step(a, path[i], path[i + 1]);
    }
    assert(mapped.last() == trusting_visit(path.last()));
    assert(b.is_parking_path(mapped, unresolved_calls_sleep));
    assert(mapped[0] == trusting_visit(v));
}

/// A proc whose body sleeps, or makes a call that could not be tied to a
/// proc while such calls count as sleeping, gets the verdict that it parks
/// its caller, whatever it sets `waitfor` to.
pub proof fn lemma_parking_body_gets_parking_verdict(
    a: &AnalyzeObjectTree,
    unresolved_calls_sleep: bool,
    k: int,
)
    requires
        0 <= k < a.sleep_verdicts_spec(unresolved_calls_sleep).len(),
        a.procs@[a.sleep_verdicts_spec(unresolved_calls_sleep)[k].0 as int].sleeps || (
        unresolved_calls_sleep
            && a.procs@[a.sleep_verdicts_spec(unresolved_calls_sleep)[k].0 as int].has_unresolved_call),
    ensures
        a.sleep_verdicts_spec(unresolved_calls_sleep)[k].1,
{
    let p = a.judged_procs(a.procs@.len() as int)[k];
    assert(a.sleep_verdicts_spec(unresolved_calls_sleep)[k] == (
        p,
        a.can_park(a.exact_visit(p as int), unresolved_calls_sleep),
    ));
    lemma_sleeping_proc_parks(a, a.exact_visit(p as int), unresolved_calls_sleep);
}

/// A dynamic call on a trusted receiver reaches every copy with the called
/// proc's name on a type strictly below the called proc's type, at any
/// depth and whatever its copy index, that an object of the receiver's type
/// can run: one at or below the receiver's type, or above it at any depth.
/// Version 1 reaches every such copy whatever the receiver.
pub proof fn lemma_dynamic_call_reaches_overrides(a: &AnalyzeObjectTree, v: Visit, q: int)
    requires
        0 <= v.proc < a.procs@.len(),
        0 <= q < a.procs@.len(),
        !v.is_exact,
        !(a.sleep_analysis_version is ReceiverProvenance) || v.receiver_is_stable,
        a.procs@[v.proc as int].ty != 0,
        a.procs@[q].name@ == a.procs@[v.proc as int].name@,
        a.procs@[q].ty != a.procs@[v.proc as int].ty,
        a.is_subtype(a.procs@[q].ty as int, a.procs@[v.proc as int].ty as int),
        a.sleep_analysis_version is CallTree || a.is_subtype(
            v.receiver as int,
            a.procs@[q].ty as int,
        ) || a.is_subtype(a.procs@[q].ty as int, v.receiver as int),
    ensures
        a.is_target(
            v,
            Visit {
                proc: q as usize,
                receiver: a.procs@[q].ty,
                is_exact: true,
                receiver_is_stable: true,
            },
        ),
{
    let t = Visit {
        proc: q as usize,
        receiver: a.procs@[q].ty,
        is_exact: true,
        receiver_is_stable: true,
    };
    assert(a.procs.len() == a.procs@.len());
    assert((q as usize) as int == q);
    assert(t == a.exact_visit(q));
    assert(a.is_override(v.proc as int, q, v.receiver as int));
    assert(a.is_dispatch_target(v, t));
}

/// Every copy with a proc's name on a type strictly below the proc's type
/// is one of its overrides, at any depth and whatever its copy index.
pub proof fn lemma_every_copy_below_overrides(a: &AnalyzeObjectTree, p: int, q: int)
    requires
        a.procs@[q].name@ == a.procs@[p].name@,
        a.procs@[q].ty != a.procs@[p].ty,
        a.is_subtype(a.procs@[q].ty as int, a.procs@[p].ty as int),
    ensures
        a.overrides_on_subtype(p, q),
{
}

/// A copy after the first on its type is spelled `type/name`, whatever its
/// type declares; the first copy on the type that declares it carries
/// `proc` or `verb` between the two.
pub proof fn lemma_dmb_spelling(a: &AnalyzeObjectTree, p: int)
    requires
        0 <= p < a.procs@.len(),
    ensures
        ({
            let info = a.procs@[p];
            let ty_path = a.types@[info.ty as int].path@;
            &&& (info.index != 0 || info.declaration is None) ==> a.dmb_path_spec(p) == ty_path
                + seq!['/'] + info.name@
            &&& (info.index == 0 && info.declaration == Some(DeclarationKind::Proc))
                ==> a.dmb_path_spec(p) == ty_path + seq!['/', 'p', 'r', 'o', 'c', '/'] + info.name@
            &&& (info.index == 0 && info.declaration == Some(DeclarationKind::Verb))
                ==> a.dmb_path_spec(p) == ty_path + seq!['/', 'v', 'e', 'r', 'b', '/'] + info.name@
        }),
{
    let info = a.procs@[p];
    let ty_path = a.types@[info.ty as int].path@;
    if info.index == 0 && info.declaration == Some(DeclarationKind::Proc) {
        assert(ty_path + seq!['/'] + seq!['p', 'r', 'o', 'c'] + seq!['/'] + info.name@ =~= ty_path
            + seq!['/', 'p', 'r', 'o', 'c', '/'] + info.name@);
    }
    if info.index == 0 && info.declaration == Some(DeclarationKind::Verb) {
        assert(ty_path + seq!['/'] + seq!['v', 'e', 'r', 'b'] + seq!['/'] + info.name@ =~= ty_path
            + seq!['/', 'v', 'e', 'r', 'b', '/'] + info.name@);
    }
}

/// A path is allowed exactly when some judged proc is spelled so and every
/// proc spelled so gets the verdict that it cannot park its caller; nothing
/// else about those procs matters.
pub proof fn lemma_allowed_exactly_when_every_copy_is_safe(
    a: &AnalyzeObjectTree,
    unresolved_calls_sleep: bool,
    path: Seq<char>,
)
    ensures
        a.is_allowed_path(path, unresolved_calls_sleep) <==> ({
            let verdicts = a.sleep_verdicts_spec(unresolved_calls_sleep);
            &&& exists|k: int|
                0 <= k < verdicts.len() && #[trigger] a.dmb_path_spec(verdicts[k].0 as int) == path
            &&& forall|k: int|
                0 <= k < verdicts.len() && #[trigger] a.dmb_path_spec(verdicts[k].0 as int) == path
                    ==> !verdicts[k].1
        }),
{
    let verdicts = a.sleep_verdicts_spec(unresolved_calls_sleep);
    if exists|k: int|
        0 <= k < verdicts.len() && #[trigger] a.dmb_path_spec(verdicts[k].0 as int) == path {
        let k = choose|k: int|
            0 <= k < verdicts.len() && #[trigger] a.dmb_path_spec(verdicts[k].0 as int) == path;
        assert(a.dmb_path_spec(verdicts[k].0 as int) == path);
    }
    if a.is_allowed_path(path, unresolved_calls_sleep) {
        let k = choose|k: int|
            0 <= k < verdicts.len() && a.dmb_path_spec((#[trigger] verdicts[k]).0 as int) == path;
        assert(a.dmb_path_spec(verdicts[k].0 as int) == path);
    }
}

/// A judged proc that cannot park its caller, and whose spelling no other
/// judged proc shares, is allowed, whatever it sets `waitfor` to.
pub proof fn lemma_lone_safe_proc_is_allowed(a: &AnalyzeObjectTree, unresolved_calls_sleep: bool, k: int)
    requires
        0 <= k < a.sleep_verdicts_spec(unresolved_calls_sleep).len(),
        !a.sleep_verdicts_spec(unresolved_calls_sleep)[k].1,
        forall|j: int|
            0 <= j < a.sleep_verdicts_spec(unresolved_calls_sleep).len() && j != k ==> a.dmb_path_spec(
                (#[trigger] a.sleep_verdicts_spec(unresolved_calls_sleep)[j]).0 as int,
            ) != a.dmb_path_spec(a.sleep_verdicts_spec(unresolved_calls_sleep)[k].0 as int),
    ensures
        a.is_allowed_path(
            a.dmb_path_spec(a.sleep_verdicts_spec(unresolved_calls_sleep)[k].0 as int),
            unresolved_calls_sleep,
        ),
{
    let verdicts = a.sleep_verdicts_spec(unresolved_calls_sleep);
    let path = a.dmb_path_spec(verdicts[k].0 as int);
    assert(a.dmb_path_spec(verdicts[k].0 as int) == path);
    lemma_allowed_exactly_when_every_copy_is_safe(a, unresolved_calls_sleep, path);
}

/// The procs that get a verdict among the first `n` are the ones that are
/// not builtins, each once, in increasing order.
pub proof fn lemma_judged_procs_are_the_non_builtins(a: &AnalyzeObjectTree, n: int)
    requires
        0 <= n <= a.procs@.len(),
    ensures
        forall|k: int|
            0 <= k < a.judged_procs(n).len() ==> #[trigger] a.judged_procs(n)[k] < n
                && !a.procs@[a.judged_procs(n)[k] as int].is_builtin,
        forall|i: int, j: int|
            0 <= i < j < a.judged_procs(n).len() ==> #[trigger] a.judged_procs(n)[i]
                < #[trigger] a.judged_procs(n)[j],
        forall|p: int|
            0 <= p < n && !(#[trigger] a.procs@[p]).is_builtin ==> exists|k: int|
                0 <= k < a.judged_procs(n).len() && a.judged_procs(n)[k] == p,
    decreases n,
{
    if n > 0 {
        lemma_judged_procs_are_the_non_builtins(a, n - 1);
        let shorter = a.judged_procs(n - 1);
        let all = a.judged_procs(n);
        assert forall|k: int| 0 <= k < shorter.len() implies #[trigger] all[k] == shorter[k] by {}
        assert forall|p: int|
            0 <= p < n && !(#[trigger] a.procs@[p]).is_builtin implies exists|k: int|
                0 <= k < all.len() && all[k] == p by {
            if p < n - 1 {
                let k = choose|k: int| 0 <= k < shorter.len() && shorter[k] == p;
                assert(all[k] == p);
            } else {
                assert(a.procs.len() == a.procs@.len());
                assert(all[all.len() - 1] == p);
            }
        }
    }
}

/// `a` sorts before `b` exactly when, at the first position where they
/// differ, `a`'s char has the smaller code point, or `a` is a strict prefix
/// of `b`.
pub proof fn lemma_lex_lt_meaning(a: Seq<char>, b: Seq<char>)
    ensures
        crate::paths::lex_lt(a, b) <==> ((a.len() < b.len() && a =~= b.subrange(0, a.len() as int))
            || exists|i: int|
            0 <= i < a.len() && i < b.len() && a.subrange(0, i) =~= b.subrange(0, i)
                && (#[trigger] a[i] as int) < (b[i] as int)),
    decreases a.len(),
{
    if a.len() > 0 && b.len() > 0 {
        lemma_lex_lt_meaning(a.drop_first(), b.drop_first());
        let (a1, b1) = (a.drop_first(), b.drop_first());
        if a[0] == b[0] {
            if a1.len() < b1.len() && a1 =~= b1.subrange(0, a1.len() as int) {
                assert forall|m: int| 0 <= m < a.len() implies #[trigger] a[m] == b.subrange(
                    0,
                    a.len() as int,
                )[m] by {
                    if m > 0 {
                        assert(a[m] == a1[m - 1]);
                        assert(a1[m - 1] == b1.subrange(0, a1.len() as int)[m - 1]);
                    }
                }
                assert(a =~= b.subrange(0, a.len() as int));
            }
            if a.len() < b.len() && a =~= b.subrange(0, a.len() as int) {
                assert(a1 =~= b1.subrange(0, a1.len() as int));
            }
            if exists|i: int|
                0 <= i < a1.len() && i < b1.len() && a1.subrange(0, i) =~= b1.subrange(0, i)
                    && (#[trigger] a1[i] as int) < (b1[i] as int) {
                let i = choose|i: int|
                    0 <= i < a1.len() && i < b1.len() && a1.subrange(0, i) =~= b1.subrange(0, i)
                        && (#[trigger] a1[i] as int) < (b1[i] as int);
                assert(a.subrange(0, i + 1) =~= b.subrange(0, i + 1)) by {
                    assert forall|m: int| 0 <= m < i + 1 implies #[trigger] a.subrange(0, i + 1)[m]
                        == b.subrange(0, i + 1)[m] by {
                        if m > 0 {
                            assert(a1.subrange(0, i)[m - 1] == b1.subrange(0, i)[m - 1]);
                        }
                    }
                }
                assert((a[i + 1] as int) < (b[i + 1] as int));
            }
            if exists|i: int|
                0 <= i < a.len() && i < b.len() && a.subrange(0, i) =~= b.subrange(0, i)
                    && (#[trigger] a[i] as int) < (b[i] as int) {
                let i = choose|i: int|
                    0 <= i < a.len() && i < b.len() && a.subrange(0, i) =~= b.subrange(0, i)
                        && (#[trigger] a[i] as int) < (b[i] as int);
                assert(i > 0);
                assert(a1.subrange(0, i - 1) =~= b1.subrange(0, i - 1)) by {
                    assert forall|m: int| 0 <= m < i - 1 implies #[trigger] a1.subrange(0, i - 1)[m]
                        == b1.subrange(0, i - 1)[m] by {
                        assert(a.subrange(0, i)[m + 1] == b.subrange(0, i)[m + 1]);
                    }
                }
                assert((a1[i - 1] as int) < (b1[i - 1] as int));
            }
        } else {
            if (a[0] as int) < (b[0] as int) {
                assert(a.subrange(0, 0) =~= b.subrange(0, 0));
                assert((a[0] as int) < (b[0] as int));
            } else {
                if a.len() < b.len() && a =~= b.subrange(0, a.len() as int) {
                    assert(a[0] == b.subrange(0, a.len() as int)[0]);
                }
                if exists|i: int|
                    0 <= i < a.len() && i < b.len() && a.subrange(0, i) =~= b.subrange(0, i)
                        && (#[trigger] a[i] as int) < (b[i] as int) {
                    let i = choose|i: int|
                        0 <= i < a.len() && i < b.len() && a.subrange(0, i) =~= b.subrange(0, i)
                            && (#[trigger] a[i] as int) < (b[i] as int);
                    if i > 0 {
                        assert(a.subrange(0, i)[0] == b.subrange(0, i)[0]);
                    }
                }
            }
        }
    } else if a.len() == 0 {
        if b.len() > 0 {
            assert(a =~= b.subrange(0, 0));
        }
    }
}

} // verus!
