//! For each proc, the procs with its name on the types below its type: the
//! copies that a dynamic call of it may dispatch to.

use vstd::prelude::*;
use crate::laws::{lemma_every_copy_below_overrides, lemma_subtype_comes_later};
use crate::model::AnalyzeObjectTree;

verus! {

/// A list with `x` pushed holds what it held, and `x`.
proof fn lemma_push_contains(list: Seq<usize>, x: usize, y: usize)
    ensures
        list.push(x).contains(y) <==> (list.contains(y) || y == x),
{
    if list.contains(y) {
        let k = choose|k: int| 0 <= k < list.len() && list[k] == y;
        assert(list.push(x)[k] == y);
    }
    if y == x {
        assert(list.push(x)[list.len() as int] == y);
    }
    if list.push(x).contains(y) && y != x {
        let k = choose|k: int| 0 <= k < list.len() + 1 && list.push(x)[k] == y;
        assert(list[k] == y);
    }
}

/// The numbers of `list` strictly increase.
pub open spec fn increasing(list: Seq<usize>) -> bool {
    forall|i: int, j: int| 0 <= i < j < list.len() ==> list[i] < list[j]
}

/// A list that increases stays so with a larger number pushed.
proof fn lemma_push_increasing(list: Seq<usize>, x: usize)
    requires
        increasing(list),
        forall|i: int| 0 <= i < list.len() ==> list[i] < x,
    ensures
        increasing(list.push(x)),
{
    assert forall|i: int, j: int| 0 <= i < j < list.push(x).len() implies list.push(x)[i] < list.push(x)[j] by {
        if j < list.len() {
            assert(list.push(x)[i] == list[i] && list.push(x)[j] == list[j]);
        } else {
            assert(list.push(x)[i] == list[i]);
        }
    }
}

impl AnalyzeObjectTree {
    /// Type `x` is `cur` or above it, where there is a `cur`.
    pub open spec fn at_or_above(&self, cur: Option<usize>, x: int) -> bool {
        match cur {
            Some(c) => self.is_subtype(c as int, x),
            None => false,
        }
    }

    /// `table` lists, for each proc, the procs that have its name on a
    /// strict subtype of its type, in increasing order.
    pub open spec fn is_override_table(&self, table: Seq<Vec<usize>>) -> bool {
        &&& table.len() == self.procs@.len()
        &&& forall|p: int| 0 <= p < table.len() ==> increasing(#[trigger] table[p]@)
        &&& forall|p: int, q: usize|
            0 <= p < table.len() ==> ((#[trigger] table[p]@.contains(q)) <==> (q
                < self.procs@.len() && self.overrides_on_subtype(p, q as int)))
    }

    /// `table` lists, for each type, the procs defined on it, in increasing
    /// order.
    pub open spec fn is_type_table(&self, table: Seq<Vec<usize>>) -> bool {
        &&& table.len() == self.types@.len()
        &&& forall|t: int| 0 <= t < table.len() ==> increasing(#[trigger] table[t]@)
        &&& forall|t: int, p: usize|
            0 <= t < table.len() ==> ((#[trigger] table[t]@.contains(p)) <==> (p
                < self.procs@.len() && self.procs@[p as int].ty == t))
    }

    /// For each type, the procs defined on it.
    fn procs_by_type(&self) -> (table: Vec<Vec<usize>>)
        requires
            self.wf(),
        ensures
            self.is_type_table(table@),
    {
        let n_types = self.types.len();
        let n_procs = self.procs.len();
        let mut table: Vec<Vec<usize>> = Vec::new();
        let mut t: usize = 0;
        while t < n_types
            invariant
                t <= n_types,
                table@.len() == t,
                forall|u: int| 0 <= u < t ==> (#[trigger] table@[u])@.len() == 0,
            decreases n_types - t,
        {
            table.push(Vec::new());
            t = t + 1;
        }
        let mut p: usize = 0;
        while p < n_procs
            invariant
                self.wf(),
                n_types == self.types@.len(),
                n_procs == self.procs@.len(),
                p <= n_procs,
                table@.len() == n_types,
                forall|u: int| 0 <= u < n_types ==> increasing(#[trigger] table@[u]@),
                forall|u: int, q: usize|
                    0 <= u < n_types ==> ((#[trigger] table@[u]@.contains(q)) <==> (q < p
                        && self.procs@[q as int].ty == u)),
            decreases n_procs - p,
        {
            let ty = self.procs[p].ty;
            proof {
                assert(self.proc_wf(self.procs@[p as int]));
            }
            let ghost before = table@;
            proof {
                assert forall|i: int| 0 <= i < before[ty as int]@.len() implies before[ty as int]@[i] < p by {
                    assert(before[ty as int]@.contains(before[ty as int]@[i]));
                }
                lemma_push_increasing(before[ty as int]@, p);
            }
            table[ty].push(p);
            proof {
                assert forall|u: int| 0 <= u < n_types implies increasing(#[trigger] table@[u]@) by {
                    if u != ty {
                        assert(table@[u] == before[u]);
                    }
                }
                assert forall|u: int, q: usize|
                    0 <= u < n_types implies ((#[trigger] table@[u]@.contains(q)) <==> (q < p + 1
                        && self.procs@[q as int].ty == u)) by {
                    if u == ty {
                        assert(table@[u]@ == before[u]@.push(p));
                        lemma_push_contains(before[u]@, p, q);
                        assert(before[u]@.contains(q) <==> (q < p && self.procs@[q as int].ty == u));
                    } else {
                        assert(table@[u] == before[u]);
                        assert(before[u]@.contains(q) <==> (q < p && self.procs@[q as int].ty == u));
                    }
                }
            }
            p = p + 1;
        }
        table
    }

    /// A type that is not the root is below exactly the types its parent
    /// is, and itself.
    proof fn lemma_strict_ancestors(&self, t: int, a: int)
        requires
            self.wf(),
            0 < t < self.types@.len(),
        ensures
            (self.is_subtype(t, a) && a != t) <==> self.is_subtype(
                self.types@[t].parent->0 as int,
                a,
            ),
    {
        let p = self.types@[t].parent->0 as int;
        assert(self.types@[t].parent matches Some(q) && q < t);
        if self.is_subtype(p, a) {
            lemma_subtype_comes_later(self, p, a);
        }
    }

    /// For each proc, the procs with its name on a strict subtype of its
    /// type.
    pub fn override_table(&self) -> (table: Vec<Vec<usize>>)
        requires
            self.wf(),
        ensures
            self.is_override_table(table@),
            forall|p: int, q: usize|
                0 <= p < self.procs@.len() && q < self.procs@.len()
                    && self.procs@[q as int].name@ == self.procs@[p].name@ && self.procs@[q as int].ty
                    != self.procs@[p].ty && self.is_subtype(
                    self.procs@[q as int].ty as int,
                    self.procs@[p].ty as int,
                ) ==> #[trigger] table@[p]@.contains(q),
            forall|p: int, q: usize|
                0 <= p < self.procs@.len() && #[trigger] table@[p]@.contains(q) ==> q
                    < self.procs@.len() && self.procs@[q as int].name@ == self.procs@[p].name@
                    && self.procs@[q as int].ty != self.procs@[p].ty && self.is_subtype(
                    self.procs@[q as int].ty as int,
                    self.procs@[p].ty as int,
                ),
    {
        let by_type = self.procs_by_type();
        let n_procs = self.procs.len();
        let mut table: Vec<Vec<usize>> = Vec::new();
        let mut p: usize = 0;
        while p < n_procs
            invariant
                p <= n_procs,
                table@.len() == p,
                forall|u: int| 0 <= u < p ==> (#[trigger] table@[u])@.len() == 0,
            decreases n_procs - p,
        {
            table.push(Vec::new());
            p = p + 1;
        }
        let mut q: usize = 0;
        while q < n_procs
            invariant
                self.wf(),
                self.is_type_table(by_type@),
                n_procs == self.procs@.len(),
                q <= n_procs,
                table@.len() == n_procs,
                forall|p2: int| 0 <= p2 < n_procs ==> increasing(#[trigger] table@[p2]@),
                forall|p2: int, q2: usize|
                    0 <= p2 < n_procs ==> ((#[trigger] table@[p2]@.contains(q2)) <==> (q2 < q
                        && self.overrides_on_subtype(p2, q2 as int))),
            decreases n_procs - q,
        {
            let q_ty = self.procs[q].ty;
            proof {
                assert(self.proc_wf(self.procs@[q as int]));
            }
            let mut cur: Option<usize> = self.types[q_ty].parent;
            let ghost start = table@;
            proof {
                if q_ty > 0 {
                    assert(self.types@[q_ty as int].parent matches Some(x) && x < q_ty);
                }
                assert forall|x: int|
                    self.at_or_above(cur, x) implies (self.is_subtype(
                        q_ty as int,
                        x,
                    ) && x != q_ty) by {
                    if q_ty > 0 {
                        self.lemma_strict_ancestors(q_ty as int, x);
                    }
                }
                assert forall|p2: int|
                    0 <= p2 < n_procs implies ((#[trigger] table@[p2]@.contains(q)) <==> (
                    self.overrides_on_subtype(p2, q as int) && !self.at_or_above(cur, self.procs@[p2].ty as int))) by {
                    let pt = self.procs@[p2].ty as int;
                    if self.overrides_on_subtype(p2, q as int) {
                        if q_ty > 0 {
                            self.lemma_strict_ancestors(q_ty as int, pt);
                        } else {
                            assert(!self.is_subtype(0, pt));
                        }
                    }
                }
            }
            loop
                invariant
                    self.wf(),
                    self.is_type_table(by_type@),
                    n_procs == self.procs@.len(),
                    q < n_procs,
                    q_ty == self.procs@[q as int].ty,
                    q_ty < self.types@.len(),
                    table@.len() == n_procs,
                    forall|p2: int| 0 <= p2 < n_procs ==> increasing(#[trigger] table@[p2]@),
                    cur matches Some(c) ==> c < self.types@.len(),
                    forall|x: int|
                        self.at_or_above(cur, x) ==> (self.is_subtype(
                            q_ty as int,
                            x,
                        ) && x != q_ty),
                    forall|p2: int, q2: usize|
                        0 <= p2 < n_procs && q2 != q ==> ((#[trigger] table@[p2]@.contains(q2))
                            <==> start[p2]@.contains(q2)),
                    forall|p2: int, q2: usize|
                        0 <= p2 < n_procs ==> ((#[trigger] start[p2]@.contains(q2)) <==> (q2 < q
                            && self.overrides_on_subtype(p2, q2 as int))),
                    forall|p2: int|
                        0 <= p2 < n_procs ==> ((#[trigger] table@[p2]@.contains(q)) <==> (
                        self.overrides_on_subtype(p2, q as int) && !self.at_or_above(cur, self.procs@[p2].ty as int))),
                ensures
                    cur is None,
                decreases (match cur {
                    Some(c) => c + 1,
                    None => 0,
                }),
            {
                match cur {
                    None => {
                        break ;
                    },
                    Some(a) => {
                        let on_a = &by_type[a];
                        let n_on_a = on_a.len();
                        let ghost before = table@;
                        let mut k: usize = 0;
                        while k < n_on_a
                            invariant
                                self.wf(),
                                self.is_type_table(by_type@),
                                a < self.types@.len(),
                                *on_a == by_type@[a as int],
                                n_on_a == on_a@.len(),
                                k <= n_on_a,
                                n_procs == self.procs@.len(),
                                q < n_procs,
                                table@.len() == n_procs,
                                forall|p2: int| 0 <= p2 < n_procs ==> increasing(#[trigger] table@[p2]@),
                                forall|p2: int, q2: usize|
                                    0 <= p2 < n_procs && q2 != q && #[trigger] before[p2]@.contains(q2) ==> q2 < q,
                                forall|p2: int|
                                    0 <= p2 < n_procs ==> (#[trigger] before[p2]@.contains(q) <==> (
                                    self.overrides_on_subtype(p2, q as int) && !self.at_or_above(
                                        Some(a),
                                        self.procs@[p2].ty as int,
                                    ))),
                                forall|p2: int, q2: usize|
                                    0 <= p2 < n_procs && q2 != q ==> ((#[trigger] table@[p2]@.contains(
                                        q2,
                                    )) <==> before[p2]@.contains(q2)),
                                forall|p2: int|
                                    0 <= p2 < n_procs ==> ((#[trigger] table@[p2]@.contains(q)) <==> (
                                    before[p2]@.contains(q) || (on_a@.subrange(0, k as int).contains(
                                        p2 as usize,
                                    ) && self.procs@[p2].name@ == self.procs@[q as int].name@))),
                            decreases n_on_a - k,
                        {
                            let p2 = on_a[k];
                            proof {
                                assert(by_type@[a as int]@.contains(p2));
                            }
                            let ghost tk = table@;
                            let same_name = self.procs[p2].name == self.procs[q].name;
                            if same_name {
                                proof {
                                    assert(self.procs@[p2 as int].ty == a);
                                    assert(self.is_subtype(a as int, a as int));
                                    assert(!before[p2 as int]@.contains(q));
                                    assert(increasing(by_type@[a as int]@));
                                    if on_a@.subrange(0, k as int).contains(p2) {
                                        let w = choose|w: int| 0 <= w < k && on_a@.subrange(0, k as int)[w] == p2;
                                        assert(on_a@[w] == p2);
                                    }
                                    assert(!tk[p2 as int]@.contains(q));
                                    assert forall|i: int| 0 <= i < tk[p2 as int]@.len() implies tk[p2 as int]@[i] < q by {
                                        let x = tk[p2 as int]@[i];
                                        assert(tk[p2 as int]@.contains(x));
                                        assert(x != q);
                                        assert(before[p2 as int]@.contains(x));
                                    }
                                    lemma_push_increasing(tk[p2 as int]@, q);
                                }
                                table[p2].push(q);
                            }
                            proof {
                                assert forall|p3: int| 0 <= p3 < n_procs implies increasing(#[trigger] table@[p3]@) by {
                                    if !(same_name && p3 == p2) {
                                        assert(table@[p3] == tk[p3]);
                                    }
                                }
                                assert forall|p3: int, q3: usize|
                                    0 <= p3 < n_procs && q3 != q implies ((#[trigger] table@[p3]@.contains(
                                        q3,
                                    )) <==> before[p3]@.contains(q3)) by {
                                    if same_name && p3 == p2 {
                                        assert(table@[p3]@ == tk[p3]@.push(q));
                                        lemma_push_contains(tk[p3]@, q, q3);
                                    } else {
                                        assert(table@[p3] == tk[p3]);
                                    }
                                }
                                assert forall|p3: int| 0 <= p3 < n_procs implies ((#[trigger] table@[p3]@.contains(q)) <==> (
                                    before[p3]@.contains(q) || (on_a@.subrange(0, k + 1).contains(
                                        p3 as usize,
                                    ) && self.procs@[p3].name@ == self.procs@[q as int].name@))) by {
                                    assert(on_a@.subrange(0, k + 1) =~= on_a@.subrange(0, k as int).push(p2));
                                    lemma_push_contains(on_a@.subrange(0, k as int), p2, p3 as usize);
                                    if same_name && p3 == p2 {
                                        assert(table@[p3]@ == tk[p3]@.push(q));
                                        lemma_push_contains(tk[p3]@, q, q);
                                    } else {
                                        assert(table@[p3] == tk[p3]);
                                    }
                                }
                            }
                            k = k + 1;
                        }
                        proof {
                            assert(on_a@.subrange(0, n_on_a as int) == on_a@);
                        }
                        let ghost old_cur = cur;
                        cur = self.types[a].parent;
                        proof {
                            if a > 0 {
                                assert(self.types@[a as int].parent matches Some(x) && x < a);
                            }
                            assert forall|x: int|
                                self.at_or_above(cur, x) implies (
                                self.is_subtype(q_ty as int, x) && x != q_ty) by {
                                if a > 0 {
                                    self.lemma_strict_ancestors(a as int, x);
                                }
                            }
                            assert forall|p3: int| 0 <= p3 < n_procs implies ((#[trigger] table@[p3]@.contains(q)) <==> (
                                self.overrides_on_subtype(p3, q as int) && !self.at_or_above(cur, self.procs@[p3].ty as int))) by {
                                let pt = self.procs@[p3].ty as int;
                                assert(self.proc_wf(self.procs@[p3]));
                                assert(self.is_subtype(a as int, a as int));
                                if on_a@.contains(p3 as usize) {
                                    assert(by_type@[a as int]@.contains(p3 as usize));
                                    assert(pt == a);
                                }
                                if pt == a {
                                    assert(by_type@[a as int]@.contains(p3 as usize));
                                }
                                if a > 0 {
                                    self.lemma_strict_ancestors(a as int, pt);
                                } else {
                                    if self.is_subtype(0, pt) {
                                        assert(pt == 0);
                                    }
                                }
                            }
                        }
                    },
                }
            }
            proof {
                assert forall|p2: int, q2: usize|
                    0 <= p2 < n_procs implies ((#[trigger] table@[p2]@.contains(q2)) <==> (q2 < q + 1
                        && self.overrides_on_subtype(p2, q2 as int))) by {
                    if q2 == q {
                        assert(!self.at_or_above(cur, self.procs@[p2].ty as int));
                    } else {
                        assert(start[p2]@.contains(q2) == table@[p2]@.contains(q2));
                    }
                }
            }
            q = q + 1;
        }
        proof {
            assert forall|p: int, q: usize|
                0 <= p < self.procs@.len() && q < self.procs@.len()
                    && self.procs@[q as int].name@ == self.procs@[p].name@ && self.procs@[q as int].ty
                    != self.procs@[p].ty && self.is_subtype(
                    self.procs@[q as int].ty as int,
                    self.procs@[p].ty as int,
                ) implies #[trigger] table@[p]@.contains(q) by {
                lemma_every_copy_below_overrides(self, p, q as int);
            }
        }
        table
    }
}

} // verus!
