//! The paths of the procs that can never park their caller, sorted.
//!
//! Copies that share a spelling (two overrides on one type) are listed only
//! if every copy is safe.
//!
//! The paths are combined and ordered by a merge sort over the entries rather
//! than by a `BTreeMap<String, bool>`: vstd's `BTreeMap` specifications hold
//! only for keys that obey its ordering model, which `String` is not given,
//! so a map keyed by path would leave both the combining and the order
//! unproved. The merge sort compares paths with `<str as PartialOrd>::lt`,
//! the same order a `BTreeMap` keeps.

use vstd::prelude::*;
use crate::model::AnalyzeObjectTree;
use crate::laws::lemma_allowed_exactly_when_every_copy_is_safe;
use crate::paths::{lemma_lex_lt_irreflexive, lemma_lex_lt_total, lemma_lex_lt_transitive, lex_lt, sorts_before};

verus! {

/// Some entry of `entries` at a position in `lo..hi` has key `key`.
pub open spec fn has_key_in(entries: Seq<(String, bool)>, lo: int, hi: int, key: Seq<char>) -> bool {
    exists|i: int| lo <= i < hi && (#[trigger] entries[i]).0@ == key
}

/// Every entry of `entries` at a position in `lo..hi` with key `key` is
/// marked safe.
pub open spec fn all_safe_in(entries: Seq<(String, bool)>, lo: int, hi: int, key: Seq<char>) -> bool {
    forall|i: int| lo <= i < hi && (#[trigger] entries[i]).0@ == key ==> entries[i].1
}

/// Some entry of `entries` has key `key`.
pub open spec fn has_key(entries: Seq<(String, bool)>, key: Seq<char>) -> bool {
    has_key_in(entries, 0, entries.len() as int, key)
}

/// Every entry of `entries` with key `key` is marked safe.
pub open spec fn all_safe(entries: Seq<(String, bool)>, key: Seq<char>) -> bool {
    all_safe_in(entries, 0, entries.len() as int, key)
}

/// The keys of `entries` strictly increase.
pub open spec fn strictly_sorted(entries: Seq<(String, bool)>) -> bool {
    forall|i: int, j: int|
        0 <= i < j < entries.len() ==> lex_lt(#[trigger] entries[i].0@, #[trigger] entries[j].0@)
}

/// `merged` lists each key of `entries[lo..hi]` once, in order, marked safe
/// exactly when every entry with that key is.
pub open spec fn combines(merged: Seq<(String, bool)>, entries: Seq<(String, bool)>, lo: int, hi: int) -> bool {
    &&& strictly_sorted(merged)
    &&& forall|key: Seq<char>| #[trigger] has_key(merged, key) <==> has_key_in(entries, lo, hi, key)
    &&& forall|key: Seq<char>|
        has_key(merged, key) ==> (#[trigger] all_safe(merged, key) <==> all_safe_in(entries, lo, hi, key))
}

/// In a sorted list, the entry at `i` is the only one with its key.
proof fn lemma_sorted_key_unique(v: Seq<(String, bool)>, i: int, j: int)
    requires
        strictly_sorted(v),
        0 <= i < v.len(),
        0 <= j < v.len(),
        v[i].0@ == v[j].0@,
    ensures
        i == j,
{
    lemma_lex_lt_irreflexive(v[i].0@);
    if i < j {
        assert(lex_lt(v[i].0@, v[j].0@));
    } else if j < i {
        assert(lex_lt(v[j].0@, v[i].0@));
    }
}

/// Merges two sorted, combined lists into one.
fn merge(a: Vec<(String, bool)>, b: Vec<(String, bool)>) -> (out: Vec<(String, bool)>)
    requires
        strictly_sorted(a@),
        strictly_sorted(b@),
    ensures
        strictly_sorted(out@),
        forall|key: Seq<char>| #[trigger] has_key(out@, key) <==> has_key(a@, key) || has_key(b@, key),
        forall|key: Seq<char>|
            has_key(out@, key) ==> (#[trigger] all_safe(out@, key) <==> all_safe(a@, key) && all_safe(
                b@,
                key,
            )),
{
    let mut out: Vec<(String, bool)> = Vec::new();
    let mut i: usize = 0;
    let mut j: usize = 0;
    while i < a.len() || j < b.len()
        invariant
            strictly_sorted(a@),
            strictly_sorted(b@),
            strictly_sorted(out@),
            i <= a@.len(),
            j <= b@.len(),
            forall|x: int| 0 <= x < out@.len() && i < a@.len() ==> lex_lt(#[trigger] out@[x].0@, a@[i as int].0@),
            forall|x: int| 0 <= x < out@.len() && j < b@.len() ==> lex_lt(#[trigger] out@[x].0@, b@[j as int].0@),
            forall|key: Seq<char>|
                #[trigger] has_key(out@, key) <==> has_key_in(a@, 0, i as int, key) || has_key_in(b@, 0, j as int, key),
            forall|key: Seq<char>|
                has_key(out@, key) ==> (#[trigger] all_safe(out@, key) <==> all_safe(a@, key) && all_safe(b@, key)),
        decreases a@.len() + b@.len() - i - j,
    {
        let ghost before = out@;
        let take_a: bool;
        let take_b: bool;
        if i < a.len() && j < b.len() {
            if sorts_before(&a[i].0, &b[j].0) {
                take_a = true;
                take_b = false;
            } else if sorts_before(&b[j].0, &a[i].0) {
                take_a = false;
                take_b = true;
            } else {
                take_a = true;
                take_b = true;
            }
        } else if i < a.len() {
            take_a = true;
            take_b = false;
        } else {
            take_a = false;
            take_b = true;
        }
        let entry: (String, bool) = if take_a && take_b {
            (a[i].0.clone(), a[i].1 && b[j].1)
        } else if take_a {
            (a[i].0.clone(), a[i].1)
        } else {
            (b[j].0.clone(), b[j].1)
        };
        out.push(entry);
        proof {
            let key = entry.0@;
            if take_a && take_b {
                lemma_lex_lt_total(a@[i as int].0@, b@[j as int].0@);
            }
            if take_a && !take_b && j < b@.len() {
                lemma_lex_lt_total(a@[i as int].0@, b@[j as int].0@);
            }
            if take_b && !take_a && i < a@.len() {
                lemma_lex_lt_total(a@[i as int].0@, b@[j as int].0@);
            }
            // `key` is at `i` in `a` (when taken) and at `j` in `b` (when taken);
            // it is nowhere else in either list.
            assert(out@ == before.push(entry));
            assert forall|x: int, y: int| 0 <= x < y < out@.len() implies lex_lt(
                #[trigger] out@[x].0@,
                #[trigger] out@[y].0@,
            ) by {
                if y == out@.len() - 1 {
                    assert(out@[x] == before[x]);
                }
            }
            if take_a {
                assert forall|x: int| 0 <= x < a@.len() && x != i implies a@[x].0@ != key by {
                    if a@[x].0@ == key {
                        lemma_sorted_key_unique(a@, x, i as int);
                    }
                }
            } else {
                assert forall|x: int| 0 <= x < a@.len() implies #[trigger] a@[x].0@ != key by {
                    if x >= i {
                        if x > i {
                            lemma_lex_lt_transitive(key, a@[i as int].0@, a@[x].0@);
                        }
                        lemma_lex_lt_irreflexive(key);
                    } else {
                        assert(has_key_in(a@, 0, i as int, a@[x].0@));
                        assert(has_key(before, a@[x].0@));
                        let w = choose|w: int| 0 <= w < before.len() && (#[trigger] before[w]).0@ == a@[x].0@;
                        assert(lex_lt(before[w].0@, key));
                        lemma_lex_lt_irreflexive(key);
                    }
                }
            }
            if take_b {
                assert forall|x: int| 0 <= x < b@.len() && x != j implies b@[x].0@ != key by {
                    if b@[x].0@ == key {
                        lemma_sorted_key_unique(b@, x, j as int);
                    }
                }
            } else {
                assert forall|x: int| 0 <= x < b@.len() implies #[trigger] b@[x].0@ != key by {
                    if x >= j {
                        if x > j {
                            lemma_lex_lt_transitive(key, b@[j as int].0@, b@[x].0@);
                        }
                        lemma_lex_lt_irreflexive(key);
                    } else {
                        assert(has_key_in(b@, 0, j as int, b@[x].0@));
                        assert(has_key(before, b@[x].0@));
                        let w = choose|w: int| 0 <= w < before.len() && (#[trigger] before[w]).0@ == b@[x].0@;
                        assert(lex_lt(before[w].0@, key));
                        lemma_lex_lt_irreflexive(key);
                    }
                }
            }
        }
        let ghost old_i = i;
        let ghost old_j = j;
        if take_a {
            i = i + 1;
        }
        if take_b {
            j = j + 1;
        }
        proof {
            let key = entry.0@;
            assert forall|x: int| 0 <= x < out@.len() && i < a@.len() implies lex_lt(
                #[trigger] out@[x].0@,
                a@[i as int].0@,
            ) by {
                if x == out@.len() - 1 {
                    if take_a {
                        assert(lex_lt(a@[old_i as int].0@, a@[i as int].0@));
                    }
                } else {
                    assert(out@[x] == before[x]);
                    if take_a {
                        lemma_lex_lt_transitive(before[x].0@, a@[old_i as int].0@, a@[i as int].0@);
                    }
                }
            }
            assert forall|x: int| 0 <= x < out@.len() && j < b@.len() implies lex_lt(
                #[trigger] out@[x].0@,
                b@[j as int].0@,
            ) by {
                if x == out@.len() - 1 {
                    if take_b {
                        assert(lex_lt(b@[old_j as int].0@, b@[j as int].0@));
                    }
                } else {
                    assert(out@[x] == before[x]);
                    if take_b {
                        lemma_lex_lt_transitive(before[x].0@, b@[old_j as int].0@, b@[j as int].0@);
                    }
                }
            }
            assert forall|k: Seq<char>| #[trigger] has_key(out@, k) <==> has_key_in(a@, 0, i as int, k)
                || has_key_in(b@, 0, j as int, k) by {
                if has_key(out@, k) {
                    let w = choose|w: int| 0 <= w < out@.len() && (#[trigger] out@[w]).0@ == k;
                    if w < before.len() {
                        assert(before[w] == out@[w]);
                        assert(has_key(before, k));
                    }
                }
                if has_key_in(a@, 0, i as int, k) {
                    let w = choose|w: int| 0 <= w < i && (#[trigger] a@[w]).0@ == k;
                    if w < old_i {
                        assert(has_key_in(a@, 0, old_i as int, k));
                        assert(has_key(before, k));
                        let u = choose|u: int| 0 <= u < before.len() && (#[trigger] before[u]).0@ == k;
                        assert(out@[u] == before[u]);
                    } else {
                        assert(out@[out@.len() - 1].0@ == k);
                    }
                }
                if has_key_in(b@, 0, j as int, k) {
                    let w = choose|w: int| 0 <= w < j && (#[trigger] b@[w]).0@ == k;
                    if w < old_j {
                        assert(has_key_in(b@, 0, old_j as int, k));
                        assert(has_key(before, k));
                        let u = choose|u: int| 0 <= u < before.len() && (#[trigger] before[u]).0@ == k;
                        assert(out@[u] == before[u]);
                    } else {
                        assert(out@[out@.len() - 1].0@ == k);
                    }
                }
            }
            assert forall|k: Seq<char>| has_key(out@, k) implies (#[trigger] all_safe(out@, k)
                <==> all_safe(a@, k) && all_safe(b@, k)) by {
                let w = choose|w: int| 0 <= w < out@.len() && (#[trigger] out@[w]).0@ == k;
                assert forall|v: int| 0 <= v < out@.len() && (#[trigger] out@[v]).0@ == k implies v == w by {
                    lemma_sorted_key_unique(out@, v, w);
                }
                if w < before.len() {
                    assert(before[w] == out@[w]);
                    assert(has_key(before, k));
                    assert forall|v: int| 0 <= v < before.len() && (#[trigger] before[v]).0@ == k implies v == w by {
                        assert(out@[v] == before[v]);
                    }
                    assert(all_safe(out@, k) == out@[w].1);
                    assert(all_safe(before, k) == before[w].1);
                    assert(all_safe(before, k) == all_safe(out@, k));
                } else {
                    assert(k == key);
                    if take_a {
                        assert(all_safe(a@, k) == a@[old_i as int].1);
                    } else {
                        assert(all_safe(a@, k));
                    }
                    if take_b {
                        assert(all_safe(b@, k) == b@[old_j as int].1);
                    } else {
                        assert(all_safe(b@, k));
                    }
                }
            }
        }
    }
    proof {
        assert forall|key: Seq<char>| #[trigger] has_key(out@, key) <==> has_key(a@, key) || has_key(b@, key) by {}
    }
    out
}

/// Combines the entries of `entries` at positions `lo..hi`.
fn combine_range(entries: &Vec<(String, bool)>, lo: usize, hi: usize) -> (out: Vec<(String, bool)>)
    requires
        lo <= hi <= entries@.len(),
    ensures
        combines(out@, entries@, lo as int, hi as int),
    decreases hi - lo,
{
    if hi - lo == 0 {
        let out: Vec<(String, bool)> = Vec::new();
        proof {
            assert forall|key: Seq<char>| #[trigger] has_key(out@, key) <==> has_key_in(
                entries@,
                lo as int,
                hi as int,
                key,
            ) by {}
        }
        return out;
    }
    if hi - lo == 1 {
        let mut out: Vec<(String, bool)> = Vec::new();
        out.push((entries[lo].0.clone(), entries[lo].1));
        proof {
            assert forall|key: Seq<char>| #[trigger] has_key(out@, key) <==> has_key_in(
                entries@,
                lo as int,
                hi as int,
                key,
            ) by {
                if has_key(out@, key) {
                    assert(out@[0].0@ == key);
                    assert(entries@[lo as int].0@ == key);
                }
                if has_key_in(entries@, lo as int, hi as int, key) {
                    assert(out@[0].0@ == key);
                }
            }
            assert forall|key: Seq<char>| has_key(out@, key) implies (#[trigger] all_safe(out@, key)
                <==> all_safe_in(entries@, lo as int, hi as int, key)) by {
                assert(out@[0].0@ == key);
                assert(entries@[lo as int].0@ == key);
            }
        }
        return out;
    }
    let mid = lo + (hi - lo) / 2;
    let left = combine_range(entries, lo, mid);
    let right = combine_range(entries, mid, hi);
    let out = merge(left, right);
    proof {
        assert forall|key: Seq<char>| #[trigger] has_key(out@, key) <==> has_key_in(
            entries@,
            lo as int,
            hi as int,
            key,
        ) by {
            assert(has_key(left@, key) <==> has_key_in(entries@, lo as int, mid as int, key));
            assert(has_key(right@, key) <==> has_key_in(entries@, mid as int, hi as int, key));
            if has_key_in(entries@, lo as int, hi as int, key) {
                let i = choose|i: int| lo <= i < hi && (#[trigger] entries@[i]).0@ == key;
                if i < mid {
                    assert(has_key_in(entries@, lo as int, mid as int, key));
                } else {
                    assert(has_key_in(entries@, mid as int, hi as int, key));
                }
            }
        }
        assert forall|key: Seq<char>| has_key(out@, key) implies (#[trigger] all_safe(out@, key)
            <==> all_safe_in(entries@, lo as int, hi as int, key)) by {
            if has_key(left@, key) {
                assert(all_safe(left@, key) <==> all_safe_in(entries@, lo as int, mid as int, key));
            } else {
                assert(!has_key_in(entries@, lo as int, mid as int, key));
                assert(all_safe(left@, key));
            }
            if has_key(right@, key) {
                assert(all_safe(right@, key) <==> all_safe_in(entries@, mid as int, hi as int, key));
            } else {
                assert(!has_key_in(entries@, mid as int, hi as int, key));
                assert(all_safe(right@, key));
            }
        }
    }
    out
}

/// Some entry before position `m` of `combined` has key `key` and is safe.
spec fn safe_before(combined: Seq<(String, bool)>, m: int, key: Seq<char>) -> bool {
    exists|y: int| 0 <= y < m && (#[trigger] combined[y]).1 && combined[y].0@ == key
}

/// Some string of `paths` is `key`.
spec fn listed(paths: Seq<String>, key: Seq<char>) -> bool {
    exists|i: int| 0 <= i < paths.len() && (#[trigger] paths[i])@ == key
}

impl AnalyzeObjectTree {
    /// The `.dmb` path `path` is allowed: some proc with a verdict is spelled
    /// `path`, and none of the procs spelled `path` can park its caller.
    pub open spec fn is_allowed_path(&self, path: Seq<char>, unresolved_calls_sleep: bool) -> bool {
        let verdicts = self.sleep_verdicts_spec(unresolved_calls_sleep);
        &&& exists|k: int|
            0 <= k < verdicts.len() && self.dmb_path_spec((#[trigger] verdicts[k]).0 as int) == path
        &&& forall|k: int|
            0 <= k < verdicts.len() && self.dmb_path_spec((#[trigger] verdicts[k]).0 as int) == path
                ==> !verdicts[k].1
    }
}

proof fn lemma_judged_procs_exist(a: &AnalyzeObjectTree, n: int)
    requires
        0 <= n <= a.procs@.len(),
    ensures
        forall|k: int| 0 <= k < a.judged_procs(n).len() ==> #[trigger] a.judged_procs(n)[k] < n,
    decreases n,
{
    if n > 0 {
        lemma_judged_procs_exist(a, n - 1);
        let shorter = a.judged_procs(n - 1);
        assert forall|k: int| 0 <= k < a.judged_procs(n).len() implies #[trigger] a.judged_procs(n)[k] < n by {
            if k < shorter.len() {
                assert(a.judged_procs(n)[k] == shorter[k]);
            }
        }
    }
}

/// Paths of the procs that can never park their caller, spelled the way the
/// `.dmb` spells them, sorted. Copies that share a spelling (two overrides on
/// one type) are listed only if every copy is safe.
pub fn allowlist(analyzer: &AnalyzeObjectTree, unresolved_calls_sleep: bool) -> (paths: Vec<String>)
    requires
        analyzer.wf(),
    ensures
        forall|i: int, j: int|
            0 <= i < j < paths@.len() ==> lex_lt(#[trigger] paths@[i]@, #[trigger] paths@[j]@),
        forall|i: int|
            0 <= i < paths@.len() ==> analyzer.is_allowed_path(
                #[trigger] paths@[i]@,
                unresolved_calls_sleep,
            ),
        forall|path: Seq<char>|
            #[trigger] analyzer.is_allowed_path(path, unresolved_calls_sleep) ==> exists|i: int|
                0 <= i < paths@.len() && #[trigger] paths@[i]@ == path,
        forall|i: int, k: int|
            #![trigger paths@[i], analyzer.sleep_verdicts_spec(unresolved_calls_sleep)[k]]
            0 <= i < paths@.len() && 0 <= k < analyzer.sleep_verdicts_spec(
                unresolved_calls_sleep,
            ).len() && analyzer.dmb_path_spec(
                analyzer.sleep_verdicts_spec(unresolved_calls_sleep)[k].0 as int,
            ) == paths@[i]@ ==> !analyzer.sleep_verdicts_spec(unresolved_calls_sleep)[k].1,
        forall|i: int|
            0 <= i < paths@.len() ==> exists|k: int|
                0 <= k < analyzer.sleep_verdicts_spec(unresolved_calls_sleep).len()
                    && analyzer.dmb_path_spec(
                    (#[trigger] analyzer.sleep_verdicts_spec(unresolved_calls_sleep)[k]).0 as int,
                ) == #[trigger] paths@[i]@,
        forall|k: int|
            0 <= k < analyzer.sleep_verdicts_spec(unresolved_calls_sleep).len() && (forall|j: int|
                0 <= j < analyzer.sleep_verdicts_spec(unresolved_calls_sleep).len()
                    && analyzer.dmb_path_spec(
                    (#[trigger] analyzer.sleep_verdicts_spec(unresolved_calls_sleep)[j]).0 as int,
                ) == analyzer.dmb_path_spec(
                    analyzer.sleep_verdicts_spec(unresolved_calls_sleep)[k].0 as int,
                ) ==> !analyzer.sleep_verdicts_spec(unresolved_calls_sleep)[j].1) ==> exists|i: int|
                0 <= i < paths@.len() && #[trigger] paths@[i]@ == analyzer.dmb_path_spec(
                    (#[trigger] analyzer.sleep_verdicts_spec(unresolved_calls_sleep)[k]).0 as int,
                ),
{
    let verdicts = analyzer.sleep_verdicts(unresolved_calls_sleep);
    let ghost spec_verdicts = analyzer.sleep_verdicts_spec(unresolved_calls_sleep);
    proof {
        lemma_judged_procs_exist(analyzer, analyzer.procs@.len() as int);
    }
    let mut entries: Vec<(String, bool)> = Vec::new();
    let n_verdicts = verdicts.len();
    let mut k: usize = 0;
    while k < n_verdicts
        invariant
            analyzer.wf(),
            verdicts@ == spec_verdicts,
            spec_verdicts == analyzer.sleep_verdicts_spec(unresolved_calls_sleep),
            n_verdicts == verdicts@.len(),
            forall|m: int|
                0 <= m < analyzer.judged_procs(analyzer.procs@.len() as int).len() ==> #[trigger] analyzer.judged_procs(
                    analyzer.procs@.len() as int,
                )[m] < analyzer.procs@.len(),
            k <= n_verdicts,
            entries@.len() == k,
            forall|m: int|
                0 <= m < k ==> (#[trigger] entries@[m]).0@ == analyzer.dmb_path_spec(
                    verdicts@[m].0 as int,
                ) && entries@[m].1 == !verdicts@[m].1,
        decreases n_verdicts - k,
    {
        let (proc, parks) = verdicts[k];
        proof {
            assert(verdicts@[k as int].0 == analyzer.judged_procs(analyzer.procs@.len() as int)[k as int]);
        }
        entries.push((analyzer.dmb_path(proc), !parks));
        k = k + 1;
    }
    let combined = combine_range(&entries, 0, entries.len());
    let mut paths: Vec<String> = Vec::new();
    let n_combined = combined.len();
    let mut m: usize = 0;
    while m < n_combined
        invariant
            n_combined == combined@.len(),
            strictly_sorted(combined@),
            m <= n_combined,
            forall|i: int, j: int|
                0 <= i < j < paths@.len() ==> lex_lt(#[trigger] paths@[i]@, #[trigger] paths@[j]@),
            forall|i: int| 0 <= i < paths@.len() ==> safe_before(combined@, m as int, #[trigger] paths@[i]@),
            forall|y: int|
                0 <= y < m && (#[trigger] combined@[y]).1 ==> listed(paths@, combined@[y].0@),
            forall|i: int| 0 <= i < paths@.len() && m < n_combined ==> lex_lt(#[trigger] paths@[i]@, combined@[m as int].0@),
        decreases n_combined - m,
    {
        let ghost before = paths@;
        if combined[m].1 {
            paths.push(combined[m].0.clone());
        }
        proof {
            assert forall|i: int| 0 <= i < before.len() implies #[trigger] paths@[i] == before[i] by {}
            assert forall|i: int| 0 <= i < paths@.len() implies safe_before(combined@, m + 1, #[trigger] paths@[i]@) by {
                if i < before.len() {
                    assert(paths@[i] == before[i]);
                    assert(safe_before(combined@, m as int, before[i]@));
                } else {
                    assert(combined@[m as int].0@ == paths@[i]@);
                }
            }
            assert forall|y: int| 0 <= y < m + 1 && (#[trigger] combined@[y]).1 implies listed(paths@, combined@[y].0@) by {
                if y < m {
                    assert(listed(before, combined@[y].0@));
                    let i = choose|i: int| 0 <= i < before.len() && (#[trigger] before[i])@ == combined@[y].0@;
                    assert(paths@[i] == before[i]);
                } else {
                    assert(paths@[paths@.len() - 1]@ == combined@[y].0@);
                }
            }
            assert forall|i: int, j: int| 0 <= i < j < paths@.len() implies lex_lt(
                #[trigger] paths@[i]@,
                #[trigger] paths@[j]@,
            ) by {
                if j >= before.len() {
                    assert(paths@[i] == before[i]);
                }
            }
            assert forall|i: int| 0 <= i < paths@.len() && m + 1 < n_combined implies lex_lt(
                #[trigger] paths@[i]@,
                combined@[m + 1].0@,
            ) by {
                assert(lex_lt(combined@[m as int].0@, combined@[m + 1].0@));
                if i < before.len() {
                    assert(paths@[i] == before[i]);
                    lemma_lex_lt_transitive(paths@[i]@, combined@[m as int].0@, combined@[m + 1].0@);
                }
            }
        }
        m = m + 1;
    }
    proof {
        let n_entries = entries@.len() as int;
        assert forall|i: int| 0 <= i < paths@.len() implies analyzer.is_allowed_path(
            #[trigger] paths@[i]@,
            unresolved_calls_sleep,
        ) by {
            let path = paths@[i]@;
            assert(safe_before(combined@, n_combined as int, path));
            let y = choose|y: int| 0 <= y < n_combined && (#[trigger] combined@[y]).1 && combined@[y].0@ == path;
            assert(has_key(combined@, path));
            assert(has_key_in(entries@, 0, n_entries, path));
            let e = choose|e: int| 0 <= e < n_entries && (#[trigger] entries@[e]).0@ == path;
            assert(spec_verdicts[e] == verdicts@[e]);
            assert forall|v: int| 0 <= v < combined@.len() && (#[trigger] combined@[v]).0@ == path implies v == y by {
                lemma_sorted_key_unique(combined@, v, y);
            }
            assert(all_safe(combined@, path));
            assert(all_safe_in(entries@, 0, n_entries, path));
            assert forall|v: int| 0 <= v < spec_verdicts.len() && analyzer.dmb_path_spec(
                (#[trigger] spec_verdicts[v]).0 as int,
            ) == path implies !spec_verdicts[v].1 by {
                assert(entries@[v].0@ == path);
            }
        }
        assert forall|path: Seq<char>| #[trigger] analyzer.is_allowed_path(
            path,
            unresolved_calls_sleep,
        ) implies exists|i: int| 0 <= i < paths@.len() && #[trigger] paths@[i]@ == path by {
            let v = choose|v: int|
                0 <= v < spec_verdicts.len() && analyzer.dmb_path_spec((#[trigger] spec_verdicts[v]).0 as int) == path;
            assert(entries@[v].0@ == path);
            assert(has_key_in(entries@, 0, n_entries, path));
            assert(has_key(combined@, path));
            assert forall|e: int| 0 <= e < n_entries && (#[trigger] entries@[e]).0@ == path implies entries@[e].1 by {
                assert(spec_verdicts[e] == verdicts@[e]);
            }
            assert(all_safe_in(entries@, 0, n_entries, path));
            assert(all_safe(combined@, path));
            let y = choose|y: int| 0 <= y < combined@.len() && (#[trigger] combined@[y]).0@ == path;
            assert(combined@[y].1);
            assert(listed(paths@, path));
        }
    }
    proof {
        assert forall|i: int, k: int|
            #![trigger paths@[i], analyzer.sleep_verdicts_spec(unresolved_calls_sleep)[k]]
            0 <= i < paths@.len() && 0 <= k < analyzer.sleep_verdicts_spec(unresolved_calls_sleep).len() && analyzer.dmb_path_spec(analyzer.sleep_verdicts_spec(unresolved_calls_sleep)[k].0 as int)
                == paths@[i]@ implies !analyzer.sleep_verdicts_spec(unresolved_calls_sleep)[k].1 by {
            lemma_allowed_exactly_when_every_copy_is_safe(analyzer, unresolved_calls_sleep, paths@[i]@);
            assert(analyzer.is_allowed_path(paths@[i]@, unresolved_calls_sleep));
            assert(analyzer.dmb_path_spec(analyzer.sleep_verdicts_spec(unresolved_calls_sleep)[k].0 as int) == paths@[i]@);
        }
        assert forall|i: int| 0 <= i < paths@.len() implies exists|k: int|
            0 <= k < analyzer.sleep_verdicts_spec(unresolved_calls_sleep).len() && analyzer.dmb_path_spec((#[trigger] analyzer.sleep_verdicts_spec(unresolved_calls_sleep)[k]).0 as int)
                == #[trigger] paths@[i]@ by {
            lemma_allowed_exactly_when_every_copy_is_safe(analyzer, unresolved_calls_sleep, paths@[i]@);
            assert(analyzer.is_allowed_path(paths@[i]@, unresolved_calls_sleep));
            let k = choose|k: int|
                0 <= k < analyzer.sleep_verdicts_spec(unresolved_calls_sleep).len() && #[trigger] analyzer.dmb_path_spec(analyzer.sleep_verdicts_spec(unresolved_calls_sleep)[k].0 as int) == paths@[i]@;
            assert(analyzer.dmb_path_spec(analyzer.sleep_verdicts_spec(unresolved_calls_sleep)[k].0 as int) == paths@[i]@);
        }
        assert forall|k: int|
            0 <= k < analyzer.sleep_verdicts_spec(unresolved_calls_sleep).len() && (forall|j: int|
                0 <= j < analyzer.sleep_verdicts_spec(unresolved_calls_sleep).len() && analyzer.dmb_path_spec((#[trigger] analyzer.sleep_verdicts_spec(unresolved_calls_sleep)[j]).0 as int)
                    == analyzer.dmb_path_spec(analyzer.sleep_verdicts_spec(unresolved_calls_sleep)[k].0 as int) ==> !analyzer.sleep_verdicts_spec(unresolved_calls_sleep)[j].1) implies exists|i: int|
            0 <= i < paths@.len() && #[trigger] paths@[i]@ == analyzer.dmb_path_spec(
                (#[trigger] analyzer.sleep_verdicts_spec(unresolved_calls_sleep)[k]).0 as int,
            ) by {
            let path = analyzer.dmb_path_spec(analyzer.sleep_verdicts_spec(unresolved_calls_sleep)[k].0 as int);
            lemma_allowed_exactly_when_every_copy_is_safe(analyzer, unresolved_calls_sleep, path);
            assert(analyzer.dmb_path_spec(analyzer.sleep_verdicts_spec(unresolved_calls_sleep)[k].0 as int) == path);
            assert forall|j: int|
                0 <= j < analyzer.sleep_verdicts_spec(unresolved_calls_sleep).len() && #[trigger] analyzer.dmb_path_spec(analyzer.sleep_verdicts_spec(unresolved_calls_sleep)[j].0 as int) == path
                    implies !analyzer.sleep_verdicts_spec(unresolved_calls_sleep)[j].1 by {
                assert(analyzer.dmb_path_spec(analyzer.sleep_verdicts_spec(unresolved_calls_sleep)[j].0 as int) == path);
            }
            assert(analyzer.is_allowed_path(path, unresolved_calls_sleep));
        }
    }
    paths
}

} // verus!
