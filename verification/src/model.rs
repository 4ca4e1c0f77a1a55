//! The object tree and the call tree as the analysis found them.
//!
//! Types and procs are named by their position in `AnalyzeObjectTree::types`
//! and `AnalyzeObjectTree::procs`. Type 0 is the root (`/`, where global procs
//! live), and every other type names a parent that comes before it, so the
//! parent links always end at the root.

use vstd::prelude::*;

verus! {

/// Which rules the walk over the call tree follows.
#[derive(Clone, Copy, PartialEq, Eq, Debug, Structural)]
pub enum SleepAnalysisVersion {
    /// Version 1: a call goes to the proc it names, and a dynamic call also
    /// to every override of it on every subtype.
    CallTree,
    /// Version 2: a dynamic call goes only to the overrides that an object of
    /// the receiver's static type can run.
    DynamicDispatch,
    /// Version 3: like version 2, and a receiver that does not come from the
    /// root proc's own object is not trusted to dispatch at all.
    ReceiverProvenance,
}

impl SleepAnalysisVersion {
    /// Whether this version tells receivers that stem from the root proc's
    /// own object apart from the others.
    pub fn tracks_receiver_provenance(&self) -> (r: bool)
        ensures
            r == (*self is ReceiverProvenance),
    {
        match self {
            SleepAnalysisVersion::ReceiverProvenance => true,
            _ => false,
        }
    }

    /// Whether this version scopes override dispatch to the receiver's type.
    pub fn scopes_dispatch_to_receiver(&self) -> (r: bool)
        ensures
            r == !(*self is CallTree),
    {
        match self {
            SleepAnalysisVersion::CallTree => false,
            _ => true,
        }
    }
}

/// How the type that declares a proc declared it.
#[derive(Clone, Copy, PartialEq, Eq, Debug, Structural)]
pub enum DeclarationKind {
    /// `/type/proc/name()`
    Proc,
    /// `/type/verb/name()`
    Verb,
}

/// The word that a declaration of this kind puts in a path.
pub open spec fn declaration_word(kind: DeclarationKind) -> Seq<char> {
    match kind {
        DeclarationKind::Proc => seq!['p', 'r', 'o', 'c'],
        DeclarationKind::Verb => seq!['v', 'e', 'r', 'b'],
    }
}

impl DeclarationKind {
    /// The word that a declaration of this kind puts in a path.
    pub fn word(&self) -> (r: &'static str)
        ensures
            r@ == declaration_word(*self),
    {
        match self {
            DeclarationKind::Proc => {
                proof {
                    reveal_strlit("proc");
                }
                "proc"
            },
            DeclarationKind::Verb => {
                proof {
                    reveal_strlit("verb");
                }
                "verb"
            },
        }
    }
}

/// A type of the object tree.
pub struct TypeNode {
    /// The type's path, such as `/datum/child`; empty for the root.
    pub path: String,
    /// The type it inherits from; `None` for the root only.
    pub parent: Option<usize>,
}

/// A call that a proc's body makes, as the analysis tied it to a proc.
#[derive(Clone, Copy, PartialEq, Eq, Debug, Structural)]
pub struct CallEdge {
    /// The proc the call names.
    pub proc: usize,
    /// The static type of the object the call runs on.
    pub src: usize,
    /// Whether the call runs exactly `proc` (such as `..()`), with no
    /// dispatch to overrides.
    pub is_exact: bool,
    /// Whether the call runs in a new context (inside `spawn`), so that its
    /// sleeping cannot park the caller.
    pub new_context: bool,
    /// Whether the call runs on the caller's own object (`src`).
    pub inherit_receiver: bool,
}

/// One copy of a proc on a type, with what the analysis found in its body.
pub struct ProcInfo {
    /// The type the copy is defined on.
    pub ty: usize,
    /// The proc's name.
    pub name: String,
    /// Which copy of this name on `ty` it is; 0 is the first.
    pub index: usize,
    /// How `ty` declares this name, if `ty` is the type that declares it.
    pub declaration: Option<DeclarationKind>,
    /// Whether the proc is one of the language's builtins.
    pub is_builtin: bool,
    /// The calls its body makes.
    pub calls: Vec<CallEdge>,
    /// Whether its body sleeps by itself (`sleep`, a builtin that waits,
    /// `set background = 1`), whatever `SpacemanDMM_allowed_to_sleep` says.
    pub sleeps: bool,
    /// Whether it sets `waitfor = 0`.
    pub sets_waitfor_zero: bool,
    /// Whether its body makes a call that could not be tied to a proc (other
    /// than `call()()`).
    pub has_unresolved_call: bool,
}

/// What the analysis of an object tree found, as the sleep verdicts read it.
pub struct AnalyzeObjectTree {
    /// The types; type 0 is the root.
    pub types: Vec<TypeNode>,
    /// Every copy of every proc.
    pub procs: Vec<ProcInfo>,
    /// The rules the walk follows.
    pub sleep_analysis_version: SleepAnalysisVersion,
}

impl AnalyzeObjectTree {
    /// The root comes first, every other type's parent comes before it, and
    /// every index points into `types` or `procs`.
    pub open spec fn wf(&self) -> bool {
        &&& self.types@.len() >= 1
        &&& self.types@[0].parent is None
        &&& forall|t: int|
            0 < t < self.types@.len() ==> ((#[trigger] self.types@[t]).parent matches Some(p)
                && p < t)
        &&& forall|p: int| 0 <= p < self.procs@.len() ==> self.proc_wf(#[trigger] self.procs@[p])
    }

    /// A proc's type and its calls' procs and types exist.
    pub open spec fn proc_wf(&self, info: ProcInfo) -> bool {
        &&& info.ty < self.types@.len()
        &&& forall|i: int|
            0 <= i < info.calls@.len() ==> {
                &&& (#[trigger] info.calls@[i]).proc < self.procs@.len()
                &&& info.calls@[i].src < self.types@.len()
            }
    }

    /// Type `t` is `a` or inherits from it.
    pub open spec fn is_subtype(&self, t: int, a: int) -> bool
        decreases t,
    {
        if t == a {
            true
        } else if 0 < t < self.types@.len() {
            match self.types@[t].parent {
                Some(p) => p < t && self.is_subtype(p as int, a),
                None => false,
            }
        } else {
            false
        }
    }

    /// Proc `q` has `p`'s name and is defined on a strict subtype of `p`'s
    /// type, at any depth.
    pub open spec fn overrides_on_subtype(&self, p: int, q: int) -> bool {
        let pp = self.procs@[p];
        let qq = self.procs@[q];
        &&& qq.name@ == pp.name@
        &&& qq.ty != pp.ty
        &&& self.is_subtype(qq.ty as int, pp.ty as int)
    }

    /// Proc `q` overrides proc `p` on a strict subtype of `p`'s type, and,
    /// where the version scopes dispatch to the receiver, an object whose
    /// static type is `receiver` can run it: its type is above or below the
    /// receiver's.
    pub open spec fn is_override(&self, p: int, q: int, receiver: int) -> bool {
        let qt = self.procs@[q].ty as int;
        &&& self.overrides_on_subtype(p, q)
        &&& (self.sleep_analysis_version is CallTree || self.is_subtype(qt, receiver)
            || self.is_subtype(receiver, qt))
    }

    /// Whether the model is well formed: the root comes first, every other
    /// type's parent comes before it, and every index points into `types` or
    /// `procs`.
    pub fn check_well_formed(&self) -> (r: bool)
        ensures
            r == self.wf(),
    {
        let n_types = self.types.len();
        if n_types == 0 {
            return false;
        }
        match self.types[0].parent {
            Some(_) => {
                return false;
            },
            None => {},
        }
        let mut t: usize = 1;
        while t < n_types
            invariant
                1 <= t <= n_types,
                n_types == self.types@.len(),
                forall|u: int| 0 < u < t ==> ((#[trigger] self.types@[u]).parent matches Some(p) && p < u),
            decreases n_types - t,
        {
            match self.types[t].parent {
                Some(p) => {
                    if p >= t {
                        return false;
                    }
                },
                None => {
                    return false;
                },
            }
            t = t + 1;
        }
        let n_procs = self.procs.len();
        let mut p: usize = 0;
        while p < n_procs
            invariant
                p <= n_procs,
                n_procs == self.procs@.len(),
                n_types == self.types@.len(),
                forall|q: int| 0 <= q < p ==> self.proc_wf(#[trigger] self.procs@[q]),
            decreases n_procs - p,
        {
            let info = &self.procs[p];
            if info.ty >= n_types {
                return false;
            }
            let n_calls = info.calls.len();
            let mut i: usize = 0;
            while i < n_calls
                invariant
                    i <= n_calls,
                    p < n_procs,
                    *info == self.procs@[p as int],
                    n_calls == info.calls@.len(),
                    n_procs == self.procs@.len(),
                    n_types == self.types@.len(),
                    forall|j: int|
                        0 <= j < i ==> (#[trigger] info.calls@[j]).proc < n_procs && info.calls@[j].src
                            < n_types,
                decreases n_calls - i,
            {
                if info.calls[i].proc >= n_procs || info.calls[i].src >= n_types {
                    proof {
                        assert(*info == self.procs@[p as int]);
                        assert(!self.proc_wf(self.procs@[p as int]));
                    }
                    return false;
                }
                i = i + 1;
            }
            p = p + 1;
        }
        true
    }

    /// Whether type `t` is `a` or inherits from it.
    pub fn type_is_subtype(&self, t: usize, a: usize) -> (r: bool)
        requires
            self.wf(),
            t < self.types@.len(),
        ensures
            r == self.is_subtype(t as int, a as int),
    {
        let mut cur = t;
        loop
            invariant
                self.wf(),
                cur < self.types@.len(),
                self.is_subtype(t as int, a as int) == self.is_subtype(cur as int, a as int),
            decreases cur,
        {
            if cur == a {
                return true;
            }
            match self.types[cur].parent {
                Some(p) => {
                    cur = p;
                },
                None => {
                    return false;
                },
            }
        }
    }
}

} // verus!
