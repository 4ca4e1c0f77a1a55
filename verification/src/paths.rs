//! How the `.dmb` spells a proc's path, and the order in which strings sort.

use vstd::prelude::*;
use crate::model::{declaration_word, AnalyzeObjectTree, DeclarationKind};
use crate::laws::lemma_dmb_spelling;
use vstd::string::StringExecFns;

verus! {

/// `a` sorts before `b`: the first char where they differ is smaller in `a`,
/// or `a` is a strict prefix of `b`. Chars compare by code point.
pub open spec fn lex_lt(a: Seq<char>, b: Seq<char>) -> bool
    decreases a.len(),
{
    if a.len() == 0 {
        b.len() > 0
    } else if b.len() == 0 {
        false
    } else if a[0] != b[0] {
        (a[0] as int) < (b[0] as int)
    } else {
        lex_lt(a.drop_first(), b.drop_first())
    }
}

/// No string sorts before itself.
pub proof fn lemma_lex_lt_irreflexive(a: Seq<char>)
    ensures
        !lex_lt(a, a),
    decreases a.len(),
{
    if a.len() > 0 {
        lemma_lex_lt_irreflexive(a.drop_first());
    }
}

/// Sorting before is transitive.
pub proof fn lemma_lex_lt_transitive(a: Seq<char>, b: Seq<char>, c: Seq<char>)
    requires
        lex_lt(a, b),
        lex_lt(b, c),
    ensures
        lex_lt(a, c),
    decreases a.len(),
{
    if a.len() > 0 && b.len() > 0 && c.len() > 0 {
        if a[0] == b[0] && b[0] == c[0] {
            lemma_lex_lt_transitive(a.drop_first(), b.drop_first(), c.drop_first());
        }
    }
}

/// Of two different strings, one sorts before the other, and not both ways.
pub proof fn lemma_lex_lt_total(a: Seq<char>, b: Seq<char>)
    ensures
        a != b ==> (lex_lt(a, b) || lex_lt(b, a)),
        !(lex_lt(a, b) && lex_lt(b, a)),
    decreases a.len(),
{
    if a.len() > 0 && b.len() > 0 {
        if a[0] == b[0] {
            lemma_lex_lt_total(a.drop_first(), b.drop_first());
            if a.drop_first() == b.drop_first() {
                assert(a =~= seq![a[0]] + a.drop_first());
                assert(b =~= seq![b[0]] + b.drop_first());
            }
        } else {
            assert((a[0] as int) != (b[0] as int));
        }
    } else if a.len() == 0 && b.len() == 0 {
        assert(a =~= b);
    }
}

/// `<str as PartialOrd>::lt`: strings compare lexicographically by their
/// bytes, which orders them by code point, as `lex_lt` says.
#[verifier::external_body]
fn str_lt(a: &str, b: &str) -> (r: bool)
    ensures
        r == lex_lt(a@, b@),
{
    a < b
}

/// Whether `a` sorts before `b`.
pub fn sorts_before(a: &String, b: &String) -> (r: bool)
    ensures
        r == lex_lt(a@, b@),
{
    str_lt(a.as_str(), b.as_str())
}

impl AnalyzeObjectTree {
    /// The `.dmb` keeps `/proc/` or `/verb/` only on the copy that declares
    /// the proc: the first copy on the type that declares it. So an override
    /// is `/turf/open/process_cell` and a redefinition on the declaring type
    /// is `/turf/ChangeTurf`.
    pub open spec fn dmb_path_spec(&self, p: int) -> Seq<char> {
        let info = self.procs@[p];
        let ty_path = self.types@[info.ty as int].path@;
        if info.index == 0 && info.declaration is Some {
            ty_path + seq!['/'] + declaration_word(info.declaration->0) + seq!['/'] + info.name@
        } else {
            ty_path + seq!['/'] + info.name@
        }
    }

    /// The path of proc `p`, spelled the way the `.dmb` spells it.
    pub fn dmb_path(&self, p: usize) -> (path: String)
        requires
            self.wf(),
            p < self.procs@.len(),
        ensures
            path@ == self.dmb_path_spec(p as int),
            (self.procs@[p as int].index != 0 || self.procs@[p as int].declaration is None) ==> path@
                == self.types@[self.procs@[p as int].ty as int].path@ + seq!['/']
                + self.procs@[p as int].name@,
            (self.procs@[p as int].index == 0 && self.procs@[p as int].declaration == Some(
                DeclarationKind::Proc,
            )) ==> path@ == self.types@[self.procs@[p as int].ty as int].path@ + seq![
                '/',
                'p',
                'r',
                'o',
                'c',
                '/',
            ] + self.procs@[p as int].name@,
            (self.procs@[p as int].index == 0 && self.procs@[p as int].declaration == Some(
                DeclarationKind::Verb,
            )) ==> path@ == self.types@[self.procs@[p as int].ty as int].path@ + seq![
                '/',
                'v',
                'e',
                'r',
                'b',
                '/',
            ] + self.procs@[p as int].name@,
    {
        proof {
            lemma_dmb_spelling(self, p as int);
        }
        let info = &self.procs[p];
        proof {
            assert(self.proc_wf(self.procs@[p as int]));
            reveal_strlit("/");
        }
        let mut path = self.types[info.ty].path.clone();
        path.append("/");
        match info.declaration {
            Some(kind) => {
                if info.index == 0 {
                    path.append(kind.word());
                    path.append("/");
                }
            },
            None => {},
        }
        path.append(info.name.as_str());
        path
    }
}

} // verus!
