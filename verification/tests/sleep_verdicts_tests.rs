//! Each test writes, as a model, what the analysis of the DM code in its doc
//! comment finds: the types, the procs with their calls, and which procs
//! sleep, set `waitfor = 0` or make calls that could not be tied to a proc.

use dreamchecker::allowlist::allowlist;
use dreamchecker::visits::Visit;
use dreamchecker::model::{
    AnalyzeObjectTree, CallEdge, DeclarationKind, ProcInfo, SleepAnalysisVersion, TypeNode,
};

/// Builds the model of an object tree the way the analysis lays it out.
struct Tree {
    types: Vec<TypeNode>,
    procs: Vec<ProcInfo>,
}

/// The parents that BYOND gives its own types.
fn builtin_parent(path: &str) -> Option<&'static str> {
    match path {
        "/datum" | "/client" | "/world" | "/savefile" | "/list" => Some(""),
        "/atom" => Some("/datum"),
        "/atom/movable" | "/turf" | "/area" => Some("/atom"),
        "/obj" | "/mob" => Some("/atom/movable"),
        _ => None,
    }
}

impl Tree {
    fn new() -> Tree {
        Tree { types: vec![TypeNode { path: String::new(), parent: None }], procs: Vec::new() }
    }

    /// The type at `path`, added with its parents where it is new.
    fn ty(&mut self, path: &str) -> usize {
        if let Some(found) = self.types.iter().position(|t| t.path == path) {
            return found;
        }
        let parent_path = match builtin_parent(path) {
            Some(parent) => parent.to_string(),
            None => path[..path.rfind('/').unwrap()].to_string(),
        };
        let parent = self.ty(&parent_path);
        self.types.push(TypeNode { path: path.to_string(), parent: Some(parent) });
        self.types.len() - 1
    }

    /// Adds a copy of proc `name` on the type at `ty`; `declares` says
    /// whether this copy's type declares the name (`/type/proc/name`).
    fn add(&mut self, ty: &str, name: &str, declares: Option<DeclarationKind>) -> usize {
        let ty = self.ty(ty);
        let earlier: Vec<usize> = (0..self.procs.len())
            .filter(|&p| self.procs[p].ty == ty && self.procs[p].name == name)
            .collect();
        let declaration = match earlier.first() {
            Some(&first) => self.procs[first].declaration,
            None => declares,
        };
        self.procs.push(ProcInfo {
            ty,
            name: name.to_string(),
            index: earlier.len(),
            declaration,
            is_builtin: false,
            calls: Vec::new(),
            sleeps: false,
            sets_waitfor_zero: false,
            has_unresolved_call: false,
        });
        self.procs.len() - 1
    }

    /// `/type/proc/name()`
    fn declare(&mut self, ty: &str, name: &str) -> usize {
        self.add(ty, name, Some(DeclarationKind::Proc))
    }

    /// `/type/name()`, overriding or redefining.
    fn define(&mut self, ty: &str, name: &str) -> usize {
        self.add(ty, name, None)
    }

    /// One of the language's own procs.
    fn builtin(&mut self, ty: &str, name: &str) -> usize {
        let p = self.declare(ty, name);
        self.procs[p].is_builtin = true;
        p
    }

    fn edge(&mut self, from: usize, edge: CallEdge) {
        self.procs[from].calls.push(edge);
    }

    /// `name()` or `src.name()` in the body of `from`.
    fn call_on_src(&mut self, from: usize, to: usize) {
        let src = self.procs[from].ty;
        self.edge(from, CallEdge { proc: to, src, is_exact: false, new_context: false, inherit_receiver: true });
    }

    /// `x.name()` or `new T()` where `x` or `T` is declared as `receiver`.
    fn call_on_typed(&mut self, from: usize, to: usize, receiver: &str) {
        let src = self.ty(receiver);
        self.edge(from, CallEdge { proc: to, src, is_exact: false, new_context: false, inherit_receiver: false });
    }

    /// `..()`
    fn call_parent(&mut self, from: usize, to: usize) {
        let src = self.procs[from].ty;
        self.edge(from, CallEdge { proc: to, src, is_exact: true, new_context: false, inherit_receiver: true });
    }

    /// A call inside `spawn`.
    fn call_spawned(&mut self, from: usize, to: usize) {
        let src = self.procs[from].ty;
        self.edge(from, CallEdge { proc: to, src, is_exact: false, new_context: true, inherit_receiver: true });
    }

    fn sleeps(&mut self, p: usize) {
        self.procs[p].sleeps = true;
    }

    fn waitfor_zero(&mut self, p: usize) {
        self.procs[p].sets_waitfor_zero = true;
    }

    fn unresolved(&mut self, p: usize) {
        self.procs[p].has_unresolved_call = true;
    }

    fn analyzer(&self, version: u32) -> AnalyzeObjectTree {
        let sleep_analysis_version = match version {
            1 => SleepAnalysisVersion::CallTree,
            2 => SleepAnalysisVersion::DynamicDispatch,
            _ => SleepAnalysisVersion::ReceiverProvenance,
        };
        let analyzer = AnalyzeObjectTree {
            types: self
                .types
                .iter()
                .map(|t| TypeNode { path: t.path.clone(), parent: t.parent })
                .collect(),
            procs: self
                .procs
                .iter()
                .map(|p| ProcInfo {
                    ty: p.ty,
                    name: p.name.clone(),
                    index: p.index,
                    declaration: p.declaration,
                    is_builtin: p.is_builtin,
                    calls: p.calls.clone(),
                    sleeps: p.sleeps,
                    sets_waitfor_zero: p.sets_waitfor_zero,
                    has_unresolved_call: p.has_unresolved_call,
                })
                .collect(),
            sleep_analysis_version,
        };
        assert!(analyzer.check_well_formed());
        analyzer
    }
}

fn sleep_allowlist_for_test(tree: &Tree, version: u32) -> Vec<String> {
    allowlist(&tree.analyzer(version), true)
}

fn sleep_allowlist_trusting_unresolved_for_test(tree: &Tree, version: u32) -> Vec<String> {
    allowlist(&tree.analyzer(version), false)
}

/// The analysis that trusts `new T()` of an untyped `T` records no
/// unresolved call for it, so the tree is already written that way.
fn sleep_allowlist_trusting_new_of_variable_for_test(tree: &Tree, version: u32) -> Vec<String> {
    allowlist(&tree.analyzer(version), true)
}

fn admitted(allowlist: &[String], path: &str) -> bool {
    allowlist.iter().any(|each| each == path)
}

/// ```dm
/// /proc/fire()
///     sleep(1)
/// /proc/ignite()
///     set waitfor = 0
///     fire()
/// /proc/run_queue()
///     ignite()
/// ```
#[test]
fn a_waitfor_zero_callee_protects_its_caller_but_not_itself() {
    let mut code = Tree::new();
    let fire = code.declare("", "fire");
    code.sleeps(fire);
    let ignite = code.declare("", "ignite");
    code.waitfor_zero(ignite);
    code.call_on_src(ignite, fire);
    let run_queue = code.declare("", "run_queue");
    code.call_on_src(run_queue, ignite);
    for version in [1, 3] {
        let allowlist = sleep_allowlist_for_test(&code, version);
        assert!(admitted(&allowlist, "/proc/run_queue"), "v{version}");
        assert!(!admitted(&allowlist, "/proc/ignite"), "v{version}");
        assert!(!admitted(&allowlist, "/proc/fire"), "v{version}");
    }
}

/// ```dm
/// /datum/proc/quiet()
/// /proc/untyped(x)
///     x.quiet()
/// /proc/colon(datum/x)
///     x:quiet()
/// /proc/typed(datum/x)
///     x.quiet()
/// ```
#[test]
fn calls_it_cannot_resolve_count_as_sleeping() {
    let mut code = Tree::new();
    let quiet = code.declare("/datum", "quiet");
    let untyped = code.declare("", "untyped");
    code.unresolved(untyped);
    let colon = code.declare("", "colon");
    code.unresolved(colon);
    let typed = code.declare("", "typed");
    code.call_on_typed(typed, quiet, "/datum");
    for version in [1, 3] {
        let allowlist = sleep_allowlist_for_test(&code, version);
        assert!(admitted(&allowlist, "/proc/typed"), "v{version}");
        assert!(!admitted(&allowlist, "/proc/untyped"), "v{version}");
        assert!(!admitted(&allowlist, "/proc/colon"), "v{version}");
    }
}

/// ```dm
/// /datum/proc/quiet()
/// /proc/untyped(x)
///     x.quiet()
/// /proc/sleeper(x)
///     x.quiet()
///     sleep(1)
/// ```
#[test]
fn trusting_unresolved_calls_admits_them_but_not_real_sleeps() {
    let mut code = Tree::new();
    code.declare("/datum", "quiet");
    let untyped = code.declare("", "untyped");
    code.unresolved(untyped);
    let sleeper = code.declare("", "sleeper");
    code.unresolved(sleeper);
    code.sleeps(sleeper);
    let allowlist = sleep_allowlist_trusting_unresolved_for_test(&code, 3);
    assert!(admitted(&allowlist, "/proc/untyped"));
    assert!(!admitted(&allowlist, "/proc/sleeper"));
}

/// ```dm
/// /datum/quiet/New()
/// /datum/quiet/child/New()
///     sleep(1)
/// /datum/loud/New()
///     sleep(1)
/// /proc/makes_quiet(datum/quiet/T)
///     new T()
/// /proc/makes_loud(datum/loud/T)
///     new T()
/// /proc/hinted(T)
///     var/datum/quiet/Q = new T()
/// /proc/untyped(T)
///     new T()
/// ```
fn new_of_a_typed_variable_code() -> Tree {
    let mut code = Tree::new();
    code.builtin("/datum", "New");
    let quiet_new = code.define("/datum/quiet", "New");
    let child_new = code.define("/datum/quiet/child", "New");
    code.sleeps(child_new);
    let loud_new = code.define("/datum/loud", "New");
    code.sleeps(loud_new);
    let makes_quiet = code.declare("", "makes_quiet");
    code.call_on_typed(makes_quiet, quiet_new, "/datum/quiet");
    let makes_loud = code.declare("", "makes_loud");
    code.call_on_typed(makes_loud, loud_new, "/datum/loud");
    let hinted = code.declare("", "hinted");
    code.call_on_typed(hinted, quiet_new, "/datum/quiet");
    let untyped = code.declare("", "untyped");
    code.unresolved(untyped);
    code
}

#[test]
fn new_of_a_typed_variable_checks_that_types_new() {
    let code = new_of_a_typed_variable_code();
    let v3 = sleep_allowlist_for_test(&code, 3);
    assert!(admitted(&v3, "/proc/makes_quiet"));
    assert!(admitted(&v3, "/proc/hinted"));
    assert!(!admitted(&v3, "/proc/makes_loud"));
    assert!(!admitted(&v3, "/proc/untyped"));
    // v1 follows every override, and T may hold /datum/quiet/child
    assert!(!admitted(&sleep_allowlist_for_test(&code, 1), "/proc/makes_quiet"));
}

/// ```dm
/// /datum/proc/quiet()
/// /proc/sleeper()
///     sleep(1)
/// /proc/untyped_new(T)
///     new T()
/// /proc/untyped_call(x)
///     x.quiet()
/// /proc/new_with_sleeping_arg(T)
///     new T(sleeper())
/// ```
#[test]
fn trusting_new_of_variable_admits_only_that() {
    let mut code = Tree::new();
    code.declare("/datum", "quiet");
    let sleeper = code.declare("", "sleeper");
    code.sleeps(sleeper);
    code.declare("", "untyped_new");
    let untyped_call = code.declare("", "untyped_call");
    code.unresolved(untyped_call);
    let new_with_sleeping_arg = code.declare("", "new_with_sleeping_arg");
    code.call_on_src(new_with_sleeping_arg, sleeper);
    let allowlist = sleep_allowlist_trusting_new_of_variable_for_test(&code, 3);
    assert!(admitted(&allowlist, "/proc/untyped_new"));
    assert!(!admitted(&allowlist, "/proc/untyped_call"));
    assert!(!admitted(&allowlist, "/proc/new_with_sleeping_arg"));
}

/// ```dm
/// /proc/fire()
///     sleep(1)
/// /proc/spawner()
///     spawn(1)
///         fire()
///         call(/proc/fire)()
/// ```
#[test]
fn a_sleep_inside_spawn_does_not_park_the_spawner() {
    let mut code = Tree::new();
    let fire = code.declare("", "fire");
    code.sleeps(fire);
    let spawner = code.declare("", "spawner");
    code.call_spawned(spawner, fire);
    assert!(admitted(&sleep_allowlist_for_test(&code, 3), "/proc/spawner"));
}

/// ```dm
/// /proc/exempt()
///     set SpacemanDMM_allowed_to_sleep = TRUE
///     sleep(1)
/// /proc/caller_of_exempt()
///     exempt()
/// ```
#[test]
fn allowed_to_sleep_still_sleeps() {
    let mut code = Tree::new();
    let exempt = code.declare("", "exempt");
    code.sleeps(exempt);
    let caller_of_exempt = code.declare("", "caller_of_exempt");
    code.call_on_src(caller_of_exempt, exempt);
    let allowlist = sleep_allowlist_for_test(&code, 3);
    assert!(!admitted(&allowlist, "/proc/exempt"));
    assert!(!admitted(&allowlist, "/proc/caller_of_exempt"));
}

/// ```dm
/// /mob/proc/foo()
/// /mob/proc/wait()
///     sleep(1)
/// /mob/living/carbon/foo()
///     wait()
/// /mob/living/proc/bar()
///     foo()
/// /mob/living/proc/unrelated()
/// ```
#[test]
fn overrides_are_followed_through_every_level() {
    let mut code = Tree::new();
    let foo = code.declare("/mob", "foo");
    let wait = code.declare("/mob", "wait");
    code.sleeps(wait);
    let carbon_foo = code.define("/mob/living/carbon", "foo");
    code.call_on_src(carbon_foo, wait);
    let bar = code.declare("/mob/living", "bar");
    code.call_on_src(bar, foo);
    code.declare("/mob/living", "unrelated");
    for version in [1, 3] {
        let allowlist = sleep_allowlist_for_test(&code, version);
        assert!(!admitted(&allowlist, "/mob/living/proc/bar"), "v{version}");
        assert!(admitted(&allowlist, "/mob/living/proc/unrelated"), "v{version}");
    }
}

/// ```dm
/// /mob/proc/foo()
/// /mob/living/proc/bar()
///     foo()
/// /mob/dead/foo()
///     sleep(1)
/// ```
#[test]
fn version_3_only_follows_overrides_under_the_receiver() {
    let mut code = Tree::new();
    let foo = code.declare("/mob", "foo");
    let bar = code.declare("/mob/living", "bar");
    code.call_on_src(bar, foo);
    let dead_foo = code.define("/mob/dead", "foo");
    code.sleeps(dead_foo);
    assert!(!admitted(&sleep_allowlist_for_test(&code, 1), "/mob/living/proc/bar"));
    assert!(admitted(&sleep_allowlist_for_test(&code, 3), "/mob/living/proc/bar"));
}

/// ```dm
/// /atom/proc/update_appearance()
///     update_icon()
/// /atom/proc/update_icon()
/// /obj/machine/proc/set_on()
///     update_appearance()
/// /mob/update_icon()
///     sleep(1)
/// ```
#[test]
fn version_3_keeps_the_receiver_through_a_base_type_proc() {
    // the /turf/open/process_cell -> /atom/proc/update_appearance shape: the
    // self-call inside the /atom proc still runs on a /obj/machine
    let mut code = Tree::new();
    let update_appearance = code.declare("/atom", "update_appearance");
    let update_icon = code.declare("/atom", "update_icon");
    code.call_on_src(update_appearance, update_icon);
    let set_on = code.declare("/obj/machine", "set_on");
    code.call_on_src(set_on, update_appearance);
    let mob_update_icon = code.define("/mob", "update_icon");
    code.sleeps(mob_update_icon);
    let v1 = sleep_allowlist_for_test(&code, 1);
    let v3 = sleep_allowlist_for_test(&code, 3);
    assert!(!admitted(&v1, "/obj/machine/proc/set_on"));
    assert!(admitted(&v3, "/obj/machine/proc/set_on"));
    assert!(!admitted(&v3, "/atom/proc/update_appearance"));
}

/// ```dm
/// /datum/proc/_SendSignal(sigtype, list/arguments)
///     return call(src, sigtype)(arglist(arguments))
/// /datum/proc/sender()
///     _SendSignal("x", list())
/// ```
#[test]
fn signal_dispatch_does_not_count_as_sleeping() {
    let mut code = Tree::new();
    let send_signal = code.declare("/datum", "_SendSignal");
    let sender = code.declare("/datum", "sender");
    code.call_on_src(sender, send_signal);
    for version in [1, 3] {
        let allowlist = sleep_allowlist_for_test(&code, version);
        assert!(admitted(&allowlist, "/datum/proc/sender"), "v{version}");
    }
}

/// ```dm
/// /proc/quiet()
/// /proc/starts()
///     startup("x.dmb", 0)
/// /proc/shuts(addr)
///     shutdown(addr)
/// /proc/medal()
///     world.GetMedal("m", "k")
/// /proc/page(client/C)
///     C.SendPage("hi", "k")
/// /proc/icon(client/C)
///     C.RenderIcon(null)
/// /proc/opens()
///     var/savefile/S = new /savefile("x.sav")
/// /proc/locks(savefile/S)
///     S.Lock(1)
/// /proc/background_loop()
///     set background = 1
///     for(var/i in 1 to 10)
///         quiet()
/// ```
#[test]
fn every_builtin_that_parks_counts() {
    let mut code = Tree::new();
    let quiet = code.declare("", "quiet");
    for name in ["starts", "shuts", "medal", "page", "icon", "opens", "locks"] {
        let p = code.declare("", name);
        code.sleeps(p);
    }
    let background_loop = code.declare("", "background_loop");
    code.sleeps(background_loop);
    code.call_on_src(background_loop, quiet);
    let allowlist = sleep_allowlist_for_test(&code, 3);
    assert!(admitted(&allowlist, "/proc/quiet"));
    let wrongly_admitted: Vec<_> = [
        "/proc/starts",
        "/proc/shuts",
        "/proc/medal",
        "/proc/page",
        "/proc/icon",
        "/proc/opens",
        "/proc/locks",
        "/proc/background_loop",
    ]
    .into_iter()
    .filter(|path| admitted(&allowlist, path))
    .collect();
    assert!(wrongly_admitted.is_empty(), "{wrongly_admitted:?}");
}

// dm.exe 516.1687 keeps proc/ or verb/ only on the copy that declares the proc:
// /proc/twice then /twice, /datum/proc/quiet then /datum/quiet
/// ```dm
/// /proc/twice()
/// /twice()
///     ..()
/// /datum/proc/quiet()
/// /datum/quiet()
///     ..()
/// /datum/proc/loud()
/// /datum/loud()
///     sleep(1)
/// ```
#[test]
fn a_redefinition_on_the_declaring_type_is_spelled_without_proc() {
    let mut code = Tree::new();
    let twice = code.declare("", "twice");
    let twice_again = code.define("", "twice");
    code.call_parent(twice_again, twice);
    let quiet = code.declare("/datum", "quiet");
    let quiet_again = code.define("/datum", "quiet");
    code.call_parent(quiet_again, quiet);
    code.declare("/datum", "loud");
    let loud_again = code.define("/datum", "loud");
    code.sleeps(loud_again);
    for version in [1, 3] {
        let allowlist = sleep_allowlist_for_test(&code, version);
        assert!(admitted(&allowlist, "/proc/twice"), "v{version}");
        assert!(admitted(&allowlist, "/twice"), "v{version}");
        assert!(admitted(&allowlist, "/datum/proc/quiet"), "v{version}");
        assert!(admitted(&allowlist, "/datum/quiet"), "v{version}");
        assert!(admitted(&allowlist, "/datum/proc/loud"), "v{version}");
        assert!(!admitted(&allowlist, "/datum/loud"), "v{version}");
    }
}

/// ```dm
/// /datum/proc/loud()
///     sleep(1)
/// /datum/loud()
///     ..()
/// ```
#[test]
fn a_redefinition_that_calls_a_sleeping_original_sleeps() {
    let mut code = Tree::new();
    let loud = code.declare("/datum", "loud");
    code.sleeps(loud);
    let loud_again = code.define("/datum", "loud");
    code.call_parent(loud_again, loud);
    let allowlist = sleep_allowlist_for_test(&code, 3);
    assert!(!admitted(&allowlist, "/datum/proc/loud"));
    assert!(!admitted(&allowlist, "/datum/loud"));
}

// two overrides on one type share a spelling in the .dmb, so one listing
// covers both
/// ```dm
/// /datum/proc/act()
/// /datum/child/act()
/// /datum/child/act()
///     sleep(1)
/// ```
#[test]
fn copies_that_share_a_spelling_are_admitted_only_if_every_copy_is() {
    let mut code = Tree::new();
    code.declare("/datum", "act");
    code.define("/datum/child", "act");
    let second = code.define("/datum/child", "act");
    code.sleeps(second);
    assert!(!admitted(&sleep_allowlist_for_test(&code, 3), "/datum/child/act"));
}

#[test]
fn sleep_verdicts_judge_every_proc_but_the_builtins_in_order() {
    let mut code = Tree::new();
    code.builtin("/datum", "New");
    let quiet = code.declare("", "quiet");
    let loud = code.declare("", "loud");
    code.sleeps(loud);
    let caller = code.declare("", "caller");
    code.call_on_src(caller, quiet);
    let analyzer = code.analyzer(3);
    assert_eq!(
        analyzer.sleep_verdicts(true),
        vec![(quiet, false), (loud, true), (caller, false)]
    );
}

#[test]
fn recursion_ends_and_parks_through_the_cycle() {
    let mut code = Tree::new();
    let ping = code.declare("", "ping");
    let pong = code.declare("", "pong");
    let sleeper = code.declare("", "sleeper");
    code.sleeps(sleeper);
    code.call_on_src(ping, pong);
    code.call_on_src(pong, ping);
    code.call_on_src(pong, sleeper);
    let echo = code.declare("", "echo");
    code.call_on_src(echo, echo);
    for version in [1, 2, 3] {
        let verdicts = code.analyzer(version).sleep_verdicts(true);
        assert_eq!(verdicts, vec![(ping, true), (pong, true), (sleeper, true), (echo, false)]);
    }
}

#[test]
fn dmb_paths_keep_the_declaration_only_on_the_declaring_copy() {
    let mut code = Tree::new();
    let twice = code.declare("", "twice");
    let twice_again = code.define("", "twice");
    let quiet = code.declare("/datum", "quiet");
    let child_quiet = code.define("/datum/child", "quiet");
    let say = code.add("/mob", "say", Some(DeclarationKind::Verb));
    let analyzer = code.analyzer(3);
    assert_eq!(analyzer.dmb_path(twice), "/proc/twice");
    assert_eq!(analyzer.dmb_path(twice_again), "/twice");
    assert_eq!(analyzer.dmb_path(quiet), "/datum/proc/quiet");
    assert_eq!(analyzer.dmb_path(child_quiet), "/datum/child/quiet");
    assert_eq!(analyzer.dmb_path(say), "/mob/verb/say");
    assert_eq!(DeclarationKind::Proc.word(), "proc");
    assert_eq!(DeclarationKind::Verb.word(), "verb");
}

#[test]
fn the_allowlist_is_sorted_by_code_point_and_lists_each_spelling_once() {
    let mut code = Tree::new();
    for name in ["alpha", "\u{e9}mile", "Zed", "a", "b"] {
        code.declare("", name);
    }
    code.declare("/datum", "act");
    code.define("/datum/child", "act");
    code.define("/datum/child", "act");
    let loud = code.declare("", "loud");
    code.sleeps(loud);
    let allowlist = sleep_allowlist_for_test(&code, 3);
    assert_eq!(
        allowlist,
        vec![
            "/datum/child/act".to_string(),
            "/datum/proc/act".to_string(),
            "/proc/Zed".to_string(),
            "/proc/a".to_string(),
            "/proc/alpha".to_string(),
            "/proc/b".to_string(),
            "/proc/\u{e9}mile".to_string(),
        ]
    );
}

#[test]
fn trusting_unresolved_calls_never_parks_more() {
    let mut code = Tree::new();
    let untyped = code.declare("", "untyped");
    code.unresolved(untyped);
    let caller = code.declare("", "caller");
    code.call_on_src(caller, untyped);
    let sleeper = code.declare("", "sleeper");
    code.sleeps(sleeper);
    let analyzer = code.analyzer(3);
    let trusting = analyzer.sleep_verdicts(false);
    let counting = analyzer.sleep_verdicts(true);
    assert_eq!(trusting, vec![(untyped, false), (caller, false), (sleeper, true)]);
    assert_eq!(counting, vec![(untyped, true), (caller, true), (sleeper, true)]);
    for (t, c) in trusting.iter().zip(counting.iter()) {
        assert!(!t.1 || c.1);
    }
}

#[test]
fn version_1_parks_whatever_versions_2_and_3_park() {
    let code = new_of_a_typed_variable_code();
    let v1 = code.analyzer(1).sleep_verdicts(true);
    let v2 = code.analyzer(2).sleep_verdicts(true);
    let v3 = code.analyzer(3).sleep_verdicts(true);
    for k in 0..v1.len() {
        assert!(!v3[k].1 || v2[k].1);
        assert!(!v2[k].1 || v1[k].1);
    }
    // version 2 trusts the receiver of `new T()` and dispatches to
    // /datum/quiet/child/New, which sleeps; version 3 does not trust it
    assert!(!admitted(&sleep_allowlist_for_test(&code, 2), "/proc/makes_quiet"));
    assert!(admitted(&sleep_allowlist_for_test(&code, 3), "/proc/makes_quiet"));
}

/// ```dm
/// /atom/proc/flick()
/// /atom/movable/flick()
///     sleep(1)
/// /obj/proc/blink()
///     flick()
/// ```
#[test]
fn an_override_between_the_proc_and_the_receiver_counts() {
    let mut code = Tree::new();
    let flick = code.declare("/atom", "flick");
    let movable_flick = code.define("/atom/movable", "flick");
    code.sleeps(movable_flick);
    let blink = code.declare("/obj", "blink");
    code.call_on_src(blink, flick);
    for version in [1, 2, 3] {
        assert!(!admitted(&sleep_allowlist_for_test(&code, version), "/obj/proc/blink"), "v{version}");
    }
}

/// ```dm
/// /datum/proc/act()
/// /datum/child/act()
///     sleep(1)
/// /datum/other/act()
///     ..()
/// ```
#[test]
fn a_parent_call_runs_exactly_the_parent() {
    let mut code = Tree::new();
    let act = code.declare("/datum", "act");
    let child_act = code.define("/datum/child", "act");
    code.sleeps(child_act);
    let other_act = code.define("/datum/other", "act");
    code.call_parent(other_act, act);
    for version in [1, 3] {
        let allowlist = sleep_allowlist_for_test(&code, version);
        assert!(admitted(&allowlist, "/datum/other/act"), "v{version}");
        assert!(admitted(&allowlist, "/datum/proc/act"), "v{version}");
        assert!(!admitted(&allowlist, "/datum/child/act"), "v{version}");
    }
}

#[test]
fn a_proc_that_sets_waitfor_zero_and_sleeps_still_parks() {
    let mut code = Tree::new();
    let napper = code.declare("", "napper");
    code.sleeps(napper);
    code.waitfor_zero(napper);
    let caller = code.declare("", "caller");
    code.call_on_src(caller, napper);
    let verdicts = code.analyzer(3).sleep_verdicts(true);
    assert_eq!(verdicts, vec![(napper, true), (caller, false)]);
}

#[test]
fn well_formedness_is_checked() {
    let code = Tree::new();
    assert!(code.analyzer(3).check_well_formed());

    let mut no_root = code.analyzer(3);
    no_root.types.clear();
    assert!(!no_root.check_well_formed());

    let mut root_with_parent = code.analyzer(3);
    root_with_parent.types[0].parent = Some(0);
    assert!(!root_with_parent.check_well_formed());

    let mut later_parent = code.analyzer(3);
    later_parent.types.push(TypeNode { path: "/a".to_string(), parent: Some(2) });
    later_parent.types.push(TypeNode { path: "/b".to_string(), parent: Some(0) });
    assert!(!later_parent.check_well_formed());

    let mut missing_callee = Tree::new();
    let p = missing_callee.declare("", "p");
    missing_callee.edge(p, CallEdge { proc: 7, src: 0, is_exact: false, new_context: false, inherit_receiver: true });
    let types: Vec<TypeNode> = vec![TypeNode { path: String::new(), parent: None }];
    let mut broken = AnalyzeObjectTree {
        types,
        procs: Vec::new(),
        sleep_analysis_version: SleepAnalysisVersion::ReceiverProvenance,
    };
    broken.procs.push(ProcInfo {
        ty: 0,
        name: "p".to_string(),
        index: 0,
        declaration: Some(DeclarationKind::Proc),
        is_builtin: false,
        calls: missing_callee.procs[p].calls.clone(),
        sleeps: false,
        sets_waitfor_zero: false,
        has_unresolved_call: false,
    });
    assert!(!broken.check_well_formed());
    broken.procs[0].calls.clear();
    assert!(broken.check_well_formed());
    broken.procs[0].ty = 3;
    assert!(!broken.check_well_formed());
}

#[test]
fn versions_say_what_they_track() {
    assert!(!SleepAnalysisVersion::CallTree.tracks_receiver_provenance());
    assert!(!SleepAnalysisVersion::DynamicDispatch.tracks_receiver_provenance());
    assert!(SleepAnalysisVersion::ReceiverProvenance.tracks_receiver_provenance());
    assert!(!SleepAnalysisVersion::CallTree.scopes_dispatch_to_receiver());
    assert!(SleepAnalysisVersion::DynamicDispatch.scopes_dispatch_to_receiver());
    assert!(SleepAnalysisVersion::ReceiverProvenance.scopes_dispatch_to_receiver());
}

#[test]
fn visit_targets_list_overrides_first_then_one_step_per_call() {
    let mut code = Tree::new();
    let foo = code.declare("/mob", "foo");
    let helper = code.declare("/mob", "helper");
    let sleeper = code.declare("", "sleeper");
    let living_foo = code.define("/mob/living", "foo");
    let dead_foo = code.define("/mob/dead", "foo");
    code.call_on_src(foo, helper);
    code.call_spawned(foo, sleeper);
    code.call_on_src(foo, sleeper);
    let mob = code.ty("/mob");
    let living = code.ty("/mob/living");
    let dead = code.ty("/mob/dead");
    let root = 0;
    let visit = Visit { proc: foo, receiver: mob, is_exact: false, receiver_is_stable: true };
    let analyzer = code.analyzer(3);
    let table = analyzer.override_table();
    assert_eq!(table[foo], vec![living_foo, dead_foo]);
    assert_eq!(
        analyzer.visit_targets(&table, visit),
        vec![
            Visit { proc: living_foo, receiver: living, is_exact: true, receiver_is_stable: true },
            Visit { proc: dead_foo, receiver: dead, is_exact: true, receiver_is_stable: true },
            Visit { proc: helper, receiver: mob, is_exact: false, receiver_is_stable: true },
            Visit { proc: sleeper, receiver: mob, is_exact: false, receiver_is_stable: true },
        ]
    );
    let exact = Visit { proc: foo, receiver: living, is_exact: true, receiver_is_stable: false };
    assert_eq!(
        analyzer.visit_targets(&table, exact),
        vec![
            Visit { proc: helper, receiver: living, is_exact: false, receiver_is_stable: false },
            Visit { proc: sleeper, receiver: living, is_exact: false, receiver_is_stable: false },
        ]
    );
    let v1 = code.analyzer(1);
    assert_eq!(
        v1.visit_targets(&table, Visit { proc: foo, receiver: living, is_exact: false, receiver_is_stable: false }),
        vec![
            Visit { proc: living_foo, receiver: living, is_exact: true, receiver_is_stable: true },
            Visit { proc: dead_foo, receiver: dead, is_exact: true, receiver_is_stable: true },
            Visit { proc: helper, receiver: mob, is_exact: false, receiver_is_stable: true },
            Visit { proc: sleeper, receiver: root, is_exact: false, receiver_is_stable: true },
        ]
    );
}
