//! The dependency scheduler: round by round it selects every project whose
//! dependency flags are all satisfied, dispatches those units of work
//! (fingerprint from a consistent upstream snapshot, cache lookup, execute
//! on a miss, cache write, record), and only then removes the completed
//! projects and flips their flag in every remaining project. A non-empty
//! workspace with nothing eligible is a detected deadlock — a cycle or an
//! unresolved dependency name — and fails fast.

use vstd::prelude::*;
use vstd::string::StringExecFns;

use crate::args::RunArgs;
use crate::cache::{cache_key, Cache};
use crate::executor::{
    classify_command_result, outcome_fatal, outcome_payload, CommandOutcome, CommandVerdict,
    OutcomeV,
};
use crate::fingerprint::{hash, UpstreamTable};
use crate::report::{stats_views, ProjectStats, StatsV};
use crate::seqs::lemma_filter_push;
use crate::workspace::{all_satisfied, views_of, Dep, DepV, Project, ProjectV};

verus! {

/// The names of a project sequence, in order.
pub open spec fn names_of(ws: Seq<ProjectV>) -> Seq<Seq<char>> {
    ws.map_values(|p: ProjectV| p.name)
}

/// Some project in `ws` is named `n`.
pub open spec fn contains_project(ws: Seq<ProjectV>, n: Seq<char>) -> bool {
    exists|i: int| 0 <= i < ws.len() && (#[trigger] ws[i]).name == n
}

/// Project names are pairwise distinct.
pub open spec fn distinct_names(ws: Seq<ProjectV>) -> bool {
    forall|i: int, j: int|
        0 <= i < j < ws.len() ==> (#[trigger] ws[i]).name != (#[trigger] ws[j]).name
}

/// Every unsatisfied dependency names a project still in the workspace.
pub open spec fn deps_resolved(ws: Seq<ProjectV>) -> bool {
    forall|i: int, j: int|
        0 <= i < ws.len() && 0 <= j < ws[i].deps.len() && !(#[trigger] ws[i].deps[j]).satisfied
            ==> contains_project(ws, ws[i].deps[j].name)
}

/// A ranking certifies the dependency relation is acyclic: every unsatisfied
/// dependency edge goes strictly down in rank.
pub open spec fn ranked_by(ws: Seq<ProjectV>, rank: Map<Seq<char>, nat>) -> bool {
    forall|i: int, j: int|
        0 <= i < ws.len() && 0 <= j < ws[i].deps.len() && !(#[trigger] ws[i].deps[j]).satisfied
            ==> rank.contains_key(ws[i].name) && rank.contains_key(ws[i].deps[j].name) && rank[
            ws[i].deps[j].name] < rank[ws[i].name]
}

/// The unsatisfied dependency edges form no cycle.
pub open spec fn acyclic(ws: Seq<ProjectV>) -> bool {
    exists|rank: Map<Seq<char>, nat>| ranked_by(ws, rank)
}

/// One dependency flag after a project named `n` completed.
pub open spec fn mark_dep(d: DepV, n: Seq<char>) -> DepV {
    DepV { name: d.name, satisfied: d.satisfied || d.name == n }
}

/// One project after a project named `n` completed: same name and path, the
/// flag for `n` satisfied.
pub open spec fn mark_project(p: ProjectV, n: Seq<char>) -> ProjectV {
    ProjectV { path: p.path, name: p.name, deps: p.deps.map_values(|d: DepV| mark_dep(d, n)) }
}

/// The workspace after the project named `n` completed: `n` removed, its
/// flag satisfied everywhere else.
pub open spec fn remove_completed(ws: Seq<ProjectV>, n: Seq<char>) -> Seq<ProjectV>
    decreases ws.len(),
{
    if ws.len() == 0 {
        Seq::empty()
    } else {
        let rest = remove_completed(ws.drop_last(), n);
        if ws.last().name == n {
            rest
        } else {
            rest.push(mark_project(ws.last(), n))
        }
    }
}

fn deps_all_satisfied(p: &Project) -> (b: bool)
    ensures
        b == all_satisfied(p@),
{
    let mut j: usize = 0;
    while j < p.dependencies.len()
        invariant
            j <= p.dependencies@.len(),
            forall|t: int| 0 <= t < j ==> (#[trigger] p@.deps[t]).satisfied,
        decreases p.dependencies@.len() - j,
    {
        if !p.dependencies[j].satisfied {
            assert(!p@.deps[j as int].satisfied);
            return false;
        }
        j += 1;
    }
    true
}

fn clone_projects(ws: &Vec<Project>) -> (r: Vec<Project>)
    ensures
        views_of(r@) == views_of(ws@),
{
    let mut out: Vec<Project> = Vec::new();
    let mut i: usize = 0;
    while i < ws.len()
        invariant
            i <= ws@.len(),
            out@.len() == i,
            forall|j: int| 0 <= j < i ==> (#[trigger] out@[j])@ == ws@[j]@,
        decreases ws@.len() - i,
    {
        out.push(ws[i].clone());
        i += 1;
    }
    proof {
        assert(views_of(out@) =~= views_of(ws@));
    }
    out
}

/// Selects the projects eligible for the next round: those whose every
/// dependency flag is satisfied (a project without dependencies is
/// immediately eligible), in workspace order.
pub fn get_dependency_free_projects(workspace: Vec<Project>) -> (r: Vec<Project>)
    ensures
        views_of(r@) == views_of(workspace@).filter(|p: ProjectV| all_satisfied(p)),
{
    let mut out: Vec<Project> = Vec::new();
    let mut i: usize = 0;
    while i < workspace.len()
        invariant
            i <= workspace@.len(),
            views_of(out@) == views_of(workspace@.subrange(0, i as int)).filter(
                |p: ProjectV| all_satisfied(p),
            ),
        decreases workspace@.len() - i,
    {
        let ghost prev = views_of(workspace@.subrange(0, i as int));
        let ghost out_prev = views_of(out@);
        let p = &workspace[i];
        if deps_all_satisfied(p) {
            out.push(p.clone());
        }
        proof {
            assert(views_of(workspace@.subrange(0, i + 1)) =~= prev.push(workspace@[i as int]@));
            lemma_filter_push(prev, |p: ProjectV| all_satisfied(p), workspace@[i as int]@);
            if all_satisfied(workspace@[i as int]@) {
                assert(views_of(out@) =~= out_prev.push(workspace@[i as int]@));
            }
        }
        i += 1;
    }
    proof {
        assert(workspace@.subrange(0, workspace@.len() as int) =~= workspace@);
    }
    out
}

fn mark_project_exec(p: &Project, n: &String) -> (r: Project)
    ensures
        r@ == mark_project(p@, n@),
{
    let mut deps: Vec<Dep> = Vec::new();
    let mut j: usize = 0;
    while j < p.dependencies.len()
        invariant
            j <= p.dependencies@.len(),
            deps@.len() == j,
            forall|t: int| 0 <= t < j ==> (#[trigger] deps@[t])@ == mark_dep(p@.deps[t], n@),
        decreases p.dependencies@.len() - j,
    {
        let d = &p.dependencies[j];
        let satisfied = d.satisfied || d.name == *n;
        deps.push(Dep { name: d.name.clone(), satisfied });
        j += 1;
    }
    let r = Project { path: p.path.clone(), name: p.name.clone(), dependencies: deps };
    proof {
        assert(r@.deps =~= p@.deps.map_values(|d: DepV| mark_dep(d, n@)));
    }
    r
}

/// Removes the completed project from the workspace and flips its flag in
/// every remaining project's dependency mapping.
pub fn remove_project_from_workspace(workspace: &mut Vec<Project>, project: &Project)
    ensures
        views_of(final(workspace)@) == remove_completed(views_of(old(workspace)@), project.name@),
{
    let mut out: Vec<Project> = Vec::new();
    let mut i: usize = 0;
    while i < workspace.len()
        invariant
            i <= workspace@.len(),
            views_of(out@) == remove_completed(
                views_of(workspace@.subrange(0, i as int)),
                project.name@,
            ),
        decreases workspace@.len() - i,
    {
        let ghost prev = views_of(workspace@.subrange(0, i as int));
        let ghost out_prev = views_of(out@);
        let p = &workspace[i];
        let keep = !(p.name == project.name);
        if keep {
            let marked = mark_project_exec(p, &project.name);
            out.push(marked);
        }
        proof {
            let cur = views_of(workspace@.subrange(0, i + 1));
            assert(cur =~= prev.push(workspace@[i as int]@));
            assert(cur.drop_last() =~= prev);
            if keep {
                assert(views_of(out@) =~= out_prev.push(
                    mark_project(workspace@[i as int]@, project.name@),
                ));
            }
        }
        i += 1;
    }
    proof {
        assert(workspace@.subrange(0, workspace@.len() as int) =~= workspace@);
    }
    *workspace = out;
}

/// Why a run aborted.
#[derive(Debug)]
pub enum RunError {
    /// Nothing was eligible while projects remained: a dependency cycle or
    /// an unresolved dependency name.
    Deadlock,
    /// A command finished with a fatal outcome in the named project.
    CommandFailed { project: String, command: String, code: Option<i32>, stdout: String },
    /// The command could not be launched at all in the named project.
    SpawnFailed { project: String, command: String },
}

/// The names scheduled by a sequence of rounds, in dispatch order.
pub open spec fn flatten_names(rv: Seq<Seq<ProjectV>>) -> Seq<Seq<char>>
    decreases rv.len(),
{
    if rv.len() == 0 {
        Seq::empty()
    } else {
        names_of(rv.first()) + flatten_names(rv.drop_first())
    }
}

/// The views of a round list.
pub open spec fn rounds_views(s: Seq<Vec<Project>>) -> Seq<Seq<ProjectV>> {
    s.map_values(|v: Vec<Project>| views_of(v@))
}

/// Every scheduled project had each of its initially-unsatisfied
/// dependencies scheduled in a strictly earlier round.
pub open spec fn rounds_schedule_deps_first(ws0: Seq<ProjectV>, rv: Seq<Seq<ProjectV>>) -> bool {
    forall|k: int, i: int, oi: int, j: int|
        #![trigger rv[k][i], ws0[oi].deps[j]]
        0 <= k < rv.len() && 0 <= i < rv[k].len() && 0 <= oi < ws0.len() && rv[k][i].name
            == ws0[oi].name && 0 <= j < ws0[oi].deps.len() && !ws0[oi].deps[j].satisfied
            ==> flatten_names(rv.subrange(0, k)).contains(ws0[oi].deps[j].name)
}

/// A correct schedule for the workspace: every project exactly once, and
/// dependencies always in strictly earlier rounds.
pub open spec fn valid_plan(ws0: Seq<ProjectV>, rv: Seq<Seq<ProjectV>>) -> bool {
    &&& flatten_names(rv).to_multiset() == names_of(ws0).to_multiset()
    &&& rounds_schedule_deps_first(ws0, rv)
}

/// How a still-pending project relates to its original: same name, path and
/// dependency names; a flag is satisfied exactly when it was initially or
/// when the dependency has since completed.
pub open spec fn evolved_from(q: ProjectV, p: ProjectV, done: Seq<Seq<char>>) -> bool {
    &&& q.name == p.name
    &&& q.path == p.path
    &&& q.deps.len() == p.deps.len()
    &&& forall|j: int|
        0 <= j < p.deps.len() ==> (#[trigger] q.deps[j]).name == p.deps[j].name && (
        q.deps[j].satisfied == (p.deps[j].satisfied || done.contains(p.deps[j].name)))
}

/// The pending project `q` evolved from some original in `ws0`.
pub open spec fn has_origin(ws0: Seq<ProjectV>, q: ProjectV, done: Seq<Seq<char>>) -> bool {
    exists|oi: int| 0 <= oi < ws0.len() && evolved_from(q, #[trigger] ws0[oi], done)
}

/// Every pending project evolved from some original.
pub open spec fn ws_evolved(ws0: Seq<ProjectV>, cur: Seq<ProjectV>, done: Seq<Seq<char>>) -> bool {
    forall|i: int| 0 <= i < cur.len() ==> has_origin(ws0, #[trigger] cur[i], done)
}

proof fn lemma_flatten_push(rv: Seq<Seq<ProjectV>>, x: Seq<ProjectV>)
    ensures
        flatten_names(rv.push(x)) == flatten_names(rv) + names_of(x),
    decreases rv.len(),
{
    if rv.len() == 0 {
        let e = rv.push(x).drop_first();
        assert(e =~= Seq::<Seq<ProjectV>>::empty());
        assert(e.len() == 0);
        assert(flatten_names(e) =~= Seq::<Seq<char>>::empty());
        assert(rv.push(x).first() == x);
        assert(flatten_names(rv.push(x)) == names_of(x) + flatten_names(e));
        assert(flatten_names(rv.push(x)) =~= flatten_names(rv) + names_of(x));
    } else {
        let e = rv.push(x).drop_first();
        assert(e =~= rv.drop_first().push(x));
        assert(rv.push(x).first() == rv.first());
        assert(flatten_names(rv.push(x)) == names_of(rv.first()) + flatten_names(e));
        lemma_flatten_push(rv.drop_first(), x);
        assert(flatten_names(e) == flatten_names(rv.drop_first()) + names_of(x));
        assert(flatten_names(rv) == names_of(rv.first()) + flatten_names(rv.drop_first()));
        assert(flatten_names(rv.push(x)) =~= flatten_names(rv) + names_of(x));
    }
}

proof fn lemma_names_contains(s: Seq<ProjectV>, n: Seq<char>)
    ensures
        contains_project(s, n) == names_of(s).contains(n),
{
    if contains_project(s, n) {
        let i = choose|i: int| 0 <= i < s.len() && (#[trigger] s[i]).name == n;
        assert(names_of(s)[i] == n);
    }
    if names_of(s).contains(n) {
        let i = choose|i: int| 0 <= i < names_of(s).len() && names_of(s)[i] == n;
        assert(s[i].name == n);
    }
}

proof fn lemma_contains_push(s: Seq<Seq<char>>, x: Seq<char>, y: Seq<char>)
    ensures
        s.push(y).contains(x) == (s.contains(x) || x == y),
{
    if s.contains(x) {
        let i = choose|i: int| 0 <= i < s.len() && s[i] == x;
        assert(s.push(y)[i] == x);
    }
    if x == y {
        assert(s.push(y)[s.len() as int] == x);
    }
    if s.push(y).contains(x) {
        let i = choose|i: int| 0 <= i < s.push(y).len() && s.push(y)[i] == x;
        if i < s.len() {
            assert(s[i] == x);
        }
    }
}

proof fn lemma_filter_distinct_names(s: Seq<ProjectV>, pred: spec_fn(ProjectV) -> bool)
    requires
        distinct_names(s),
    ensures
        distinct_names(s.filter(pred)),
        forall|i: int|
            0 <= i < s.filter(pred).len() ==> exists|i0: int|
                0 <= i0 < s.len() && #[trigger] s.filter(pred)[i] == s[i0],
    decreases s.len(),
{
    reveal(Seq::filter);
    broadcast use vstd::seq_lib::group_filter_ensures;

    if s.len() > 0 {
        let d = s.drop_last();
        assert(forall|i: int, j: int|
            0 <= i < j < d.len() ==> (#[trigger] d[i]).name != (#[trigger] d[j]).name);
        lemma_filter_distinct_names(d, pred);
        let df = d.filter(pred);
        if pred(s.last()) {
            assert(s.filter(pred) == df.push(s.last()));
            assert forall|i: int| 0 <= i < s.filter(pred).len() implies exists|i0: int|
                0 <= i0 < s.len() && #[trigger] s.filter(pred)[i] == s[i0] by {
                if i < df.len() {
                    let i0 = choose|i0: int| 0 <= i0 < d.len() && #[trigger] df[i] == d[i0];
                    assert(s.filter(pred)[i] == s[i0]);
                } else {
                    assert(s.filter(pred)[i] == s[s.len() - 1]);
                }
            }
            assert forall|i: int, j: int| 0 <= i < j < s.filter(pred).len() implies (
            #[trigger] s.filter(pred)[i]).name != (#[trigger] s.filter(pred)[j]).name by {
                if j < df.len() {
                } else {
                    let i0 = choose|i0: int| 0 <= i0 < d.len() && #[trigger] df[i] == d[i0];
                    assert(s[i0].name != s.last().name);
                }
            }
        } else {
            assert(s.filter(pred) == df);
            assert forall|i: int| 0 <= i < s.filter(pred).len() implies exists|i0: int|
                0 <= i0 < s.len() && #[trigger] s.filter(pred)[i] == s[i0] by {
                let i0 = choose|i0: int| 0 <= i0 < d.len() && #[trigger] df[i] == d[i0];
                assert(s.filter(pred)[i] == s[i0]);
            }
        }
    }
}

proof fn lemma_remove_completed(s: Seq<ProjectV>, n: Seq<char>)
    requires
        distinct_names(s),
    ensures
        distinct_names(remove_completed(s, n)),
        contains_project(s, n) ==> names_of(remove_completed(s, n)).to_multiset() == names_of(
            s,
        ).to_multiset().remove(n) && remove_completed(s, n).len() == s.len() - 1,
        !contains_project(s, n) ==> names_of(remove_completed(s, n)).to_multiset() == names_of(
            s,
        ).to_multiset() && remove_completed(s, n).len() == s.len(),
        forall|i: int|
            0 <= i < remove_completed(s, n).len() ==> exists|i0: int|
                0 <= i0 < s.len() && #[trigger] remove_completed(s, n)[i] == mark_project(
                    s[i0],
                    n,
                ) && s[i0].name != n,
    decreases s.len(),
{
    broadcast use vstd::seq_lib::group_to_multiset_ensures;
    broadcast use vstd::multiset::group_multiset_axioms;

    let r = remove_completed(s, n);
    if s.len() == 0 {
        assert(names_of(r) =~= Seq::<Seq<char>>::empty());
    } else {
        let d = s.drop_last();
        assert(forall|i: int, j: int|
            0 <= i < j < d.len() ==> (#[trigger] d[i]).name != (#[trigger] d[j]).name);
        lemma_remove_completed(d, n);
        let rest = remove_completed(d, n);
        assert(names_of(d).push(s.last().name) =~= names_of(s));
        assert(names_of(s).to_multiset() == names_of(d).to_multiset().insert(s.last().name));
        if s.last().name == n {
            assert(r == rest);
            assert(contains_project(s, n));
            assert(!contains_project(d, n)) by {
                if contains_project(d, n) {
                    let i = choose|i: int| 0 <= i < d.len() && (#[trigger] d[i]).name == n;
                    assert(s[i].name == s[s.len() - 1].name);
                }
            }
            assert(names_of(r).to_multiset() =~= names_of(s).to_multiset().remove(n));
        } else {
            assert(r == rest.push(mark_project(s.last(), n)));
            assert(names_of(r) =~= names_of(rest).push(s.last().name));
            assert(names_of(r).to_multiset() == names_of(rest).to_multiset().insert(
                s.last().name,
            ));
            assert(contains_project(s, n) == contains_project(d, n)) by {
                if contains_project(s, n) {
                    let i = choose|i: int| 0 <= i < s.len() && (#[trigger] s[i]).name == n;
                    assert(d[i].name == n);
                }
                if contains_project(d, n) {
                    let i = choose|i: int| 0 <= i < d.len() && (#[trigger] d[i]).name == n;
                    assert(s[i].name == n);
                }
            }
            if contains_project(d, n) {
                assert(names_of(r).to_multiset() =~= names_of(s).to_multiset().remove(n));
            } else {
                assert(names_of(r).to_multiset() =~= names_of(s).to_multiset());
            }
            // distinctness: the pushed element's name is absent from `rest`
            assert forall|i: int, j: int| 0 <= i < j < r.len() implies (#[trigger] r[i]).name != (
            #[trigger] r[j]).name by {
                if j == r.len() - 1 {
                    let i0 = choose|i0: int|
                        0 <= i0 < d.len() && #[trigger] rest[i] == mark_project(d[i0], n)
                            && d[i0].name != n;
                    assert(s[i0].name != s[s.len() - 1].name);
                    assert(r[i].name == s[i0].name);
                    assert(r[j].name == s.last().name);
                }
            }
            // provenance of each element
            assert forall|i: int| 0 <= i < r.len() implies exists|i0: int|
                0 <= i0 < s.len() && #[trigger] r[i] == mark_project(s[i0], n) && s[i0].name
                    != n by {
                if i < rest.len() {
                    let i0 = choose|i0: int|
                        0 <= i0 < d.len() && #[trigger] rest[i] == mark_project(d[i0], n)
                            && d[i0].name != n;
                    assert(r[i] == mark_project(s[i0], n));
                } else {
                    assert(r[i] == mark_project(s[s.len() - 1], n));
                }
            }
        }
    }
}

proof fn lemma_evolved_mark(q: ProjectV, p: ProjectV, done: Seq<Seq<char>>, n: Seq<char>)
    requires
        evolved_from(q, p, done),
    ensures
        evolved_from(mark_project(q, n), p, done.push(n)),
{
    let m = mark_project(q, n);
    assert forall|j: int|
        0 <= j < p.deps.len() implies (#[trigger] m.deps[j]).name == p.deps[j].name && (
    m.deps[j].satisfied == (p.deps[j].satisfied || done.push(n).contains(p.deps[j].name))) by {
        assert(m.deps[j] == mark_dep(q.deps[j], n));
        lemma_contains_push(done, p.deps[j].name, n);
    }
}

proof fn lemma_ws_evolved_remove(
    ws0: Seq<ProjectV>,
    cur: Seq<ProjectV>,
    done: Seq<Seq<char>>,
    n: Seq<char>,
)
    requires
        distinct_names(cur),
        ws_evolved(ws0, cur, done),
    ensures
        ws_evolved(ws0, remove_completed(cur, n), done.push(n)),
{
    lemma_remove_completed(cur, n);
    let r = remove_completed(cur, n);
    assert forall|i: int| 0 <= i < r.len() implies has_origin(ws0, #[trigger] r[i], done.push(n)) by {
        let i0 = choose|i0: int|
            0 <= i0 < cur.len() && #[trigger] r[i] == mark_project(cur[i0], n) && cur[i0].name
                != n;
        assert(has_origin(ws0, cur[i0], done));
        let oi = choose|oi: int|
            0 <= oi < ws0.len() && evolved_from(cur[i0], #[trigger] ws0[oi], done);
        lemma_evolved_mark(cur[i0], ws0[oi], done, n);
        assert(evolved_from(mark_project(cur[i0], n), ws0[oi], done.push(n)));
    }
}

proof fn lemma_evolved_ranked(
    ws0: Seq<ProjectV>,
    cur: Seq<ProjectV>,
    done: Seq<Seq<char>>,
    rank: Map<Seq<char>, nat>,
)
    requires
        ws_evolved(ws0, cur, done),
        ranked_by(ws0, rank),
    ensures
        ranked_by(cur, rank),
{
    assert forall|i: int, j: int|
        0 <= i < cur.len() && 0 <= j < cur[i].deps.len() && !(#[trigger] cur[i].deps[j]).satisfied
            implies rank.contains_key(cur[i].name) && rank.contains_key(cur[i].deps[j].name)
        && rank[cur[i].deps[j].name] < rank[cur[i].name] by {
        assert(has_origin(ws0, cur[i], done));
        let oi = choose|oi: int|
            0 <= oi < ws0.len() && evolved_from(cur[i], #[trigger] ws0[oi], done);
        assert(!ws0[oi].deps[j].satisfied);
    }
}

proof fn lemma_evolved_resolved(ws0: Seq<ProjectV>, cur: Seq<ProjectV>, done: Seq<Seq<char>>)
    requires
        ws_evolved(ws0, cur, done),
        deps_resolved(ws0),
        names_of(ws0).to_multiset() == done.to_multiset().add(names_of(cur).to_multiset()),
    ensures
        deps_resolved(cur),
{
    broadcast use vstd::seq_lib::group_to_multiset_ensures;
    broadcast use vstd::multiset::group_multiset_axioms;

    assert forall|i: int, j: int|
        0 <= i < cur.len() && 0 <= j < cur[i].deps.len() && !(#[trigger] cur[i].deps[j]).satisfied
            implies contains_project(cur, cur[i].deps[j].name) by {
        assert(has_origin(ws0, cur[i], done));
        let oi = choose|oi: int|
            0 <= oi < ws0.len() && evolved_from(cur[i], #[trigger] ws0[oi], done);
        let d = ws0[oi].deps[j as int].name;
        assert(cur[i].deps[j].name == d);
        assert(!ws0[oi].deps[j as int].satisfied);
        assert(!done.contains(d));
        assert(contains_project(ws0, d));
        lemma_names_contains(ws0, d);
        assert(names_of(ws0).to_multiset().count(d) > 0);
        assert(done.to_multiset().count(d) == 0);
        assert(names_of(cur).to_multiset().count(d) > 0);
        assert(names_of(cur).contains(d));
        lemma_names_contains(cur, d);
    }
}

/// Computes the run's round schedule: each round is the set of projects
/// eligible at its start, and the rounds advance until the workspace is
/// empty. On success the schedule covers every project exactly once with
/// all dependencies in strictly earlier rounds; a workspace whose
/// unsatisfied dependencies are acyclic and resolved always succeeds, and
/// the loop itself is proved terminating, so a cyclic or dangling workspace
/// fails fast with the deadlock error instead of looping.
pub fn plan_rounds(workspace: Vec<Project>) -> (r: Result<Vec<Vec<Project>>, RunError>)
    requires
        distinct_names(views_of(workspace@)),
    ensures
        (r matches Ok(rounds) ==> valid_plan(views_of(workspace@), rounds_views(rounds@))),
        acyclic(views_of(workspace@)) && deps_resolved(views_of(workspace@)) ==> r is Ok,
        (r matches Err(e) ==> e is Deadlock),
{
    let ghost ws0 = views_of(workspace@);
    let mut ws = clone_projects(&workspace);
    let mut rounds: Vec<Vec<Project>> = Vec::new();
    let ghost mut done: Seq<Seq<char>> = Seq::empty();
    proof {
        broadcast use vstd::seq_lib::group_to_multiset_ensures;
        broadcast use vstd::multiset::group_multiset_axioms;

        assert forall|x: Seq<char>| done.to_multiset().count(x) == 0 by {
            if done.to_multiset().count(x) > 0 {
                assert(done.contains(x));
            }
        }
        assert(names_of(ws0).to_multiset() =~= done.to_multiset().add(
            names_of(views_of(ws@)).to_multiset(),
        ));
        assert(rounds_views(rounds@) =~= Seq::<Seq<ProjectV>>::empty());
        assert forall|i: int| 0 <= i < views_of(ws@).len() implies has_origin(
            ws0,
            #[trigger] views_of(ws@)[i],
            done,
        ) by {
            assert(evolved_from(views_of(ws@)[i], ws0[i], done));
        }
        assert(ws_evolved(ws0, views_of(ws@), done));
    }
    loop
        invariant
            ws0 == views_of(workspace@),
            distinct_names(ws0),
            distinct_names(views_of(ws@)),
            ws_evolved(ws0, views_of(ws@), done),
            names_of(ws0).to_multiset() == done.to_multiset().add(
                names_of(views_of(ws@)).to_multiset(),
            ),
            done.len() + views_of(ws@).len() == ws0.len(),
            done == flatten_names(rounds_views(rounds@)),
            rounds_schedule_deps_first(ws0, rounds_views(rounds@)),
        decreases ws@.len(),
    {
        let ghost cur = views_of(ws@);
        let ready = get_dependency_free_projects(clone_projects(&ws));
        let ghost readyv = views_of(ready@);
        proof {
            assert(readyv == cur.filter(|p: ProjectV| all_satisfied(p)));
        }
        if ready.len() == 0 {
            if ws.len() == 0 {
                proof {
                    broadcast use vstd::seq_lib::group_to_multiset_ensures;
                    broadcast use vstd::multiset::group_multiset_axioms;

                    assert(names_of(cur) =~= Seq::<Seq<char>>::empty());
                    assert forall|x: Seq<char>| names_of(cur).to_multiset().count(x) == 0 by {
                        if names_of(cur).to_multiset().count(x) > 0 {
                            assert(names_of(cur).contains(x));
                        }
                    }
                    assert(names_of(ws0).to_multiset() =~= done.to_multiset());
                    assert(flatten_names(rounds_views(rounds@)).to_multiset() == names_of(
                        ws0,
                    ).to_multiset());
                }
                return Ok(rounds);
            }
            proof {
                if acyclic(ws0) && deps_resolved(ws0) {
                    broadcast use vstd::seq_lib::group_filter_ensures;

                    let rank = choose|rank: Map<Seq<char>, nat>| ranked_by(ws0, rank);
                    lemma_evolved_ranked(ws0, cur, done, rank);
                    lemma_evolved_resolved(ws0, cur, done);
                    lemma_ready_exists(cur, rank, 0);
                    let j = choose|j: int| 0 <= j < cur.len() && all_satisfied(#[trigger] cur[j]);
                    assert(cur.filter(|p: ProjectV| all_satisfied(p)).contains(cur[j]));
                    assert(readyv.contains(cur[j]));
                    let w = choose|w: int| 0 <= w < readyv.len() && readyv[w] == cur[j];
                    assert(readyv.len() == 0);
                    assert(false);
                }
            }
            return Err(RunError::Deadlock);
        }
        let ghost rv0 = rounds_views(rounds@);
        let ghost done0 = done;
        let round_copy = clone_projects(&ready);
        rounds.push(round_copy);
        let ghost rv1 = rounds_views(rounds@);
        proof {
            assert(rv1 =~= rv0.push(readyv));
            lemma_flatten_push(rv0, readyv);
            lemma_filter_distinct_names(cur, |p: ProjectV| all_satisfied(p));
            // the new round's units had every initially-unsatisfied
            // dependency completed before this round
            assert forall|k: int, i: int, oi: int, j: int|
                0 <= k < rv1.len() && 0 <= i < rv1[k].len() && 0 <= oi < ws0.len()
                    && (#[trigger] rv1[k][i]).name == ws0[oi].name && 0 <= j
                    < ws0[oi].deps.len() && !(#[trigger] ws0[oi].deps[j]).satisfied implies
                flatten_names(rv1.subrange(0, k)).contains(ws0[oi].deps[j].name) by {
                if k < rv0.len() {
                    assert(rv1.subrange(0, k) =~= rv0.subrange(0, k));
                    assert(rv1[k] == rv0[k]);
                    assert(rv0[k][i].name == ws0[oi].name);
                } else {
                    assert(rv1[k] == readyv);
                    let q = readyv[i];
                    broadcast use vstd::seq_lib::group_filter_ensures;

                    assert(all_satisfied(q));
                    let ci = choose|ci: int| 0 <= ci < cur.len() && #[trigger] readyv[i] == cur[ci];
                    assert(has_origin(ws0, cur[ci], done));
                    let oi2 = choose|oi2: int|
                        0 <= oi2 < ws0.len() && evolved_from(cur[ci], #[trigger] ws0[oi2], done);
                    assert(ws0[oi2].name == q.name);
                    assert(oi == oi2) by {
                        if oi != oi2 {
                            assert(ws0[oi].name == ws0[oi2].name);
                        }
                    }
                    assert(q.deps[j].satisfied);
                    assert(done.contains(ws0[oi].deps[j].name));
                    assert(rv1.subrange(0, k) =~= rv0);
                }
            }
        }
        let mut t: usize = 0;
        while t < ready.len()
            invariant
                t <= ready@.len(),
                readyv == views_of(ready@),
                distinct_names(readyv),
                distinct_names(ws0),
                distinct_names(views_of(ws@)),
                ws_evolved(ws0, views_of(ws@), done),
                names_of(ws0).to_multiset() == done.to_multiset().add(
                    names_of(views_of(ws@)).to_multiset(),
                ),
                done.len() + views_of(ws@).len() == ws0.len(),
                done == done0 + names_of(readyv).subrange(0, t as int),
                forall|u: int|
                    t <= u < readyv.len() ==> contains_project(
                        views_of(ws@),
                        (#[trigger] readyv[u]).name,
                    ),
                rv1 == rounds_views(rounds@),
                flatten_names(rv1) == done0 + names_of(readyv),
                rounds_schedule_deps_first(ws0, rv1),
            decreases ready@.len() - t,
        {
            broadcast use vstd::seq_lib::group_to_multiset_ensures;
            broadcast use vstd::multiset::group_multiset_axioms;

            let ghost cur_t = views_of(ws@);
            let ghost n = readyv[t as int].name;
            proof {
                lemma_remove_completed(cur_t, n);
                lemma_ws_evolved_remove(ws0, cur_t, done, n);
                lemma_names_contains(cur_t, n);
            }
            remove_project_from_workspace(&mut ws, &ready[t]);
            proof {
                let cur_n = views_of(ws@);
                assert(cur_n == remove_completed(cur_t, n));
                let dprev = done;
                done = dprev.push(n);
                assert(dprev.push(n).to_multiset() == dprev.to_multiset().insert(n));
                assert(names_of(cur_t).to_multiset().count(n) > 0) by {
                    assert(contains_project(cur_t, n));
                }
                assert(names_of(cur_n).to_multiset() == names_of(cur_t).to_multiset().remove(n));
                assert(names_of(ws0).to_multiset() =~= done.to_multiset().add(
                    names_of(cur_n).to_multiset(),
                ));
                assert(done =~= done0 + names_of(readyv).subrange(0, t + 1)) by {
                    assert(names_of(readyv).subrange(0, t + 1) =~= names_of(readyv).subrange(
                        0,
                        t as int,
                    ).push(n));
                }
                assert forall|u: int| t + 1 <= u < readyv.len() implies contains_project(
                    cur_n,
                    (#[trigger] readyv[u]).name,
                ) by {
                    let m = readyv[u].name;
                    assert(m != n);
                    lemma_names_contains(cur_t, m);
                    assert(names_of(cur_t).to_multiset().count(m) > 0);
                    assert(names_of(cur_n).to_multiset().count(m) > 0);
                    lemma_names_contains(cur_n, m);
                }
            }
            t += 1;
        }
        proof {
            assert(names_of(readyv).subrange(0, readyv.len() as int) =~= names_of(readyv));
            assert(done == flatten_names(rounds_views(rounds@)));
        }
    }
}

/// The outcome recorded for project `n`: the first entry with that name.
pub open spec fn find_outcome(s: Seq<(String, CommandOutcome)>, n: Seq<char>) -> Option<OutcomeV>
    decreases s.len(),
{
    if s.len() == 0 {
        Option::None
    } else if s.first().0@ == n {
        Option::Some(s.first().1@)
    } else {
        find_outcome(s.drop_first(), n)
    }
}

/// The file bytes gathered for project `n`: the first entry with that name.
pub open spec fn find_files(s: Seq<(String, Vec<u8>)>, n: Seq<char>) -> Option<Seq<u8>>
    decreases s.len(),
{
    if s.len() == 0 {
        Option::None
    } else if s.first().0@ == n {
        Option::Some(s.first().1@)
    } else {
        find_files(s.drop_first(), n)
    }
}

fn lookup_outcome(outcomes: &Vec<(String, CommandOutcome)>, name: &String) -> (r: Option<
    CommandOutcome,
>)
    ensures
        (r is Some) == (find_outcome(outcomes@, name@) is Some),
        r matches Some(o) ==> find_outcome(outcomes@, name@) == Option::Some(o@),
{
    let mut i: usize = 0;
    proof {
        assert(outcomes@.subrange(0, outcomes@.len() as int) =~= outcomes@);
    }
    while i < outcomes.len()
        invariant
            i <= outcomes@.len(),
            find_outcome(outcomes@, name@) == find_outcome(
                outcomes@.subrange(i as int, outcomes@.len() as int),
                name@,
            ),
        decreases outcomes@.len() - i,
    {
        let ghost tail = outcomes@.subrange(i as int, outcomes@.len() as int);
        proof {
            assert(tail.first() == outcomes@[i as int]);
            assert(tail.drop_first() =~= outcomes@.subrange(i + 1, outcomes@.len() as int));
        }
        if outcomes[i].0 == *name {
            return Some(outcomes[i].1.clone());
        }
        i += 1;
    }
    proof {
        assert(outcomes@.subrange(outcomes@.len() as int, outcomes@.len() as int) =~= Seq::<(
            String,
            CommandOutcome,
        )>::empty());
    }
    None
}

fn lookup_files(files: &Vec<(String, Vec<u8>)>, name: &String) -> (r: Vec<u8>)
    ensures
        find_files(files@, name@) matches Some(b) ==> r@ == b,
        find_files(files@, name@) is None ==> r@ == Seq::<u8>::empty(),
{
    let mut i: usize = 0;
    proof {
        assert(files@.subrange(0, files@.len() as int) =~= files@);
    }
    while i < files.len()
        invariant
            i <= files@.len(),
            find_files(files@, name@) == find_files(
                files@.subrange(i as int, files@.len() as int),
                name@,
            ),
        decreases files@.len() - i,
    {
        let ghost tail = files@.subrange(i as int, files@.len() as int);
        proof {
            assert(tail.first() == files@[i as int]);
            assert(tail.drop_first() =~= files@.subrange(i + 1, files@.len() as int));
        }
        if files[i].0 == *name {
            let src = &files[i].1;
            let mut out: Vec<u8> = Vec::new();
            let mut j: usize = 0;
            while j < src.len()
                invariant
                    j <= src@.len(),
                    out@ == src@.subrange(0, j as int),
                decreases src@.len() - j,
            {
                out.push(src[j]);
                proof {
                    assert(out@ =~= src@.subrange(0, j + 1));
                }
                j += 1;
            }
            proof {
                assert(src@.subrange(0, src@.len() as int) =~= src@);
            }
            return out;
        }
        i += 1;
    }
    proof {
        assert(files@.subrange(files@.len() as int, files@.len() as int) =~= Seq::<(
            String,
            Vec<u8>,
        )>::empty());
    }
    Vec::new()
}

/// The view of an optional command outcome.
pub open spec fn outcome_view(o: &Option<CommandOutcome>) -> Option<OutcomeV> {
    match o {
        Option::Some(x) => Option::Some(x@),
        Option::None => Option::None,
    }
}

/// What a cache miss must produce: with no outcome at all the unit aborts
/// as unlaunchable; a fatal outcome aborts, naming the project and command
/// and leaving the cache as it was; any other outcome yields its payload
/// and stores it under the unit's key.
pub open spec fn unit_miss_spec(
    project_name: Seq<char>,
    command: Seq<char>,
    key: (Seq<char>, Seq<u8>, Seq<char>),
    outcome: Option<OutcomeV>,
    r: Result<String, RunError>,
    store0: Map<(Seq<char>, Seq<u8>, Seq<char>), Seq<char>>,
    store1: Map<(Seq<char>, Seq<u8>, Seq<char>), Seq<char>>,
) -> bool {
    match outcome {
        Option::None => match r {
            Result::Err(RunError::SpawnFailed { project: pn, command: cn }) => pn@ == project_name
                && cn@ == command && store1 == store0,
            _ => false,
        },
        Option::Some(o) => if outcome_fatal(o) {
            match r {
                Result::Err(
                    RunError::CommandFailed { project: pn, command: cn, code, stdout },
                ) => pn@ == project_name && cn@ == command && code == o.code && stdout@ == o.stdout
                    && store1 == store0,
                _ => false,
            }
        } else {
            match r {
                Result::Ok(v) => v@ == outcome_payload(o) && store1 == store0.insert(
                    key,
                    outcome_payload(o),
                ),
                _ => false,
            }
        },
    }
}

/// One unit of work once its fingerprint is known: cache lookup first; on a
/// hit the stored result is returned and nothing runs. On a miss the
/// command's outcome decides — a non-fatal outcome yields its payload,
/// which is written back to the cache; a fatal outcome, or a command that
/// could not be launched at all (`outcome` of `None`), aborts with an error
/// naming the project and command, and the cache is left unchanged.
pub fn try_fetch_cache(
    cache: &mut Cache,
    project: &Project,
    command: &str,
    hash_str: &str,
    root_path: String,
    outcome: &Option<CommandOutcome>,
) -> (r: Result<String, RunError>)
    ensures
        final(cache).kind() == old(cache).kind(),
        old(cache).store().contains_key(cache_key(project.name@, command@, hash_str@)) ==> (r
            matches Ok(v) && v@ == old(cache).store()[cache_key(
            project.name@,
            command@,
            hash_str@,
        )] && final(cache).store() == old(cache).store()),
        !old(cache).store().contains_key(cache_key(project.name@, command@, hash_str@))
            ==> unit_miss_spec(
            project.name@,
            command@,
            cache_key(project.name@, command@, hash_str@),
            outcome_view(outcome),
            r,
            old(cache).store(),
            final(cache).store(),
        ),
{
    match cache.get(project, command, hash_str, root_path) {
        Some(v) => Ok(v),
        None => match outcome {
            None => Err(
                RunError::SpawnFailed {
                    project: project.name.clone(),
                    command: String::from_str(command),
                },
            ),
            Some(o) => match classify_command_result(o) {
                CommandVerdict::Success { output } => {
                    cache.put(project, command, hash_str, output.as_str());
                    Ok(output)
                },
                CommandVerdict::Skipped => {
                    let empty = String::new();
                    cache.put(project, command, hash_str, empty.as_str());
                    Ok(empty)
                },
                CommandVerdict::MissingCommand => {
                    let empty = String::new();
                    cache.put(project, command, hash_str, empty.as_str());
                    Ok(empty)
                },
                CommandVerdict::Fatal { code, stdout } => Err(
                    RunError::CommandFailed {
                        project: project.name.clone(),
                        command: String::from_str(command),
                        code,
                        stdout,
                    },
                ),
            },
        },
    }
}

/// The project names of a record list, in completion order.
pub open spec fn stats_names(s: Seq<StatsV>) -> Seq<Seq<char>> {
    s.map_values(|v: StatsV| v.project)
}

proof fn lemma_flatten_contains(rv: Seq<Seq<ProjectV>>, k: int, i: int)
    requires
        0 <= k < rv.len(),
        0 <= i < rv[k].len(),
    ensures
        flatten_names(rv).contains(rv[k][i].name),
    decreases k,
{
    let a = names_of(rv.first());
    let b = flatten_names(rv.drop_first());
    if k == 0 {
        assert((a + b)[i] == rv[0][i].name);
    } else {
        lemma_flatten_contains(rv.drop_first(), k - 1, i);
        assert(rv.drop_first()[k - 1] == rv[k]);
        let w = choose|w: int| 0 <= w < b.len() && b[w] == rv[k][i].name;
        assert((a + b)[a.len() + w] == rv[k][i].name);
    }
}

/// Executes the command across the workspace in dependency order: the round
/// schedule is computed first, then each round's units run in order — the
/// fingerprint is taken against a snapshot of the upstream table from the
/// round's start, the cache is consulted, a miss consults the recorded
/// command outcome, and the unit's fingerprint is recorded for later
/// rounds. `outcomes` holds what running the command produced per project
/// (consulted only on a miss; a missing entry means the command could not
/// be launched), `files` the gathered file bytes per project (a missing
/// entry hashes as empty, best effort). Timing lives with the driver, so
/// every recorded duration is zero here.
pub fn run(
    args: &RunArgs,
    workspace: Vec<Project>,
    root_path: String,
    cache: &mut Cache,
    outcomes: &Vec<(String, CommandOutcome)>,
    files: &Vec<(String, Vec<u8>)>,
) -> (r: Result<Vec<ProjectStats>, RunError>)
    requires
        distinct_names(views_of(workspace@)),
    ensures
        final(cache).kind() == old(cache).kind(),
        r matches Ok(stats) ==> (exists|rv: Seq<Seq<ProjectV>>|
            #[trigger] valid_plan(views_of(workspace@), rv) && stats_names(stats_views(stats@))
                == flatten_names(rv)),
        r matches Ok(stats) ==> stats_names(stats_views(stats@)).to_multiset() == names_of(
            views_of(workspace@),
        ).to_multiset(),
        r matches Ok(stats) ==> (forall|t: int|
            0 <= t < stats@.len() ==> (#[trigger] stats@[t])@.command == args.command@
                && stats@[t]@.fetch_duration == 0 && stats@[t]@.run_duration == 0
                && stats@[t]@.cache_duration == 0),
        r matches Err(RunError::Deadlock) ==> !(acyclic(views_of(workspace@)) && deps_resolved(
            views_of(workspace@),
        )),
        r matches Err(RunError::CommandFailed { project: pn, command: cn, code, stdout }) ==> cn@
            == args.command@ && (find_outcome(outcomes@, pn@) matches Some(o) && outcome_fatal(o)
            && code == o.code && stdout@ == o.stdout),
        r matches Err(RunError::SpawnFailed { project: pn, command: cn }) ==> cn@
            == args.command@ && find_outcome(outcomes@, pn@) is None,
        acyclic(views_of(workspace@)) && deps_resolved(views_of(workspace@)) && (forall|t: int|
            0 <= t < views_of(workspace@).len() ==> (find_outcome(
                outcomes@,
                (#[trigger] views_of(workspace@)[t]).name,
            ) matches Some(o) && !outcome_fatal(o))) ==> r is Ok,
{
    broadcast use vstd::seq_lib::group_to_multiset_ensures;

    let ghost ws0 = views_of(workspace@);
    let plan = match plan_rounds(workspace) {
        Ok(p) => p,
        Err(e) => {
            return Err(e);
        },
    };
    let ghost rv = rounds_views(plan@);
    let mut upstream = UpstreamTable::new();
    let mut stats: Vec<ProjectStats> = Vec::new();
    let mut k: usize = 0;
    proof {
        assert(rv.subrange(0, 0) =~= Seq::<Seq<ProjectV>>::empty());
        assert(flatten_names(rv.subrange(0, 0)) =~= Seq::<Seq<char>>::empty());
        assert(stats_names(stats_views(stats@)) =~= flatten_names(rv.subrange(0, 0)));
    }
    while k < plan.len()
        invariant
            k <= plan@.len(),
            ws0 == views_of(workspace@),
            valid_plan(ws0, rv),
            rv == rounds_views(plan@),
            cache.kind() == old(cache).kind(),
            stats_names(stats_views(stats@)) == flatten_names(rv.subrange(0, k as int)),
            forall|t: int|
                0 <= t < stats@.len() ==> (#[trigger] stats@[t])@.command == args.command@
                    && stats@[t]@.fetch_duration == 0 && stats@[t]@.run_duration == 0
                    && stats@[t]@.cache_duration == 0,
        decreases plan@.len() - k,
    {
        let round = &plan[k];
        let snap = upstream.snapshot();
        let mut i: usize = 0;
        proof {
            assert(names_of(rv[k as int]).subrange(0, 0) =~= Seq::<Seq<char>>::empty());
            assert(stats_names(stats_views(stats@)) =~= flatten_names(rv.subrange(0, k as int))
                + names_of(rv[k as int]).subrange(0, 0));
        }
        while i < round.len()
            invariant
                0 <= k < plan@.len(),
                i <= round@.len(),
                round == &plan@[k as int],
                ws0 == views_of(workspace@),
                valid_plan(ws0, rv),
                rv == rounds_views(plan@),
                cache.kind() == old(cache).kind(),
                stats_names(stats_views(stats@)) == flatten_names(rv.subrange(0, k as int))
                    + names_of(rv[k as int]).subrange(0, i as int),
                forall|t: int|
                    0 <= t < stats@.len() ==> (#[trigger] stats@[t])@.command == args.command@
                        && stats@[t]@.fetch_duration == 0 && stats@[t]@.run_duration == 0
                        && stats@[t]@.cache_duration == 0,
            decreases round@.len() - i,
        {
            broadcast use vstd::seq_lib::group_to_multiset_ensures;

            let project = &round[i];
            proof {
                assert(rv[k as int] == views_of(round@));
                assert(rv[k as int][i as int] == project@);
            }
            let fb = lookup_files(files, &project.name);
            let h = hash(project, args.command.as_str(), &snap, &fb);
            let oc = lookup_outcome(outcomes, &project.name);
            let ghost stats_prev = stats_views(stats@);
            match try_fetch_cache(cache, project, args.command.as_str(), h.as_str(),
                root_path.clone(), &oc) {
                Ok(payload) => {
                    stats.push(
                        ProjectStats {
                            project: project.name.clone(),
                            command: args.command.clone(),
                            result: payload,
                            fetch_duration: 0,
                            run_duration: 0,
                            cache_duration: 0,
                        },
                    );
                    upstream.insert(&project.name, &h);
                    proof {
                        assert(stats_views(stats@) =~= stats_prev.push(
                            stats@[stats@.len() - 1]@,
                        ));
                        assert(stats@[stats@.len() - 1]@.project == rv[k as int][i as int].name);
                        assert(names_of(rv[k as int]).subrange(0, i + 1) =~= names_of(
                            rv[k as int],
                        ).subrange(0, i as int).push(rv[k as int][i as int].name));
                        assert(stats_names(stats_views(stats@)) =~= stats_names(
                            stats_prev,
                        ).push(rv[k as int][i as int].name));
                        assert(stats_names(stats_views(stats@)) =~= flatten_names(
                            rv.subrange(0, k as int),
                        ) + names_of(rv[k as int]).subrange(0, i + 1));
                    }
                },
                Err(e) => {
                    proof {
                        lemma_flatten_contains(rv, k as int, i as int);
                        assert(flatten_names(rv).to_multiset().count(project.name@) > 0);
                        assert(names_of(ws0).contains(project.name@));
                        let w = choose|w: int|
                            0 <= w < names_of(ws0).len() && names_of(ws0)[w] == project.name@;
                        assert(views_of(workspace@)[w].name == project.name@);
                    }
                    return Err(e);
                },
            }
            i += 1;
        }
        proof {
            assert(names_of(rv[k as int]).subrange(0, names_of(rv[k as int]).len() as int)
                =~= names_of(rv[k as int]));
            assert(rv.subrange(0, k + 1) =~= rv.subrange(0, k as int).push(rv[k as int]));
            lemma_flatten_push(rv.subrange(0, k as int), rv[k as int]);
        }
        k += 1;
    }
    proof {
        assert(rv.subrange(0, rv.len() as int) =~= rv);
    }
    Ok(stats)
}

spec fn round_index(rv: Seq<Seq<ProjectV>>, n: Seq<char>) -> int
    decreases rv.len(),
{
    if rv.len() == 0 {
        0
    } else if names_of(rv.first()).contains(n) {
        0
    } else {
        1 + round_index(rv.drop_first(), n)
    }
}

proof fn lemma_round_index(rv: Seq<Seq<ProjectV>>, n: Seq<char>)
    requires
        flatten_names(rv).contains(n),
    ensures
        0 <= round_index(rv, n) < rv.len(),
        names_of(rv[round_index(rv, n)]).contains(n),
        forall|m: int| 0 <= m < round_index(rv, n) ==> !names_of(#[trigger] rv[m]).contains(n),
    decreases rv.len(),
{
    let a = names_of(rv.first());
    let b = flatten_names(rv.drop_first());
    if names_of(rv.first()).contains(n) {
        assert(rv[0] == rv.first());
    } else {
        let w = choose|w: int| 0 <= w < (a + b).len() && (a + b)[w] == n;
        if w < a.len() {
            assert(a[w] == n);
            assert(false);
        } else {
            assert(b[w - a.len()] == n);
        }
        lemma_round_index(rv.drop_first(), n);
        let ri = round_index(rv.drop_first(), n);
        assert(rv.drop_first()[ri] == rv[ri + 1]);
        assert forall|m: int| 0 <= m < round_index(rv, n) implies !names_of(
            #[trigger] rv[m],
        ).contains(n) by {
            if m > 0 {
                assert(rv.drop_first()[m - 1] == rv[m]);
            }
        }
    }
}

/// Deadlock detection is sound and complete: a schedule that covers every
/// project with all dependencies in strictly earlier rounds exists only for
/// a workspace whose unsatisfied dependency edges are acyclic and all
/// resolve within the workspace. Contrapositively, on a cyclic or
/// dangling-dependency workspace the (terminating) scheduler can never
/// reach such a schedule, so it reports the deadlock error instead.
pub proof fn lemma_plan_certifies_dag(ws0: Seq<ProjectV>, rv: Seq<Seq<ProjectV>>)
    requires
        distinct_names(ws0),
        valid_plan(ws0, rv),
    ensures
        acyclic(ws0),
        deps_resolved(ws0),
{
    broadcast use vstd::seq_lib::group_to_multiset_ensures;

    let rank = Map::<Seq<char>, nat>::new(
        |n: Seq<char>| flatten_names(rv).contains(n),
        |n: Seq<char>| round_index(rv, n) as nat,
    );
    assert forall|i: int, j: int|
        0 <= i < ws0.len() && 0 <= j < ws0[i].deps.len() && !(#[trigger] ws0[i].deps[j]).satisfied
            implies contains_project(ws0, ws0[i].deps[j].name) && rank.contains_key(ws0[i].name)
        && rank.contains_key(ws0[i].deps[j].name) && rank[ws0[i].deps[j].name] < rank[
        ws0[i].name] by {
        let ni = ws0[i].name;
        let d = ws0[i].deps[j].name;
        assert(names_of(ws0)[i] == ni);
        assert(names_of(ws0).contains(ni));
        assert(flatten_names(rv).to_multiset().count(ni) > 0);
        assert(flatten_names(rv).contains(ni));
        lemma_round_index(rv, ni);
        let ki = round_index(rv, ni);
        let idx = choose|idx: int|
            0 <= idx < names_of(rv[ki]).len() && names_of(rv[ki])[idx] == ni;
        assert(rv[ki][idx].name == ni);
        // the scheduled unit had this dependency completed earlier
        assert(flatten_names(rv.subrange(0, ki)).contains(d));
        lemma_round_index(rv.subrange(0, ki), d);
        let m = round_index(rv.subrange(0, ki), d);
        assert(rv.subrange(0, ki)[m] == rv[m]);
        assert(names_of(rv[m]).contains(d));
        let midx = choose|midx: int|
            0 <= midx < names_of(rv[m]).len() && names_of(rv[m])[midx] == d;
        assert(rv[m][midx].name == d);
        lemma_flatten_contains(rv, m, midx);
        assert(flatten_names(rv).contains(d));
        assert(names_of(ws0).to_multiset().count(d) > 0);
        assert(names_of(ws0).contains(d));
        lemma_names_contains(ws0, d);
        // minimality: the full-sequence round of `d` is no later than `m`
        lemma_round_index(rv, d);
        assert(round_index(rv, d) <= m) by {
            if round_index(rv, d) > m {
                assert(!names_of(rv[m]).contains(d));
            }
        }
        assert(rank[d] < rank[ni]);
    }
    assert(ranked_by(ws0, rank));
}

proof fn lemma_ready_exists(cur: Seq<ProjectV>, rank: Map<Seq<char>, nat>, i: int)
    requires
        0 <= i < cur.len(),
        ranked_by(cur, rank),
        deps_resolved(cur),
    ensures
        exists|j: int| 0 <= j < cur.len() && all_satisfied(#[trigger] cur[j]),
    decreases (if rank.contains_key(cur[i].name) {
        rank[cur[i].name]
    } else {
        0nat
    }),
{
    if all_satisfied(cur[i]) {
        assert(0 <= i < cur.len() && all_satisfied(cur[i]));
    } else {
        let j = choose|j: int| 0 <= j < cur[i].deps.len() && !(#[trigger] cur[i].deps[j]).satisfied;
        let d = cur[i].deps[j].name;
        assert(contains_project(cur, d));
        let t = choose|t: int| 0 <= t < cur.len() && (#[trigger] cur[t]).name == d;
        assert(rank[d] < rank[cur[i].name]);
        lemma_ready_exists(cur, rank, t);
    }
}

} // verus!
