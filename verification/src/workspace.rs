//! Workspace data model: a project with its intra-workspace dependency flags,
//! and the extraction of those dependencies from a parsed package manifest.
//!
//! Reading and parsing manifest files is the caller's concern; this module
//! receives the dependency lists as plain `(name, version-requirement)` pairs.

use vstd::prelude::*;

verus! {

/// Mathematical value of a dependency edge.
pub struct DepV {
    pub name: Seq<char>,
    pub satisfied: bool,
}

/// One intra-workspace dependency edge: the name of the upstream project and
/// whether that project has already completed in the current run.
pub struct Dep {
    pub name: String,
    pub satisfied: bool,
}

impl View for Dep {
    type V = DepV;

    open spec fn view(&self) -> DepV {
        DepV { name: self.name@, satisfied: self.satisfied }
    }
}

impl Clone for Dep {
    fn clone(&self) -> (r: Self)
        ensures
            r@ == self@,
    {
        Dep { name: self.name.clone(), satisfied: self.satisfied }
    }
}

/// Mathematical value of a project.
pub struct ProjectV {
    pub path: Seq<char>,
    pub name: Seq<char>,
    pub deps: Seq<DepV>,
}

/// One workspace member: a unique name, the directory the command runs in,
/// and the dependency flags (initially all unsatisfied; never the project's
/// own name).
pub struct Project {
    pub path: String,
    pub name: String,
    pub dependencies: Vec<Dep>,
}

impl View for Project {
    type V = ProjectV;

    open spec fn view(&self) -> ProjectV {
        ProjectV {
            path: self.path@,
            name: self.name@,
            deps: self.dependencies@.map_values(|d: Dep| d@),
        }
    }
}

impl Clone for Project {
    fn clone(&self) -> (r: Self)
        ensures
            r@ == self@,
    {
        let mut deps: Vec<Dep> = Vec::new();
        let mut i: usize = 0;
        while i < self.dependencies.len()
            invariant
                i <= self.dependencies@.len(),
                deps@.len() == i,
                forall|j: int| 0 <= j < i ==> (#[trigger] deps@[j])@ == self.dependencies@[j]@,
            decreases self.dependencies@.len() - i,
        {
            deps.push(self.dependencies[i].clone());
            i += 1;
        }
        let r = Project { path: self.path.clone(), name: self.name.clone(), dependencies: deps };
        proof {
            assert(deps@.map_values(|d: Dep| d@) =~= self.dependencies@.map_values(|d: Dep| d@));
        }
        r
    }
}

/// The views of a sequence of projects.
pub open spec fn views_of(ws: Seq<Project>) -> Seq<ProjectV> {
    ws.map_values(|p: Project| p@)
}

/// The names of a dependency list, in order.
pub open spec fn dep_names(deps: Seq<DepV>) -> Seq<Seq<char>> {
    deps.map_values(|d: DepV| d.name)
}

/// Every dependency flag of the project is satisfied (an empty list counts).
pub open spec fn all_satisfied(p: ProjectV) -> bool {
    forall|j: int| 0 <= j < p.deps.len() ==> (#[trigger] p.deps[j]).satisfied
}

/// The manifest list `l` declares `k` as an intra-workspace dependency:
/// some entry pairs the name `k` with the workspace version requirement.
pub open spec fn lists_workspace_dep(l: Seq<(String, String)>, k: Seq<char>) -> bool {
    exists|i: int| 0 <= i < l.len() && (#[trigger] l[i]).0@ == k && l[i].1@ == "workspace:*"@
}

fn contains_name(v: &Vec<Dep>, name: &String) -> (r: bool)
    ensures
        r == (exists|i: int| 0 <= i < v@.len() && (#[trigger] v@[i]).name@ == name@),
{
    let mut i: usize = 0;
    while i < v.len()
        invariant
            i <= v@.len(),
            forall|j: int| 0 <= j < i ==> (#[trigger] v@[j]).name@ != name@,
        decreases v@.len() - i,
    {
        if v[i].name == *name {
            return true;
        }
        i += 1;
    }
    false
}

fn collect_workspace_deps(out: &mut Vec<Dep>, l: &Vec<(String, String)>, project_name: &String)
    ensures
        old(out)@.len() <= final(out)@.len(),
        forall|i: int| 0 <= i < old(out)@.len() ==> #[trigger] final(out)@[i] == old(out)@[i],
        forall|i: int|
            old(out)@.len() <= i < final(out)@.len() ==> !(#[trigger] final(out)@[i]).satisfied
                && final(out)@[i].name@ != project_name@ && lists_workspace_dep(
                l@,
                final(out)@[i].name@,
            ),
        forall|i: int, j: int|
            0 <= i < j < final(out)@.len() && j >= old(out)@.len() ==> (#[trigger] final(out)@[i]).name@
                != (#[trigger] final(out)@[j]).name@,
        forall|k: Seq<char>|
            #![trigger lists_workspace_dep(l@, k)]
            lists_workspace_dep(l@, k) && k != project_name@ ==> (exists|i: int|
                0 <= i < final(out)@.len() && (#[trigger] final(out)@[i]).name@ == k),
{
    let marker = String::from_str("workspace:*");
    let ghost n0: int = out@.len() as int;
    let mut idx: usize = 0;
    while idx < l.len()
        invariant
            idx <= l@.len(),
            marker@ == "workspace:*"@,
            n0 <= out@.len(),
            n0 == old(out)@.len(),
            forall|i: int| 0 <= i < n0 ==> #[trigger] out@[i] == old(out)@[i],
            forall|i: int|
                n0 <= i < out@.len() ==> !(#[trigger] out@[i]).satisfied && out@[i].name@
                    != project_name@ && lists_workspace_dep(l@, out@[i].name@),
            forall|i: int, j: int|
                0 <= i < j < out@.len() && j >= n0 ==> (#[trigger] out@[i]).name@ != (
                #[trigger] out@[j]).name@,
            forall|k: Seq<char>|
                #![trigger lists_workspace_dep(l@.subrange(0, idx as int), k)]
                lists_workspace_dep(l@.subrange(0, idx as int), k) && k != project_name@ ==> (
                exists|i: int| 0 <= i < out@.len() && (#[trigger] out@[i]).name@ == k),
        decreases l@.len() - idx,
    {
        let ghost before = out@;
        let pair = &l[idx];
        let is_ws = pair.1 == marker;
        let is_self = pair.0 == *project_name;
        let mut pushed = false;
        if is_ws && !is_self {
            if !contains_name(out, &pair.0) {
                out.push(Dep { name: pair.0.clone(), satisfied: false });
                pushed = true;
            }
        }
        proof {
            let prev = l@.subrange(0, idx as int);
            let cur = l@.subrange(0, idx + 1);
            assert forall|k: Seq<char>|
                lists_workspace_dep(cur, k) && k != project_name@ implies (exists|i: int|
                0 <= i < out@.len() && (#[trigger] out@[i]).name@ == k) by {
                let w = choose|w: int|
                    0 <= w < cur.len() && (#[trigger] cur[w]).0@ == k && cur[w].1@
                        == "workspace:*"@;
                if w < idx {
                    assert(prev[w] == cur[w]);
                    assert(lists_workspace_dep(prev, k));
                    let i0 = choose|i0: int|
                        0 <= i0 < before.len() && (#[trigger] before[i0]).name@ == k;
                    assert(out@[i0].name@ == k);
                } else {
                    assert(cur[w] == l@[idx as int]);
                    if pushed {
                        assert(out@[out@.len() - 1].name@ == k);
                    } else {
                        let i0 = choose|i0: int|
                            0 <= i0 < before.len() && (#[trigger] before[i0]).name@ == k;
                        assert(out@[i0].name@ == k);
                    }
                }
            }
        }
        idx += 1;
    }
    proof {
        assert(l@.subrange(0, l@.len() as int) =~= l@);
    }
}

/// Collects the intra-workspace dependencies declared by a package manifest:
/// every name paired with the workspace version requirement in either the
/// dependency or the development-dependency list, the project's own name
/// excluded, each name once, every flag initially unsatisfied.
pub fn get_dependencies(
    deps: &Vec<(String, String)>,
    dev_deps: &Vec<(String, String)>,
    project_name: &str,
) -> (r: Vec<Dep>)
    ensures
        forall|i: int| 0 <= i < r@.len() ==> !(#[trigger] r@[i]).satisfied,
        forall|i: int| 0 <= i < r@.len() ==> (#[trigger] r@[i]).name@ != project_name@,
        forall|i: int|
            0 <= i < r@.len() ==> lists_workspace_dep(deps@, (#[trigger] r@[i]).name@)
                || lists_workspace_dep(dev_deps@, r@[i].name@),
        forall|i: int, j: int|
            0 <= i < j < r@.len() ==> (#[trigger] r@[i]).name@ != (#[trigger] r@[j]).name@,
        forall|k: Seq<char>|
            #![trigger lists_workspace_dep(deps@, k)]
            #![trigger lists_workspace_dep(dev_deps@, k)]
            (lists_workspace_dep(deps@, k) || lists_workspace_dep(dev_deps@, k)) && k
                != project_name@ ==> (exists|i: int|
                0 <= i < r@.len() && (#[trigger] r@[i]).name@ == k),
{
    let pn = String::from_str(project_name);
    let mut out: Vec<Dep> = Vec::new();
    collect_workspace_deps(&mut out, deps, &pn);
    let ghost mid = out@;
    collect_workspace_deps(&mut out, dev_deps, &pn);
    proof {
        assert forall|k: Seq<char>| lists_workspace_dep(deps@, k) && k != project_name@ implies (
        exists|i: int| 0 <= i < out@.len() && (#[trigger] out@[i]).name@ == k) by {
            let i0 = choose|i0: int| 0 <= i0 < mid.len() && (#[trigger] mid[i0]).name@ == k;
            assert(out@[i0] == mid[i0]);
        }
    }
    out
}

} // verus!
