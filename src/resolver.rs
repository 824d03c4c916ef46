//! Package dependency resolution: installation order and cycle detection.
use vstd::prelude::*;

use crate::text::{lemma_views_push, same_text, views};

verus! {

/// The direct dependencies of `n` (none when `n` is not registered).
pub open spec fn deps_of(g: Map<Seq<char>, Seq<Seq<char>>>, n: Seq<char>) -> Seq<Seq<char>> {
    if g.contains_key(n) {
        g[n]
    } else {
        Seq::empty()
    }
}

/// `p` is a walk along dependency edges.
pub open spec fn is_path(g: Map<Seq<char>, Seq<Seq<char>>>, p: Seq<Seq<char>>) -> bool {
    &&& p.len() >= 1
    &&& forall|i: int, j: int|
        0 <= i && j == i + 1 && j < p.len() ==> #[trigger] deps_of(g, p[i]).contains(p[j])
}

/// `b` can be reached from `a` by following dependencies.
pub open spec fn reaches(g: Map<Seq<char>, Seq<Seq<char>>>, a: Seq<char>, b: Seq<char>) -> bool {
    exists|p: Seq<Seq<char>>| #[trigger] is_path(g, p) && p[0] == a && p.last() == b
}

/// `n` depends on itself, directly or through other packages.
pub open spec fn on_cycle(g: Map<Seq<char>, Seq<Seq<char>>>, n: Seq<char>) -> bool {
    exists|p: Seq<Seq<char>>| #[trigger] is_path(g, p) && p.len() >= 2 && p[0] == n && p.last() == n
}

/// `o` lists packages once each, every package after all of its dependencies.
pub open spec fn closed_order(g: Map<Seq<char>, Seq<Seq<char>>>, o: Seq<Seq<char>>) -> bool {
    &&& o.no_duplicates()
    &&& forall|i: int, d: Seq<char>|
        0 <= i < o.len() && #[trigger] deps_of(g, o[i]).contains(d) ==> exists|j: int|
            0 <= j < i && o[j] == d
}

/// `x` can be reached from one of the first `upto` roots.
pub open spec fn reached_from(
    g: Map<Seq<char>, Seq<Seq<char>>>,
    roots: Seq<String>,
    upto: int,
    x: Seq<char>,
) -> bool {
    exists|t: int| 0 <= t < upto && #[trigger] reaches(g, roots[t]@, x)
}

/// No installed package depends on `x`.
pub open spec fn is_orphan(
    g: Map<Seq<char>, Seq<Seq<char>>>,
    installed: Seq<Seq<char>>,
    x: Seq<char>,
) -> bool {
    forall|y: Seq<char>| #[trigger] installed.contains(y) ==> !deps_of(g, y).contains(x)
}

/// The depth-first visit of `pkg`: dependencies in their listed order are
/// appended to `res` before the package, `vis` is the chain under visit;
/// the result is the extended order, or the package met again on a cycle.
pub open spec fn dfs_visit(
    g: Map<Seq<char>, Seq<Seq<char>>>,
    pkg: Seq<char>,
    res: Seq<Seq<char>>,
    vis: Seq<Seq<char>>,
    fuel: nat,
) -> Result<Seq<Seq<char>>, Seq<char>>
    decreases fuel, 0nat,
{
    if res.contains(pkg) {
        Ok(res)
    } else if vis.contains(pkg) {
        Err(pkg)
    } else if !g.contains_key(pkg) {
        Ok(res.push(pkg))
    } else if fuel == 0 {
        Err(pkg)
    } else {
        then_push(dfs_deps(g, g[pkg], 0, res, vis.push(pkg), (fuel - 1) as nat), pkg)
    }
}

/// A successful order with `pkg` appended; a failure as it is.
pub open spec fn then_push(d: Result<Seq<Seq<char>>, Seq<char>>, pkg: Seq<char>) -> Result<
    Seq<Seq<char>>,
    Seq<char>,
> {
    match d {
        Ok(r2) => Ok(r2.push(pkg)),
        Err(e) => Err(e),
    }
}

/// The depth-first visits of `ds[k..]`, one after another.
pub open spec fn dfs_deps(
    g: Map<Seq<char>, Seq<Seq<char>>>,
    ds: Seq<Seq<char>>,
    k: int,
    res: Seq<Seq<char>>,
    vis: Seq<Seq<char>>,
    fuel: nat,
) -> Result<Seq<Seq<char>>, Seq<char>>
    decreases fuel, (if k < ds.len() { ds.len() - k + 1 } else { 0 }) as nat,
{
    if k < 0 || k >= ds.len() {
        Ok(res)
    } else {
        match dfs_visit(g, ds[k], res, vis, fuel) {
            Ok(r2) => dfs_deps(g, ds, k + 1, r2, vis, fuel),
            Err(e) => Err(e),
        }
    }
}

/// The depth-first visits of the roots from `k` on, sharing one order.
pub open spec fn dfs_roots(
    g: Map<Seq<char>, Seq<Seq<char>>>,
    roots: Seq<Seq<char>>,
    k: int,
    res: Seq<Seq<char>>,
) -> Result<Seq<Seq<char>>, Seq<char>>
    decreases roots.len() - k,
{
    if k < 0 || k >= roots.len() {
        Ok(res)
    } else {
        match dfs_visit(g, roots[k], res, Seq::empty(), g.dom().len()) {
            Ok(r2) => dfs_roots(g, roots, k + 1, r2),
            Err(e) => Err(e),
        }
    }
}

/// The result of a resolution as the depth-first visit describes it.
pub open spec fn outcome_is(r: Result<Vec<String>, ResolveError>, d: Result<Seq<Seq<char>>, Seq<char>>) -> bool {
    match r {
        Ok(order) => d == Ok::<Seq<Seq<char>>, Seq<char>>(views(order@)),
        Err(e) => d == Err::<Seq<Seq<char>>, Seq<char>>(e.package()),
    }
}

/// Resolving several packages at once, when there is one, gives what
/// resolving that package alone gives.
pub proof fn lemma_roots_single(g: Map<Seq<char>, Seq<Seq<char>>>, p: Seq<char>)
    ensures
        dfs_roots(g, seq![p], 0, Seq::empty()) == dfs_visit(g, p, Seq::empty(), Seq::empty(), g.dom().len()),
{
    match dfs_visit(g, p, Seq::empty(), Seq::empty(), g.dom().len()) {
        Ok(r2) => {
            assert(dfs_roots(g, seq![p], 1, r2) == Ok::<Seq<Seq<char>>, Seq<char>>(r2));
        },
        Err(e) => {},
    }
}

/// Why a resolution failed.
#[derive(Debug, Clone)]
pub enum ResolveError {
    /// The package depends on itself.
    CircularDependency { package: String },
}

impl ResolveError {
    pub open spec fn package(&self) -> Seq<char> {
        match self {
            ResolveError::CircularDependency { package } => package@,
        }
    }

    /// A message naming the package on the cycle.
    pub fn to_string(&self) -> (r: String)
        ensures
            r@ == "Circular dependency detected: "@ + self.package(),
    {
        match self {
            ResolveError::CircularDependency { package } => {
                let mut s = "Circular dependency detected: ".to_owned();
                s.append(package.as_str());
                s
            },
        }
    }
}

/// A walk that is extended by one edge is still a walk.
proof fn lemma_path_push(g: Map<Seq<char>, Seq<Seq<char>>>, p: Seq<Seq<char>>, x: Seq<char>)
    requires
        is_path(g, p),
        deps_of(g, p.last()).contains(x),
    ensures
        is_path(g, p.push(x)),
{
    let q = p.push(x);
    assert forall|i: int, j: int| 0 <= i && j == i + 1 && j < q.len() implies #[trigger] deps_of(g, q[i]).contains(q[j]) by {
        if j < p.len() {
            assert(deps_of(g, p[i]).contains(p[j]));
        }
    }
}

/// Reaching through a first edge.
proof fn lemma_reaches_prepend(g: Map<Seq<char>, Seq<Seq<char>>>, a: Seq<char>, b: Seq<char>, c: Seq<char>)
    requires
        deps_of(g, a).contains(b),
        reaches(g, b, c),
    ensures
        reaches(g, a, c),
{
    let p = choose|p: Seq<Seq<char>>| #[trigger] is_path(g, p) && p[0] == b && p.last() == c;
    let q = seq![a] + p;
    assert forall|i: int, j: int| 0 <= i && j == i + 1 && j < q.len() implies #[trigger] deps_of(g, q[i]).contains(q[j]) by {
        if i > 0 {
            assert(q[i] == p[i - 1] && q[j] == p[i]);
            assert(deps_of(g, p[i - 1]).contains(p[i]));
        }
    }
    assert(is_path(g, q) && q[0] == a && q.last() == c);
}

proof fn lemma_reaches_self(g: Map<Seq<char>, Seq<Seq<char>>>, a: Seq<char>)
    ensures
        reaches(g, a, a),
{
    assert(is_path(g, seq![a]));
}

/// In an order where every package follows its dependencies, each step
/// along a walk from the package at `i0` lands strictly before `i0`.
proof fn lemma_walk_descends(
    g: Map<Seq<char>, Seq<Seq<char>>>,
    o: Seq<Seq<char>>,
    p: Seq<Seq<char>>,
    i0: int,
    j: int,
)
    requires
        closed_order(g, o),
        is_path(g, p),
        0 <= i0 < o.len(),
        o[i0] == p[0],
        1 <= j < p.len(),
    ensures
        exists|t: int| 0 <= t < i0 && o[t] == p[j],
    decreases j,
{
    if j == 1 {
        assert(deps_of(g, p[0]).contains(p[1]));
    } else {
        lemma_walk_descends(g, o, p, i0, j - 1);
        let t = choose|t: int| 0 <= t < i0 && o[t] == p[j - 1];
        assert(deps_of(g, p[j - 1]).contains(p[j]));
        assert(deps_of(g, o[t]).contains(p[j]));
    }
}

/// A package listed in an order where every package follows its
/// dependencies does not depend on itself.
pub proof fn lemma_closed_order_acyclic(
    g: Map<Seq<char>, Seq<Seq<char>>>,
    o: Seq<Seq<char>>,
    n: Seq<char>,
)
    requires
        closed_order(g, o),
        o.contains(n),
    ensures
        !on_cycle(g, n),
{
    if on_cycle(g, n) {
        let p = choose|p: Seq<Seq<char>>| #[trigger] is_path(g, p) && p.len() >= 2 && p[0] == n && p.last() == n;
        let i0 = choose|i: int| 0 <= i < o.len() && o[i] == n;
        lemma_walk_descends(g, o, p, i0, p.len() - 1);
        let t = choose|t: int| 0 <= t < i0 && o[t] == p[p.len() - 1];
        assert(o[t] == o[i0]);
    }
}

/// Whether `s` is one of the strings of `v`.
fn contains_name(v: &Vec<String>, s: &str) -> (r: bool)
    ensures
        r == views(v@).contains(s@),
{
    let mut i: usize = 0;
    while i < v.len()
        invariant
            i <= v.len(),
            forall|k: int| 0 <= k < i ==> v@[k]@ != s@,
        decreases v.len() - i,
    {
        if same_text(v[i].as_str(), s) {
            assert(views(v@)[i as int] == s@);
            return true;
        }
        i = i + 1;
    }
    proof {
        if views(v@).contains(s@) {
            let k = choose|k: int| 0 <= k < views(v@).len() && views(v@)[k] == s@;
            assert(v@[k]@ == s@);
        }
    }
    false
}

/// Packages and their direct dependencies.
pub struct DependencyResolver {
    dependencies: Vec<(String, Vec<String>)>,
    graph: Ghost<Map<Seq<char>, Seq<Seq<char>>>>,
}

impl View for DependencyResolver {
    type V = Map<Seq<char>, Seq<Seq<char>>>;

    closed spec fn view(&self) -> Map<Seq<char>, Seq<Seq<char>>> {
        self.graph@
    }
}

impl DependencyResolver {
    pub closed spec fn wf(&self) -> bool {
        &&& self.graph@.dom().finite()
        &&& forall|i: int, j: int|
            0 <= i < j < self.dependencies.len() ==> #[trigger] self.dependencies[i].0@
                != #[trigger] self.dependencies[j].0@
        &&& forall|i: int|
            0 <= i < self.dependencies.len() ==> #[trigger] self.graph@.contains_key(
                self.dependencies[i].0@,
            ) && self.graph@[self.dependencies[i].0@] == views(self.dependencies[i].1@)
        &&& forall|n: Seq<char>| #[trigger]
            self.graph@.contains_key(n) ==> exists|i: int|
                0 <= i < self.dependencies.len() && #[trigger] self.dependencies[i].0@ == n
    }

    pub fn new() -> (r: Self)
        ensures
            r.wf(),
            r@ == Map::<Seq<char>, Seq<Seq<char>>>::empty(),
    {
        DependencyResolver { dependencies: Vec::new(), graph: Ghost(Map::empty()) }
    }

    fn find(&self, name: &str) -> (r: Option<usize>)
        requires
            self.wf(),
        ensures
            r matches Some(i) ==> i < self.dependencies.len() && self.dependencies[i as int].0@
                == name@ && self@.contains_key(name@) && self@[name@] == views(
                self.dependencies[i as int].1@,
            ),
            r is None ==> !self@.contains_key(name@),
    {
        let mut i: usize = 0;
        while i < self.dependencies.len()
            invariant
                self.wf(),
                i <= self.dependencies.len(),
                forall|k: int| 0 <= k < i ==> self.dependencies[k].0@ != name@,
            decreases self.dependencies.len() - i,
        {
            if same_text(self.dependencies[i].0.as_str(), name) {
                assert(self.graph@.contains_key(self.dependencies[i as int].0@));
                return Some(i);
            }
            i = i + 1;
        }
        proof {
            if self@.contains_key(name@) {
                let k = choose|k: int| 0 <= k < self.dependencies.len() && self.dependencies[k].0@ == name@;
                assert(false);
            }
        }
        None
    }

    /// Registers a package with its direct dependencies, replacing any earlier entry.
    pub fn add_package(&mut self, name: String, deps: Vec<String>)
        requires
            old(self).wf(),
        ensures
            final(self).wf(),
            final(self)@ == old(self)@.insert(name@, views(deps@)),
    {
        let ghost n = name@;
        let ghost d = views(deps@);
        let ghost before = self.dependencies@;
        match self.find(name.as_str()) {
            Some(i) => {
                self.dependencies.set(i, (name, deps));
                self.graph = Ghost(self.graph@.insert(n, d));
                assert forall|j: int| 0 <= j < self.dependencies.len() implies #[trigger] self.graph@.contains_key(
                    self.dependencies[j].0@) && self.graph@[self.dependencies[j].0@] == views(self.dependencies[j].1@) by {
                    if j != i {
                        assert(before[j].0@ != n);
                        assert(old(self).graph@.contains_key(before[j].0@));
                    }
                }
                assert forall|m: Seq<char>| #[trigger] self.graph@.contains_key(m) implies exists|k: int|
                    0 <= k < self.dependencies.len() && #[trigger] self.dependencies[k].0@ == m by {
                    if m != n {
                        let k = choose|k: int| 0 <= k < before.len() && #[trigger] before[k].0@ == m;
                        assert(self.dependencies[k].0@ == m);
                    } else {
                        assert(self.dependencies[i as int].0@ == m);
                    }
                }
            },
            None => {
                self.dependencies.push((name, deps));
                self.graph = Ghost(self.graph@.insert(n, d));
                assert forall|j: int| 0 <= j < self.dependencies.len() implies #[trigger] self.graph@.contains_key(
                    self.dependencies[j].0@) && self.graph@[self.dependencies[j].0@] == views(self.dependencies[j].1@) by {
                    if j < before.len() {
                        assert(old(self).graph@.contains_key(before[j].0@));
                        assert(before[j].0@ != n);
                    }
                }
                assert forall|a: int, b: int|
                    0 <= a < b < self.dependencies.len() implies #[trigger] self.dependencies[a].0@
                        != #[trigger] self.dependencies[b].0@ by {
                    if b == before.len() {
                        assert(old(self).graph@.contains_key(before[a].0@));
                    }
                }
                assert forall|m: Seq<char>| #[trigger] self.graph@.contains_key(m) implies exists|k: int|
                    0 <= k < self.dependencies.len() && #[trigger] self.dependencies[k].0@ == m by {
                    if m != n {
                        let k = choose|k: int| 0 <= k < before.len() && #[trigger] before[k].0@ == m;
                        assert(self.dependencies[k].0@ == m);
                    } else {
                        assert(self.dependencies[before.len() as int].0@ == m);
                    }
                }
            },
        }
    }

    /// Depth-first visit of `package`: its dependencies are appended to
    /// `result` before it. `visiting` is the chain of packages whose visit
    /// is under way; meeting one of them again is a cycle.
    fn visit(&self, package: &str, result: &mut Vec<String>, visiting: &mut Vec<String>) -> (r:
        Result<(), ResolveError>)
        requires
            self.wf(),
            closed_order(self@, views(old(result)@)),
            views(old(visiting)@).no_duplicates(),
            forall|t: int|
                0 <= t < old(visiting)@.len() ==> #[trigger] self@.contains_key(old(visiting)@[t]@),
            forall|t: int|
                0 <= t < old(visiting)@.len() ==> !views(old(result)@).contains(
                    #[trigger] old(visiting)@[t]@,
                ),
            old(visiting)@.len() > 0 ==> is_path(self@, views(old(visiting)@)) && deps_of(
                self@,
                old(visiting)@.last()@,
            ).contains(package@),
        ensures
            r is Ok ==> {
                &&& final(visiting)@ == old(visiting)@
                &&& final(result)@.len() >= old(result)@.len()
                &&& final(result)@.subrange(0, old(result)@.len() as int) == old(result)@
                &&& closed_order(self@, views(final(result)@))
                &&& views(final(result)@).contains(package@)
                &&& forall|j: int|
                    old(result)@.len() <= j < final(result)@.len() ==> reaches(
                        self@,
                        package@,
                        #[trigger] final(result)@[j]@,
                    )
                &&& forall|j: int|
                    old(result)@.len() <= j < final(result)@.len() ==> !views(
                        old(visiting)@,
                    ).contains(#[trigger] final(result)@[j]@)
            },
            r matches Err(e) ==> on_cycle(self@, e.package()) && reaches(
                self@,
                if old(visiting)@.len() > 0 {
                    old(visiting)@[0]@
                } else {
                    package@
                },
                e.package(),
            ),
            old(visiting)@.len() <= self@.dom().len() ==> match dfs_visit(
                self@,
                package@,
                views(old(result)@),
                views(old(visiting)@),
                (self@.dom().len() - old(visiting)@.len()) as nat,
            ) {
                Ok(d) => r is Ok && views(final(result)@) == d,
                Err(n) => r matches Err(e) && e.package() == n,
            },
        decreases self@.dom().len() - old(visiting)@.len(),
    {
        let ghost g = self@;
        let ghost res0 = result@;
        let ghost vis0 = visiting@;
        proof {
            lemma_distinct_within(views(vis0), g.dom());
        }
        let ghost fuel0 = (g.dom().len() - vis0.len()) as nat;
        if contains_name(result, package) {
            return Ok(());
        }
        if contains_name(visiting, package) {
            proof {
                let vs = views(vis0);
                let t = choose|t: int| 0 <= t < vs.len() && vs[t] == package@;
                lemma_subpath(g, vs, t);
                let p = vs.subrange(t, vs.len() as int);
                assert(p.last() == vs.last());
                lemma_path_push(g, p, package@);
                let q = p.push(package@);
                assert(is_path(g, q) && q.len() >= 2 && q[0] == package@ && q.last() == package@);
                lemma_path_push(g, vs, package@);
                assert(vs.push(package@)[0] == vis0[0]@);
                assert(is_path(g, vs.push(package@)) && vs.push(package@)[0] == vis0[0]@ && vs.push(package@).last() == package@);
            }
            return Err(ResolveError::CircularDependency { package: package.to_owned() });
        }
        let found = self.find(package);
        match found {
            None => {
                let ghost before = result@;
                let s = package.to_owned();
                result.push(s);
                proof {
                    lemma_views_push(before, s);
                    let o = views(result@);
                    assert forall|i: int, d: Seq<char>|
                        0 <= i < o.len() && #[trigger] deps_of(g, o[i]).contains(d) implies exists|j: int|
                            0 <= j < i && o[j] == d by {
                        if i < before.len() {
                            assert(o[i] == views(before)[i]);
                            let j = choose|j: int| 0 <= j < i && views(before)[j] == d;
                            assert(o[j] == d);
                        }
                    }
                    assert(o[o.len() - 1] == package@);
                    lemma_reaches_self(g, package@);
                    assert(result@.subrange(0, before.len() as int) =~= before);
                }
                Ok(())
            },
            Some(i) => {
                let s = package.to_owned();
                let ghost vis1 = vis0.push(s);
                proof {
                    if vis0.len() > 0 {
                        assert(vis1[0] == vis0[0]);
                    }
                    lemma_views_push(vis0, s);
                    if vis0.len() > 0 {
                        lemma_path_push(g, views(vis0), package@);
                    } else {
                        assert(is_path(g, views(vis1)));
                    }
                    assert(views(vis1).last() == package@);
                }
                visiting.push(s);
                proof {
                    assert forall|t: int| 0 <= t < views(vis1).len() implies #[trigger] g.dom().contains(views(vis1)[t]) by {
                        if t < vis0.len() {
                            assert(g.contains_key(vis0[t]@));
                        }
                    }
                    assert(views(vis1).no_duplicates()) by {
                        assert forall|a: int, b: int| 0 <= a < b < views(vis1).len() implies views(vis1)[a] != views(vis1)[b] by {
                            if b == vis0.len() {
                                assert(views(vis0)[a] == views(vis1)[a]);
                            } else {
                                assert(views(vis0)[a] == views(vis1)[a]);
                                assert(views(vis0)[b] == views(vis1)[b]);
                            }
                        }
                    }
                    lemma_distinct_within(views(vis1), g.dom());
                }
                let n = self.dependencies[i].1.len();
                let mut k: usize = 0;
                while k < n
                    invariant
                        self.wf(),
                        g == self@,
                        i < self.dependencies.len(),
                        self.dependencies[i as int].0@ == package@,
                        g[package@] == views(self.dependencies[i as int].1@),
                        n == self.dependencies[i as int].1.len(),
                        k <= n,
                        g.contains_key(package@),
                        !views(vis0).contains(package@),
                        !views(res0).contains(package@),
                        visiting@ == vis1,
                        vis0 == old(visiting)@,
                        res0 == old(result)@,
                        fuel0 == (g.dom().len() - vis0.len()) as nat,
                        dfs_visit(g, package@, views(res0), views(vis0), fuel0) == then_push(
                            dfs_deps(
                                g,
                                g[package@],
                                k as int,
                                views(result@),
                                views(vis1),
                                (g.dom().len() - vis1.len()) as nat,
                            ),
                            package@,
                        ),
                        vis1[0]@ == (if vis0.len() > 0 {
                            vis0[0]@
                        } else {
                            package@
                        }),
                        vis1.len() == vis0.len() + 1,
                        vis1.len() <= g.dom().len(),
                        views(vis1) == views(vis0).push(package@),
                        views(vis1).no_duplicates(),
                        is_path(g, views(vis1)),
                        forall|t: int| 0 <= t < vis1.len() ==> #[trigger] g.contains_key(vis1[t]@),
                        forall|t: int| 0 <= t < vis0.len() ==> !views(res0).contains(#[trigger] vis0[t]@),
                        result@.len() >= res0.len(),
                        result@.subrange(0, res0.len() as int) == res0,
                        closed_order(g, views(result@)),
                        forall|t: int|
                            0 <= t < k ==> views(result@).contains(
                                #[trigger] self.dependencies[i as int].1@[t]@,
                            ),
                        forall|j: int|
                            res0.len() <= j < result@.len() ==> reaches(g, package@, #[trigger] result@[j]@),
                        forall|j: int|
                            res0.len() <= j < result@.len() ==> !views(vis1).contains(#[trigger] result@[j]@),
                    decreases n - k,
                {
                    let ghost before = result@;
                    proof {
                        assert(g[package@][k as int] == self.dependencies[i as int].1@[k as int]@);
                        assert(g[package@].contains(self.dependencies[i as int].1@[k as int]@));
                        assert(views(vis1)[vis1.len() - 1] == vis1[vis1.len() - 1]@);
                        assert(visiting@.last()@ == package@);
                        assert forall|t: int| 0 <= t < views(vis1).len() implies #[trigger] g.dom().contains(views(vis1)[t]) by {
                            assert(g.contains_key(vis1[t]@));
                        }
                        lemma_distinct_within(views(vis1), g.dom());
                        assert forall|t: int| 0 <= t < visiting@.len() implies !views(result@).contains(
                            #[trigger] visiting@[t]@) by {
                            if views(result@).contains(visiting@[t]@) {
                                let j = choose|j: int| 0 <= j < result@.len() && views(result@)[j] == visiting@[t]@;
                                assert(views(vis1)[t] == visiting@[t]@);
                                if j < res0.len() {
                                    assert(result@[j] == res0[j]);
                                    if t < vis0.len() {
                                        assert(views(res0)[j] == vis0[t]@);
                                    } else {
                                        assert(views(res0)[j] == package@);
                                    }
                                } else {
                                    assert(views(vis1).contains(result@[j]@));
                                }
                            }
                        }
                    }
                    let ghost dep_k = self.dependencies[i as int].1@[k as int]@;
                    let ghost fuel1 = (g.dom().len() - vis1.len()) as nat;
                    let step = self.visit(self.dependencies[i].1[k].as_str(), result, visiting);
                    proof {
                        assert(g[package@][k as int] == dep_k);
                        assert(views(visiting@) == views(vis1) || step is Err);
                    }
                    if let Err(e) = step {
                        proof {
                            assert(dfs_visit(g, dep_k, views(before), views(vis1), fuel1) == Err::<Seq<Seq<char>>, Seq<char>>(e.package()));
                            assert(dfs_deps(g, g[package@], k as int, views(before), views(vis1), fuel1) == Err::<Seq<Seq<char>>, Seq<char>>(e.package()));
                            assert(dfs_visit(g, package@, views(res0), views(vis0), fuel0) == Err::<Seq<Seq<char>>, Seq<char>>(e.package()));
                        }
                        return Err(e);
                    }
                    proof {
                        let dep = self.dependencies[i as int].1@[k as int]@;
                        assert forall|t: int| 0 <= t < k + 1 implies views(result@).contains(
                            #[trigger] self.dependencies[i as int].1@[t]@) by {
                            if t < k {
                                let j = choose|j: int| 0 <= j < before.len() && views(before)[j] == self.dependencies[i as int].1@[t]@;
                                assert(result@[j] == before[j]);
                                assert(views(result@)[j] == self.dependencies[i as int].1@[t]@);
                            }
                        }
                        assert forall|j: int| res0.len() <= j < result@.len() implies reaches(g, package@, #[trigger] result@[j]@) by {
                            if j < before.len() {
                                assert(result@[j] == before[j]);
                            } else {
                                lemma_reaches_prepend(g, package@, dep, result@[j]@);
                            }
                        }
                        assert forall|j: int| res0.len() <= j < result@.len() implies !views(vis1).contains(#[trigger] result@[j]@) by {
                            if j < before.len() {
                                assert(result@[j] == before[j]);
                            }
                        }
                        assert(result@.subrange(0, res0.len() as int) =~= res0) by {
                            assert forall|j: int| 0 <= j < res0.len() implies result@[j] == res0[j] by {
                                assert(result@[j] == before[j]);
                                assert(before.subrange(0, res0.len() as int)[j] == res0[j]);
                            }
                        }
                    }
                    k = k + 1;
                }
                proof {
                    assert(g[package@].len() == n);
                    assert(dfs_deps(g, g[package@], k as int, views(result@), views(vis1), (g.dom().len() - vis1.len()) as nat)
                        == Ok::<Seq<Seq<char>>, Seq<char>>(views(result@)));
                }
                visiting.pop();
                let ghost before = result@;
                let s2 = package.to_owned();
                result.push(s2);
                proof {
                    assert(visiting@ =~= vis0);
                    lemma_views_push(before, s2);
                    let o = views(result@);
                    assert(!views(before).contains(package@)) by {
                        if views(before).contains(package@) {
                            let j = choose|j: int| 0 <= j < before.len() && views(before)[j] == package@;
                            if j < res0.len() {
                                assert(before[j] == res0[j]);
                                assert(views(res0)[j] == package@);
                            } else {
                                assert(views(vis1).contains(before[j]@)) by {
                                    assert(views(vis1)[vis0.len() as int] == package@);
                                }
                            }
                        }
                    }
                    assert forall|a: int, b: int| 0 <= a < b < o.len() implies o[a] != o[b] by {
                        if b == o.len() - 1 {
                            assert(o[a] == views(before)[a]);
                        } else {
                            assert(o[a] == views(before)[a] && o[b] == views(before)[b]);
                        }
                    }
                    assert forall|x: int, d: Seq<char>|
                        0 <= x < o.len() && #[trigger] deps_of(g, o[x]).contains(d) implies exists|j: int|
                            0 <= j < x && o[j] == d by {
                        if x < before.len() {
                            assert(o[x] == views(before)[x]);
                            let j = choose|j: int| 0 <= j < x && views(before)[j] == d;
                            assert(o[j] == d);
                        } else {
                            assert(o[x] == package@);
                            let t = choose|t: int| 0 <= t < g[package@].len() && g[package@][t] == d;
                            assert(views(before).contains(self.dependencies[i as int].1@[t]@));
                            let j = choose|j: int| 0 <= j < before.len() && views(before)[j] == d;
                            assert(o[j] == d);
                        }
                    }
                    assert(o[o.len() - 1] == package@);
                    lemma_reaches_self(g, package@);
                    assert(dfs_visit(g, package@, views(res0), views(vis0), fuel0) == Ok::<Seq<Seq<char>>, Seq<char>>(views(result@)));
                    assert(result@.subrange(0, res0.len() as int) =~= res0) by {
                        assert forall|j: int| 0 <= j < res0.len() implies result@[j] == res0[j] by {
                            assert(result@[j] == before[j]);
                            assert(before.subrange(0, res0.len() as int)[j] == res0[j]);
                        }
                    }
                    assert forall|j: int| res0.len() <= j < result@.len() implies !views(vis0).contains(#[trigger] result@[j]@) by {
                        if j < before.len() {
                            assert(result@[j] == before[j]);
                            if views(vis0).contains(before[j]@) {
                                let t = choose|t: int| 0 <= t < vis0.len() && views(vis0)[t] == before[j]@;
                                assert(views(vis1)[t] == before[j]@);
                            }
                        }
                    }
                }
                Ok(())
            },
        }
    }

    /// The installation order for `package`: its dependencies, transitively,
    /// each before the packages that need it, and the package last.
    pub fn resolve(&self, package: &str) -> (r: Result<Vec<String>, ResolveError>)
        requires
            self.wf(),
        ensures
            r matches Ok(order) ==> {
                &&& closed_order(self@, views(order@))
                &&& views(order@).contains(package@)
                &&& forall|j: int|
                    0 <= j < order.len() ==> reaches(self@, package@, #[trigger] order@[j]@)
                &&& !on_cycle(self@, package@)
            },
            r matches Err(e) ==> on_cycle(self@, e.package()) && reaches(self@, package@, e.package()),
            outcome_is(r, dfs_visit(self@, package@, Seq::empty(), Seq::empty(), self@.dom().len())),
    {
        let mut result: Vec<String> = Vec::new();
        let mut visiting: Vec<String> = Vec::new();
        assert(views(result@) =~= Seq::<Seq<char>>::empty());
        assert(views(visiting@) =~= Seq::<Seq<char>>::empty());
        match self.visit(package, &mut result, &mut visiting) {
            Ok(()) => {
                proof {
                    lemma_closed_order_acyclic(self@, views(result@), package@);
                }
                Ok(result)
            },
            Err(e) => Err(e),
        }
    }

    /// The installation order for several packages at once, each package
    /// listed once, after all of its dependencies.
    pub fn resolve_many(&self, packages: &[String]) -> (r: Result<Vec<String>, ResolveError>)
        requires
            self.wf(),
        ensures
            r matches Ok(order) ==> {
                &&& closed_order(self@, views(order@))
                &&& forall|k: int|
                    0 <= k < packages@.len() ==> views(order@).contains(#[trigger] packages@[k]@)
                &&& forall|j: int|
                    0 <= j < order.len() ==> reached_from(
                        self@,
                        packages@,
                        packages@.len() as int,
                        #[trigger] order@[j]@,
                    )
            },
            r matches Err(e) ==> on_cycle(self@, e.package()) && reached_from(
                self@,
                packages@,
                packages@.len() as int,
                e.package(),
            ),
            outcome_is(r, dfs_roots(self@, views(packages@), 0, Seq::empty())),
    {
        let mut result: Vec<String> = Vec::new();
        let mut visiting: Vec<String> = Vec::new();
        assert(views(result@) =~= Seq::<Seq<char>>::empty());
        let mut k: usize = 0;
        while k < packages.len()
            invariant
                self.wf(),
                k <= packages@.len(),
                visiting@.len() == 0,
                closed_order(self@, views(result@)),
                forall|t: int| 0 <= t < k ==> views(result@).contains(#[trigger] packages@[t]@),
                forall|j: int|
                    0 <= j < result@.len() ==> reached_from(self@, packages@, k as int, #[trigger] result@[j]@),
                dfs_roots(self@, views(packages@), 0, Seq::empty()) == dfs_roots(
                    self@,
                    views(packages@),
                    k as int,
                    views(result@),
                ),
            decreases packages@.len() - k,
        {
            let ghost before = result@;
            assert(views(visiting@) =~= Seq::<Seq<char>>::empty());
            let step = self.visit(packages[k].as_str(), &mut result, &mut visiting);
            assert(views(packages@)[k as int] == packages@[k as int]@);
            if let Err(e) = step {
                assert(reaches(self@, packages@[k as int]@, e.package()));
                return Err(e);
            }
            proof {
                assert forall|t: int| 0 <= t < k + 1 implies views(result@).contains(#[trigger] packages@[t]@) by {
                    if t < k {
                        let j = choose|j: int| 0 <= j < before.len() && views(before)[j] == packages@[t]@;
                        assert(result@[j] == before[j]);
                        assert(views(result@)[j] == packages@[t]@);
                    }
                }
                assert forall|j: int| 0 <= j < result@.len() implies reached_from(self@, packages@, k + 1, #[trigger] result@[j]@) by {
                    if j < before.len() {
                        assert(result@[j] == before[j]);
                        assert(reached_from(self@, packages@, k as int, before[j]@));
                        let t = choose|t: int| 0 <= t < k && #[trigger] reaches(self@, packages@[t]@, before[j]@);
                        assert(reaches(self@, packages@[t]@, result@[j]@));
                    } else {
                        assert(reaches(self@, packages@[k as int]@, result@[j]@));
                    }
                }
            }
            k = k + 1;
        }
        Ok(result)
    }

    /// Succeeds exactly when no package depends on itself.
    pub fn check_cycles(&self) -> (r: Result<(), ResolveError>)
        requires
            self.wf(),
        ensures
            r is Ok <==> forall|n: Seq<char>| !#[trigger] on_cycle(self@, n),
            r matches Err(e) ==> on_cycle(self@, e.package()),
    {
        let mut i: usize = 0;
        while i < self.dependencies.len()
            invariant
                self.wf(),
                i <= self.dependencies.len(),
                forall|t: int| 0 <= t < i ==> !on_cycle(self@, #[trigger] self.dependencies[t].0@),
            decreases self.dependencies.len() - i,
        {
            let mut result: Vec<String> = Vec::new();
            let mut visiting: Vec<String> = Vec::new();
            assert(views(result@) =~= Seq::<Seq<char>>::empty());
            assert(views(visiting@) =~= Seq::<Seq<char>>::empty());
            let step = self.visit(self.dependencies[i].0.as_str(), &mut result, &mut visiting);
            if let Err(e) = step {
                return Err(e);
            }
            proof {
                lemma_closed_order_acyclic(self@, views(result@), self.dependencies[i as int].0@);
            }
            i = i + 1;
        }
        proof {
            assert forall|n: Seq<char>| !#[trigger] on_cycle(self@, n) by {
                if on_cycle(self@, n) {
                    let p = choose|p: Seq<Seq<char>>| #[trigger] is_path(self@, p) && p.len() >= 2 && p[0] == n && p.last() == n;
                    assert(deps_of(self@, p[0]).contains(p[1]));
                    assert(self@.contains_key(n));
                    let t = choose|t: int| 0 <= t < self.dependencies.len() && #[trigger] self.dependencies[t].0@ == n;
                }
            }
        }
        Ok(())
    }

    /// The direct dependencies of `package`, if it is registered.
    pub fn get_dependencies(&self, package: &str) -> (r: Option<&Vec<String>>)
        requires
            self.wf(),
        ensures
            r matches Some(d) ==> self@.contains_key(package@) && views(d@) == self@[package@],
            r is None ==> !self@.contains_key(package@),
    {
        match self.find(package) {
            Some(i) => Some(&self.dependencies[i].1),
            None => None,
        }
    }

    /// The registered packages that depend directly on `package`, each once.
    pub fn get_reverse_dependencies(&self, package: &str) -> (r: Vec<String>)
        requires
            self.wf(),
        ensures
            forall|k: int|
                0 <= k < r.len() ==> self@.contains_key(#[trigger] r@[k]@) && self@[r@[k]@].contains(
                    package@,
                ),
            forall|n: Seq<char>|
                #[trigger] self@.contains_key(n) && self@[n].contains(package@) ==> views(r@).contains(n),
            views(r@).no_duplicates(),
    {
        let mut out: Vec<String> = Vec::new();
        let mut i: usize = 0;
        while i < self.dependencies.len()
            invariant
                self.wf(),
                i <= self.dependencies.len(),
                forall|k: int|
                    #![trigger out@[k]]
                    0 <= k < out.len() ==> exists|t: int|
                        0 <= t < i && #[trigger] self.dependencies[t].0@ == out@[k]@ && self@[out@[k]@].contains(package@),
                forall|t: int|
                    0 <= t < i && #[trigger] self@[self.dependencies[t].0@].contains(package@) ==> views(
                        out@,
                    ).contains(self.dependencies[t].0@),
                views(out@).no_duplicates(),
            decreases self.dependencies.len() - i,
        {
            assert(self@.contains_key(self.dependencies[i as int].0@));
            if contains_name(&self.dependencies[i].1, package) {
                let ghost before = out@;
                let s = self.dependencies[i].0.clone();
                out.push(s);
                proof {
                    lemma_views_push(before, s);
                    assert forall|t: int|
                        0 <= t < i + 1 && #[trigger] self@[self.dependencies[t].0@].contains(package@) implies views(
                            out@,
                        ).contains(self.dependencies[t].0@) by {
                        if t < i {
                            let j = choose|j: int| 0 <= j < before.len() && views(before)[j] == self.dependencies[t].0@;
                            assert(views(out@)[j] == self.dependencies[t].0@);
                        } else {
                            assert(views(out@)[out.len() - 1] == self.dependencies[t].0@);
                        }
                    }
                    assert(views(out@).no_duplicates()) by {
                        assert forall|a: int, b: int| 0 <= a < b < views(out@).len() implies views(out@)[a] != views(out@)[b] by {
                            if b == before.len() {
                                assert(out@[a] == before[a]);
                                let ta = choose|ta: int| 0 <= ta < i && #[trigger] self.dependencies[ta].0@ == before[a]@ && self@[before[a]@].contains(package@);
                                assert(self.dependencies[i as int].0@ == out@[b]@);
                            } else {
                                assert(out@[a] == before[a] && out@[b] == before[b]);
                                assert(views(before)[a] != views(before)[b]);
                            }
                        }
                    }
                    assert forall|k: int| #![trigger out@[k]] 0 <= k < out.len() implies exists|t: int|
                        0 <= t < i + 1 && #[trigger] self.dependencies[t].0@ == out@[k]@ && self@[out@[k]@].contains(package@) by {
                        if k < before.len() {
                            assert(out@[k] == before[k]);
                        } else {
                            assert(self.dependencies[i as int].0@ == out@[k]@);
                        }
                    }
                }
            }
            i = i + 1;
        }
        proof {
            assert forall|k: int| 0 <= k < out.len() implies self@.contains_key(#[trigger] out@[k]@) && self@[out@[k]@].contains(package@) by {
                let t = choose|t: int| 0 <= t < self.dependencies.len() && #[trigger] self.dependencies[t].0@ == out@[k]@ && self@[out@[k]@].contains(package@);
                assert(self@.contains_key(self.dependencies[t].0@));
            }
            assert forall|n: Seq<char>|
                #[trigger] self@.contains_key(n) && self@[n].contains(package@) implies views(out@).contains(n) by {
                let t = choose|t: int| 0 <= t < self.dependencies.len() && #[trigger] self.dependencies[t].0@ == n;
                assert(self@[self.dependencies[t].0@].contains(package@));
            }
        }
        out
    }

    /// The installed packages that no installed package depends on, each
    /// once, in the order given.
    pub fn find_orphans(&self, installed: &Vec<String>) -> (r: Vec<String>)
        requires
            self.wf(),
        ensures
            forall|k: int|
                0 <= k < r.len() ==> views(installed@).contains(#[trigger] r@[k]@) && is_orphan(
                    self@,
                    views(installed@),
                    r@[k]@,
                ),
            forall|j: int|
                0 <= j < installed.len() && is_orphan(self@, views(installed@), #[trigger] installed@[j]@)
                    ==> views(r@).contains(installed@[j]@),
            views(r@).no_duplicates(),
    {
        let mut out: Vec<String> = Vec::new();
        let mut j: usize = 0;
        while j < installed.len()
            invariant
                self.wf(),
                j <= installed.len(),
                forall|k: int|
                    0 <= k < out.len() ==> views(installed@).contains(#[trigger] out@[k]@) && is_orphan(
                        self@,
                        views(installed@),
                        out@[k]@,
                    ),
                forall|t: int|
                    0 <= t < j && is_orphan(self@, views(installed@), #[trigger] installed@[t]@) ==> views(
                        out@,
                    ).contains(installed@[t]@),
                views(out@).no_duplicates(),
            decreases installed.len() - j,
        {
            let pkg = installed[j].as_str();
            let reverse = self.get_reverse_dependencies(pkg);
            let mut needed = false;
            let mut t: usize = 0;
            while t < reverse.len()
                invariant
                    t <= reverse.len(),
                    needed <==> exists|u: int| 0 <= u < t && views(installed@).contains(#[trigger] reverse@[u]@),
                decreases reverse.len() - t,
            {
                if contains_name(installed, reverse[t].as_str()) {
                    needed = true;
                }
                t = t + 1;
            }
            proof {
                let x = installed@[j as int]@;
                assert(is_orphan(self@, views(installed@), x) <==> !needed) by {
                    if needed {
                        let u = choose|u: int| 0 <= u < reverse.len() && views(installed@).contains(#[trigger] reverse@[u]@);
                        assert(self@.contains_key(reverse@[u]@) && self@[reverse@[u]@].contains(x));
                        assert(deps_of(self@, reverse@[u]@).contains(x));
                    } else {
                        assert forall|y: Seq<char>| #[trigger] views(installed@).contains(y) implies !deps_of(self@, y).contains(x) by {
                            if deps_of(self@, y).contains(x) {
                                assert(self@.contains_key(y) && self@[y].contains(x));
                                let u = choose|u: int| 0 <= u < views(reverse@).len() && views(reverse@)[u] == y;
                                assert(views(installed@).contains(reverse@[u]@));
                            }
                        }
                    }
                }
            }
            if !needed && !contains_name(&out, pkg) {
                let ghost before = out@;
                let s = installed[j].clone();
                out.push(s);
                proof {
                    lemma_views_push(before, s);
                    assert(views(installed@)[j as int] == s@);
                    assert forall|a: int, b: int| 0 <= a < b < views(out@).len() implies views(out@)[a] != views(out@)[b] by {
                        if b < before.len() {
                            assert(views(before)[a] != views(before)[b]);
                        } else {
                            assert(views(before)[a] == views(out@)[a]);
                        }
                    }
                    assert forall|t2: int|
                        0 <= t2 < j + 1 && is_orphan(self@, views(installed@), #[trigger] installed@[t2]@) implies views(
                            out@,
                        ).contains(installed@[t2]@) by {
                        if t2 < j {
                            let k = choose|k: int| 0 <= k < before.len() && views(before)[k] == installed@[t2]@;
                            assert(views(out@)[k] == installed@[t2]@);
                        } else {
                            assert(views(out@)[out.len() - 1] == installed@[t2]@);
                        }
                    }
                }
            }
            j = j + 1;
        }
        out
    }
}

/// A walk from its `t`-th step on is still a walk.
proof fn lemma_subpath(g: Map<Seq<char>, Seq<Seq<char>>>, p: Seq<Seq<char>>, t: int)
    requires
        is_path(g, p),
        0 <= t < p.len(),
    ensures
        is_path(g, p.subrange(t, p.len() as int)),
{
    let q = p.subrange(t, p.len() as int);
    assert forall|i: int, j: int| 0 <= i && j == i + 1 && j < q.len() implies #[trigger] deps_of(g, q[i]).contains(q[j]) by {
        assert(q[i] == p[i + t] && q[j] == p[j + t]);
        assert(deps_of(g, p[i + t]).contains(p[j + t]));
    }
}

/// A sequence without repeats drawn from a finite set is no longer than the set.
proof fn lemma_distinct_within(s: Seq<Seq<char>>, d: Set<Seq<char>>)
    requires
        d.finite(),
        s.no_duplicates(),
        forall|k: int| 0 <= k < s.len() ==> #[trigger] d.contains(s[k]),
    ensures
        s.len() <= d.len(),
{
    s.unique_seq_to_set();
    assert(s.to_set().subset_of(d));
    vstd::set_lib::lemma_len_subset(s.to_set(), d);
}

} // verus!
