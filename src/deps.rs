//! Cross-project dependencies: a project depends on every project that
//! provides a symbol listed in its `depends_on`.
use crate::manifest::ProjectRecord;
use crate::text::string_views;
use vstd::prelude::*;

verus! {

/// A project as the graph sees it: its name, what it provides, and what it
/// depends on.
pub struct DepNode {
    pub name: String,
    pub provides: Vec<String>,
    pub depends_on: Vec<String>,
}

pub struct NodeModel {
    pub name: Seq<char>,
    pub provides: Seq<Seq<char>>,
    pub depends_on: Seq<Seq<char>>,
}

impl View for DepNode {
    type V = NodeModel;

    open spec fn view(&self) -> NodeModel {
        NodeModel {
            name: self.name@,
            provides: string_views(self.provides@),
            depends_on: string_views(self.depends_on@),
        }
    }
}

pub struct DependencyGraph {
    pub nodes: Vec<DepNode>,
}

pub open spec fn node_views(v: Seq<DepNode>) -> Seq<NodeModel> {
    v.map_values(|n: DepNode| n@)
}

/// Project `i` depends on project `j`: some symbol that `i` depends on is
/// provided by `j`.
pub open spec fn dep_edge(g: Seq<NodeModel>, i: int, j: int) -> bool {
    0 <= i < g.len() && 0 <= j < g.len() && exists|s: Seq<char>|
        g[i].depends_on.contains(s) && #[trigger] g[j].provides.contains(s)
}

/// `b` is the name of a project that a project named `a` depends on.
pub open spec fn depends(g: Seq<NodeModel>, a: Seq<char>, b: Seq<char>) -> bool {
    exists|i: int, j: int| #[trigger] dep_edge(g, i, j) && g[i].name == a && g[j].name == b
}

/// `y` names a project that provides `sym`.
pub open spec fn provider_of(g: Seq<NodeModel>, sym: Seq<char>, y: Seq<char>) -> bool {
    exists|j: int| 0 <= j < g.len() && g[j].provides.contains(sym) && #[trigger] g[j].name == y
}

pub open spec fn is_name(g: Seq<NodeModel>, y: Seq<char>) -> bool {
    exists|j: int| 0 <= j < g.len() && #[trigger] g[j].name == y
}

/// The names reachable from `x` in at most `n + 1` dependency steps.
pub open spec fn reach_within(g: Seq<NodeModel>, x: Seq<char>, n: nat) -> Set<Seq<char>>
    decreases n,
{
    if n == 0 {
        Set::new(|y: Seq<char>| depends(g, x, y))
    } else {
        let prev = reach_within(g, x, (n - 1) as nat);
        Set::new(
            |y: Seq<char>| prev.contains(y) || exists|z: Seq<char>| #[trigger] prev.contains(z) && depends(g, z, y),
        )
    }
}

pub open spec fn reachable(g: Seq<NodeModel>, x: Seq<char>, y: Seq<char>) -> bool {
    exists|n: nat| #[trigger] reach_within(g, x, n).contains(y)
}

fn contains_str(v: &Vec<String>, s: &String) -> (r: bool)
    ensures
        r == string_views(v@).contains(s@),
{
    let mut i: usize = 0;
    while i < v.len()
        invariant
            i <= v.len(),
            forall|j: int| 0 <= j < i ==> v@[j]@ != s@,
        decreases v.len() - i,
    {
        if v[i] == *s {
            assert(string_views(v@)[i as int] == s@);
            return true;
        }
        i = i + 1;
    }
    assert forall|j: int| 0 <= j < string_views(v@).len() implies string_views(v@)[j] != s@ by {
        assert(v@[j]@ != s@);
    }
    false
}

proof fn lemma_push_views(v: Seq<String>, s: String)
    ensures
        string_views(v.push(s)) == string_views(v).push(s@),
{
    assert(string_views(v.push(s)) =~= string_views(v).push(s@));
}

impl DependencyGraph {
    pub open spec fn model(&self) -> Seq<NodeModel> {
        node_views(self.nodes@)
    }

    /// The graph of a manifest's projects.
    pub fn build(projects: &Vec<ProjectRecord>) -> (r: Self)
        ensures
            r.nodes.len() == projects.len(),
            forall|i: int|
                0 <= i < projects.len() ==> #[trigger] r.model()[i] == (NodeModel {
                    name: projects@[i].name@,
                    provides: string_views(projects@[i].provides@),
                    depends_on: string_views(projects@[i].depends_on@),
                }),
    {
        let mut nodes: Vec<DepNode> = Vec::new();
        let mut i: usize = 0;
        while i < projects.len()
            invariant
                i <= projects.len(),
                nodes.len() == i,
                forall|k: int|
                    0 <= k < i ==> #[trigger] node_views(nodes@)[k] == (NodeModel {
                        name: projects@[k].name@,
                        provides: string_views(projects@[k].provides@),
                        depends_on: string_views(projects@[k].depends_on@),
                    }),
            decreases projects.len() - i,
        {
            let p = &projects[i];
            let ghost before = nodes@;
            nodes.push(
                DepNode {
                    name: p.name.clone(),
                    provides: clone_strings(&p.provides),
                    depends_on: clone_strings(&p.depends_on),
                },
            );
            proof {
                assert forall|k: int| 0 <= k < i implies #[trigger] node_views(nodes@)[k] == node_views(
                    before,
                )[k] by {
                    assert(nodes@[k] == before[k]);
                }
            }
            i = i + 1;
        }
        DependencyGraph { nodes }
    }

    /// Adds the name of every project that provides `sym` and is not yet in `found`.
    fn add_providers(&self, sym: &String, found: &mut Vec<String>)
        requires
            string_views(old(found)@).no_duplicates(),
        ensures
            string_views(final(found)@).no_duplicates(),
            string_views(old(found)@).is_prefix_of(string_views(final(found)@)),
            forall|j: int|
                0 <= j < self.nodes.len() && #[trigger] self.model()[j].provides.contains(sym@)
                    ==> string_views(final(found)@).contains(self.model()[j].name),
            forall|k: int|
                string_views(old(found)@).len() <= k < string_views(final(found)@).len()
                    ==> provider_of(self.model(), sym@, #[trigger] string_views(final(found)@)[k]),
    {
        let ghost f0 = string_views(found@);
        let mut j: usize = 0;
        while j < self.nodes.len()
            invariant
                j <= self.nodes.len(),
                string_views(found@).no_duplicates(),
                f0.is_prefix_of(string_views(found@)),
                forall|jj: int|
                    0 <= jj < j && #[trigger] self.model()[jj].provides.contains(sym@)
                        ==> string_views(found@).contains(self.model()[jj].name),
                forall|k: int|
                    f0.len() <= k < string_views(found@).len() ==> provider_of(
                        self.model(),
                        sym@,
                        #[trigger] string_views(found@)[k],
                    ),
                f0 == string_views(old(found)@),
            decreases self.nodes.len() - j,
        {
            let node = &self.nodes[j];
            proof {
                assert(self.model()[j as int] == node@);
            }
            if contains_str(&node.provides, sym) && !contains_str(found, &node.name) {
                let ghost before = string_views(found@);
                proof {
                    lemma_push_views(found@, node.name);
                }
                found.push(node.name.clone());
                proof {
                    let after = string_views(found@);
                    assert(after == before.push(node.name@));
                    assert(after[before.len() as int] == self.model()[j as int].name);
                    assert forall|a: int, b: int| 0 <= a < b < after.len() implies after[a]
                        != after[b] by {
                        if b == before.len() {
                            assert(before.contains(before[a]));
                        } else {
                            assert(after[a] == before[a] && after[b] == before[b]);
                        }
                    }
                    assert forall|jj: int|
                        0 <= jj <= j && #[trigger] self.model()[jj].provides.contains(
                            sym@,
                        ) implies after.contains(self.model()[jj].name) by {
                        if jj < j {
                            let w = choose|w: int| 0 <= w < before.len() && before[w] == self.model()[jj].name;
                            assert(after[w] == before[w]);
                        } else {
                            assert(after[before.len() as int] == self.model()[jj].name);
                        }
                    }
                    assert forall|k: int| f0.len() <= k < after.len() implies provider_of(
                        self.model(),
                        sym@,
                        #[trigger] after[k],
                    ) by {
                        if k < before.len() {
                            assert(after[k] == before[k]);
                        } else {
                            assert(self.model()[j as int].provides.contains(sym@));
                            assert(after[k] == self.model()[j as int].name);
                        }
                    }
                    assert(f0.is_prefix_of(after)) by {
                        assert forall|k: int| 0 <= k < f0.len() implies f0[k] == after[k] by {
                            assert(f0[k] == before[k]);
                        }
                    }
                }
            } else {
                proof {
                    assert forall|jj: int|
                        0 <= jj <= j && #[trigger] self.model()[jj].provides.contains(
                            sym@,
                        ) implies string_views(found@).contains(self.model()[jj].name) by {
                        if jj == j {
                            assert(self.model()[jj].name == node.name@);
                        }
                    }
                }
            }
            j = j + 1;
        }
    }

    /// Adds every name that a project named `z` depends on and that is not yet in `found`.
    fn add_successors(&self, z: &String, found: &mut Vec<String>)
        requires
            string_views(old(found)@).no_duplicates(),
        ensures
            string_views(final(found)@).no_duplicates(),
            string_views(old(found)@).is_prefix_of(string_views(final(found)@)),
            forall|y: Seq<char>|
                #[trigger] depends(self.model(), z@, y) ==> string_views(final(found)@).contains(y),
            forall|k: int|
                string_views(old(found)@).len() <= k < string_views(final(found)@).len()
                    ==> depends(self.model(), z@, #[trigger] string_views(final(found)@)[k]),
    {
        let ghost g = self.model();
        let ghost f0 = string_views(found@);
        let mut i: usize = 0;
        while i < self.nodes.len()
            invariant
                i <= self.nodes.len(),
                g == self.model(),
                string_views(found@).no_duplicates(),
                f0.is_prefix_of(string_views(found@)),
                forall|ii: int, jj: int|
                    0 <= ii < i && #[trigger] dep_edge(g, ii, jj) && g[ii].name == z@
                        ==> string_views(found@).contains(g[jj].name),
                forall|k: int|
                    f0.len() <= k < string_views(found@).len() ==> depends(
                        g,
                        z@,
                        #[trigger] string_views(found@)[k],
                    ),
                f0 == string_views(old(found)@),
            decreases self.nodes.len() - i,
        {
            let node = &self.nodes[i];
            proof {
                assert(g[i as int] == node@);
            }
            if node.name == *z {
                let mut s: usize = 0;
                while s < node.depends_on.len()
                    invariant
                        i < self.nodes.len(),
                        s <= node.depends_on.len(),
                        g == self.model(),
                        g[i as int] == node@,
                        node.name@ == z@,
                        string_views(found@).no_duplicates(),
                        f0.is_prefix_of(string_views(found@)),
                        forall|ii: int, jj: int|
                            0 <= ii < i && #[trigger] dep_edge(g, ii, jj) && g[ii].name == z@
                                ==> string_views(found@).contains(g[jj].name),
                        forall|ss: int, jj: int|
                            0 <= ss < s && 0 <= jj < g.len() && #[trigger] g[jj].provides.contains(
                                g[i as int].depends_on[ss],
                            ) ==> string_views(found@).contains(g[jj].name),
                        forall|k: int|
                            f0.len() <= k < string_views(found@).len() ==> depends(
                                g,
                                z@,
                                #[trigger] string_views(found@)[k],
                            ),
                    decreases node.depends_on.len() - s,
                {
                    let ghost before = string_views(found@);
                    let sym = &node.depends_on[s];
                    proof {
                        assert(g[i as int].depends_on[s as int] == sym@);
                    }
                    self.add_providers(sym, found);
                    proof {
                        let after = string_views(found@);
                        assert forall|ii: int, jj: int|
                            0 <= ii < i && #[trigger] dep_edge(g, ii, jj) && g[ii].name
                                == z@ implies after.contains(g[jj].name) by {
                            let w = choose|w: int| 0 <= w < before.len() && before[w] == g[jj].name;
                            assert(after[w] == before[w]);
                        }
                        assert forall|ss: int, jj: int|
                            0 <= ss <= s && 0 <= jj < g.len() && #[trigger] g[jj].provides.contains(
                                g[i as int].depends_on[ss],
                            ) implies after.contains(g[jj].name) by {
                            if ss < s {
                                let w = choose|w: int| 0 <= w < before.len() && before[w] == g[jj].name;
                                assert(after[w] == before[w]);
                            }
                        }
                        assert forall|k: int| f0.len() <= k < after.len() implies depends(
                            g,
                            z@,
                            #[trigger] after[k],
                        ) by {
                            if k < before.len() {
                                assert(after[k] == before[k]);
                            } else {
                                assert(provider_of(g, sym@, after[k]));
                                let jj = choose|jj: int|
                                    0 <= jj < g.len() && g[jj].provides.contains(sym@)
                                        && #[trigger] g[jj].name == after[k];
                                assert(g[i as int].depends_on.contains(sym@));
                                assert(dep_edge(g, i as int, jj));
                            }
                        }
                        assert(f0.is_prefix_of(after)) by {
                            assert forall|k: int| 0 <= k < f0.len() implies f0[k] == after[k] by {
                                assert(f0[k] == before[k]);
                            }
                        }
                    }
                    s = s + 1;
                }
                proof {
                    assert forall|ii: int, jj: int|
                        0 <= ii <= i && #[trigger] dep_edge(g, ii, jj) && g[ii].name
                            == z@ implies string_views(found@).contains(g[jj].name) by {
                        if ii == i {
                            let sy = choose|sy: Seq<char>|
                                g[ii].depends_on.contains(sy) && #[trigger] g[jj].provides.contains(sy);
                            let ss = choose|ss: int| 0 <= ss < g[ii].depends_on.len() && g[ii].depends_on[ss] == sy;
                        }
                    }
                }
            } else {
                proof {
                    assert forall|ii: int, jj: int|
                        0 <= ii <= i && #[trigger] dep_edge(g, ii, jj) && g[ii].name
                            == z@ implies string_views(found@).contains(g[jj].name) by {
                        if ii == i {
                            assert(g[ii].name == node.name@);
                        }
                    }
                }
            }
            i = i + 1;
        }
        proof {
            assert forall|y: Seq<char>| #[trigger] depends(g, z@, y) implies string_views(
                found@,
            ).contains(y) by {
                let (ii, jj) = choose|ii: int, jj: int|
                    #[trigger] dep_edge(g, ii, jj) && g[ii].name == z@ && g[jj].name == y;
            }
        }
    }
}

proof fn lemma_closed_contains_reach(g: Seq<NodeModel>, x: Seq<char>, s: Seq<Seq<char>>, n: nat)
    requires
        forall|y: Seq<char>| #[trigger] depends(g, x, y) ==> s.contains(y),
        forall|z: Seq<char>, y: Seq<char>| s.contains(z) && #[trigger] depends(g, z, y) ==> s.contains(y),
    ensures
        forall|y: Seq<char>| #[trigger] reach_within(g, x, n).contains(y) ==> s.contains(y),
    decreases n,
{
    if n > 0 {
        lemma_closed_contains_reach(g, x, s, (n - 1) as nat);
        let prev = reach_within(g, x, (n - 1) as nat);
        assert forall|y: Seq<char>| #[trigger] reach_within(g, x, n).contains(y) implies s.contains(y) by {
            if !prev.contains(y) {
                let z = choose|z: Seq<char>| #[trigger] prev.contains(z) && depends(g, z, y);
                assert(s.contains(z));
            }
        }
    }
}

proof fn lemma_depends_named(g: Seq<NodeModel>, a: Seq<char>, b: Seq<char>)
    requires
        depends(g, a, b),
    ensures
        is_name(g, b),
{
    let (i, j) = choose|i: int, j: int| #[trigger] dep_edge(g, i, j) && g[i].name == a && g[j].name == b;
}

proof fn lemma_names_bound(g: Seq<NodeModel>, s: Seq<Seq<char>>)
    requires
        s.no_duplicates(),
        forall|k: int| 0 <= k < s.len() ==> is_name(g, #[trigger] s[k]),
    ensures
        s.len() <= g.len(),
{
    let names = g.map_values(|n: NodeModel| n.name);
    s.unique_seq_to_set();
    names.lemma_cardinality_of_set();
    vstd::seq_lib::seq_to_set_is_finite(names);
    assert(s.to_set().subset_of(names.to_set())) by {
        assert forall|y: Seq<char>| s.to_set().contains(y) implies names.to_set().contains(y) by {
            let k = choose|k: int| 0 <= k < s.len() && s[k] == y;
            assert(is_name(g, s[k]));
            let j = choose|j: int| 0 <= j < g.len() && #[trigger] g[j].name == y;
            assert(names[j] == y);
        }
    }
    vstd::set_lib::lemma_len_subset(s.to_set(), names.to_set());
}

impl DependencyGraph {
    /// Every project that `name` depends on, directly or through others, in
    /// the order a breadth-first walk meets them. A symbol with several
    /// providers brings in all of them; one without a provider brings in
    /// nothing; cycles are walked once.
    pub fn all_dependencies(&self, name: &str) -> (r: Vec<String>)
        ensures
            string_views(r@).no_duplicates(),
            forall|y: Seq<char>| #[trigger] string_views(r@).contains(y) <==> reachable(self.model(), name@, y),
            forall|k: int| 0 <= k < r.len() ==> is_name(self.model(), #[trigger] r@[k]@),
    {
        let ghost g = self.model();
        let start = name.to_owned();
        let mut found: Vec<String> = Vec::new();
        proof {
            assert(string_views(found@) =~= Seq::<Seq<char>>::empty());
        }
        self.add_successors(&start, &mut found);
        proof {
            assert forall|k: int| 0 <= k < string_views(found@).len() implies #[trigger] reachable(g, name@, string_views(found@)[k]) by {
                assert(reach_within(g, name@, 0).contains(string_views(found@)[k]));
            }
        }
        let mut head: usize = 0;
        while head < found.len()
            invariant
                g == self.model(),
                head <= found.len(),
                string_views(found@).no_duplicates(),
                forall|k: int| 0 <= k < string_views(found@).len() ==> #[trigger] reachable(g, name@, string_views(found@)[k]),
                forall|y: Seq<char>| #[trigger] depends(g, name@, y) ==> string_views(found@).contains(y),
                forall|k: int, y: Seq<char>| 0 <= k < head && #[trigger] depends(g, string_views(found@)[k], y)
                    ==> string_views(found@).contains(y),
            decreases g.len() - head,
        {
            proof {
                assert forall|k: int| 0 <= k < string_views(found@).len() implies is_name(g, #[trigger] string_views(found@)[k]) by {
                    assert(reachable(g, name@, string_views(found@)[k]));
                    lemma_closure_within_projects(g, name@, string_views(found@)[k]);
                }
                lemma_names_bound(g, string_views(found@));
            }
            let z = found[head].clone();
            let ghost before = string_views(found@);
            proof {
                assert(before[head as int] == z@);
            }
            self.add_successors(&z, &mut found);
            proof {
                let after = string_views(found@);
                assert forall|k: int| 0 <= k < after.len() implies #[trigger] reachable(g, name@, after[k]) by {
                    if k < before.len() {
                        assert(after[k] == before[k]);
                    } else {
                        assert(reachable(g, name@, before[head as int]));
                        let n = choose|n: nat| #[trigger] reach_within(g, name@, n).contains(before[head as int]);
                        assert(depends(g, z@, after[k]));
                        assert(reach_within(g, name@, n + 1).contains(after[k]));
                    }
                }
                assert forall|y: Seq<char>| #[trigger] depends(g, name@, y) implies after.contains(y) by {
                    let w = choose|w: int| 0 <= w < before.len() && before[w] == y;
                    assert(after[w] == before[w]);
                }
                assert forall|k: int, y: Seq<char>| 0 <= k <= head && #[trigger] depends(g, after[k], y)
                    implies after.contains(y) by {
                    assert(after[k] == before[k]);
                    if k < head {
                        let w = choose|w: int| 0 <= w < before.len() && before[w] == y;
                        assert(after[w] == before[w]);
                    }
                }
            }
            head = head + 1;
        }
        proof {
            let f = string_views(found@);
            assert forall|z: Seq<char>, y: Seq<char>| f.contains(z) && #[trigger] depends(g, z, y) implies f.contains(y) by {
                let k = choose|k: int| 0 <= k < f.len() && f[k] == z;
            }
            assert forall|y: Seq<char>| #[trigger] f.contains(y) <==> reachable(g, name@, y) by {
                if reachable(g, name@, y) {
                    let n = choose|n: nat| #[trigger] reach_within(g, name@, n).contains(y);
                    lemma_closed_contains_reach(g, name@, f, n);
                }
                if f.contains(y) {
                    let k = choose|k: int| 0 <= k < f.len() && f[k] == y;
                }
            }
            assert forall|k: int| 0 <= k < found.len() implies is_name(g, #[trigger] found@[k]@) by {
                assert(f[k] == found@[k]@);
                assert(reachable(g, name@, f[k]));
                lemma_closure_within_projects(g, name@, f[k]);
            }
        }
        found
    }
}

proof fn lemma_reach_named(g: Seq<NodeModel>, x: Seq<char>, n: nat, y: Seq<char>)
    requires
        reach_within(g, x, n).contains(y),
    ensures
        is_name(g, y),
    decreases n,
{
    if n == 0 {
        lemma_depends_named(g, x, y);
    } else {
        let prev = reach_within(g, x, (n - 1) as nat);
        if prev.contains(y) {
            lemma_reach_named(g, x, (n - 1) as nat, y);
        } else {
            let z = choose|z: Seq<char>| #[trigger] prev.contains(z) && depends(g, z, y);
            lemma_depends_named(g, z, y);
        }
    }
}

/// The dependency closure of any name is made of project names only, also
/// when the graph has cycles (and `all_dependencies`, whose result is that
/// closure, always returns).
pub proof fn lemma_closure_within_projects(g: Seq<NodeModel>, x: Seq<char>, y: Seq<char>)
    requires
        reachable(g, x, y),
    ensures
        is_name(g, y),
{
    let n = choose|n: nat| #[trigger] reach_within(g, x, n).contains(y);
    lemma_reach_named(g, x, n, y);
}

fn clone_strings(v: &Vec<String>) -> (r: Vec<String>)
    ensures
        r@ == v@,
{
    let mut r: Vec<String> = Vec::new();
    let mut i: usize = 0;
    while i < v.len()
        invariant
            i <= v.len(),
            r@ == v@.subrange(0, i as int),
        decreases v.len() - i,
    {
        r.push(v[i].clone());
        i = i + 1;
    }
    r
}

} // verus!
