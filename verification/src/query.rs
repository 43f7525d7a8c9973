//! Deterministic reachability queries over exact local dependency
//! relations: the shortest path between two modules, and the modules that a
//! module reaches, or that reach it.

use vstd::prelude::*;

use crate::graph::{node_key, node_kind, DependencyGraphAnalysis, DependencyNode, DependencyNodeKind, DependencyRelation, DependencyRelationKind};
use crate::order::{key_compare, key_view, AtomView, KeyAtom};
use crate::cycles::{
    adjacency_ok, copy_relation, expanded, is_rank_walk, kept_views, queue_sorted, rank_is, relation_ranks,
    relation_view, strictly_sorted_keys,
};
use crate::text::copy_string;

verus! {

#[derive(Debug, Clone, Copy, PartialEq, Eq, Structural)]
pub enum DependencyQueryDirection {
    Dependencies,
    Dependents,
}

impl DependencyQueryDirection {
    /// The stable name.
    pub fn as_str(self) -> (r: &'static str)
        ensures
            r@ == match self {
                DependencyQueryDirection::Dependencies => "dependencies"@,
                DependencyQueryDirection::Dependents => "dependents"@,
            },
    {
        match self {
            DependencyQueryDirection::Dependencies => "dependencies",
            DependencyQueryDirection::Dependents => "dependents",
        }
    }
}

/// A question about the graph.
#[derive(Debug)]
pub enum DependencyGraphQuery {
    ShortestPath { from: String, to: String },
    Closure { module: String, direction: DependencyQueryDirection },
}

/// A query taken by value.
pub enum QueryView {
    ShortestPath { from: Seq<char>, to: Seq<char> },
    Closure { module: Seq<char>, direction: DependencyQueryDirection },
}

impl View for DependencyGraphQuery {
    type V = QueryView;

    open spec fn view(&self) -> QueryView {
        match self {
            DependencyGraphQuery::ShortestPath { from, to } => QueryView::ShortestPath { from: from@, to: to@ },
            DependencyGraphQuery::Closure { module, direction } => QueryView::Closure {
                module: module@,
                direction: *direction,
            },
        }
    }
}

impl DependencyGraphQuery {
    /// A copy of the query.
    pub fn copy(&self) -> (r: DependencyGraphQuery)
        ensures
            r@ == self@,
    {
        match self {
            DependencyGraphQuery::ShortestPath { from, to } => DependencyGraphQuery::ShortestPath {
                from: copy_string(from),
                to: copy_string(to),
            },
            DependencyGraphQuery::Closure { module, direction } => DependencyGraphQuery::Closure {
                module: copy_string(module),
                direction: *direction,
            },
        }
    }
}

#[derive(Debug)]
pub struct DependencyGraphQueryResult {
    pub query: DependencyGraphQuery,
    pub found: bool,
    /// Path order for a path query; sorted module order for a closure query.
    pub nodes: Vec<DependencyNode>,
    pub relations: Vec<DependencyRelation>,
}

/// A query named a module that is not a local module; the suggestions are
/// the nearest local module names.
#[derive(Debug)]
pub struct DependencyGraphQueryError {
    pub module: String,
    pub suggestions: Vec<String>,
}

// ---------------------------------------------------------------------
// Edit distance and suggestions.
// ---------------------------------------------------------------------

pub open spec fn min3(a: nat, b: nat, c: nat) -> nat {
    let m = if a <= b { a } else { b };
    if m <= c { m } else { c }
}

/// The Levenshtein distance between two character sequences: the fewest
/// insertions, deletions and substitutions that turn one into the other.
pub open spec fn levenshtein(a: Seq<char>, b: Seq<char>) -> nat
    decreases a.len() + b.len(),
{
    if a.len() == 0 {
        b.len()
    } else if b.len() == 0 {
        a.len()
    } else {
        min3(
            levenshtein(a.drop_last(), b) + 1,
            levenshtein(a, b.drop_last()) + 1,
            levenshtein(a.drop_last(), b.drop_last()) + if a.last() == b.last() {
                0nat
            } else {
                1nat
            },
        )
    }
}

proof fn lemma_levenshtein_bound(a: Seq<char>, b: Seq<char>)
    ensures
        levenshtein(a, b) <= a.len() + b.len(),
    decreases a.len() + b.len(),
{
    if a.len() > 0 && b.len() > 0 {
        lemma_levenshtein_bound(a.drop_last(), b);
    }
}

/// The edit distance of two texts, counted in characters.
pub fn edit_distance(left: &str, right: &str) -> (d: usize)
    requires
        left@.len() + right@.len() < usize::MAX,
    ensures
        d == levenshtein(left@, right@),
{
    let a = crate::order::text_chars(left);
    let b = crate::order::text_chars(right);
    let m = b.len();
    let mut previous: Vec<usize> = Vec::new();
    let mut j: usize = 0;
    while j <= m
        invariant
            m == b.len(),
            m < usize::MAX,
            j <= m + 1,
            previous.len() == j,
            forall|x: int| 0 <= x < j ==> previous[x] == x,
        decreases m + 1 - j,
    {
        previous.push(j);
        j = j + 1;
    }
    proof {
        assert forall|x: int| 0 <= x <= m implies #[trigger] previous[x] == levenshtein(a@.take(0), b@.take(x)) by {
            assert(a@.take(0).len() == 0);
        }
    }
    let mut i: usize = 0;
    while i < a.len()
        invariant
            m == b.len(),
            a.len() + m < usize::MAX,
            i <= a.len(),
            a@ == left@,
            b@ == right@,
            previous.len() == m + 1,
            forall|x: int| 0 <= x <= m ==> #[trigger] previous[x] == levenshtein(a@.take(i as int), b@.take(x)),
        decreases a.len() - i,
    {
        let ghost ai = a@.take(i as int);
        let ghost ai1 = a@.take(i + 1);
        proof {
            assert(ai1.drop_last() =~= ai);
            assert(ai1.last() == a[i as int]);
            assert(b@.take(0).len() == 0);
            assert(levenshtein(ai1, b@.take(0)) == ai1.len());
        }
        let mut current: Vec<usize> = Vec::new();
        current.push(i + 1);
        let mut k: usize = 0;
        while k < m
            invariant
                m == b.len(),
                a.len() + m < usize::MAX,
                i < a.len(),
                ai == a@.take(i as int),
                ai1 == a@.take(i + 1),
                ai1.drop_last() == ai,
                ai1.last() == a[i as int],
                previous.len() == m + 1,
                forall|x: int| 0 <= x <= m ==> #[trigger] previous[x] == levenshtein(ai, b@.take(x)),
                k <= m,
                current.len() == k + 1,
                forall|x: int| 0 <= x <= k ==> #[trigger] current[x] == levenshtein(ai1, b@.take(x)),
            decreases m - k,
        {
            let ghost bk1 = b@.take(k + 1);
            proof {
                assert(bk1.drop_last() =~= b@.take(k as int));
                assert(bk1.last() == b[k as int]);
                lemma_levenshtein_bound(ai1, b@.take(k as int));
                lemma_levenshtein_bound(ai, bk1);
                lemma_levenshtein_bound(ai, b@.take(k as int));
                assert(current[k as int] == levenshtein(ai1, b@.take(k as int)));
                assert(previous[k + 1] == levenshtein(ai, bk1));
                assert(previous[k as int] == levenshtein(ai, b@.take(k as int)));
                assert(levenshtein(ai1, bk1) == min3(
                    levenshtein(ai, bk1) + 1,
                    levenshtein(ai1, b@.take(k as int)) + 1,
                    levenshtein(ai, b@.take(k as int)) + if ai1.last() == bk1.last() { 0nat } else { 1nat },
                ));
            }
            let x = current[k] + 1;
            let y = previous[k + 1] + 1;
            let z = previous[k] + if a[i] != b[k] { 1 } else { 0 };
            let first = if x <= y { x } else { y };
            let best = if first <= z { first } else { z };
            current.push(best);
            k = k + 1;
        }
        previous = current;
        i = i + 1;
    }
    proof {
        assert(a@.take(a.len() as int) =~= a@);
        assert(b@.take(m as int) =~= b@);
    }
    previous[m]
}


/// The qualified name of a local module node.
pub open spec fn local_name(n: DependencyNode) -> Option<Seq<char>> {
    match n {
        DependencyNode::LocalModule(m) => Some(m.id@.1),
        _ => None,
    }
}

/// Some local module node of the analysis has this name.
pub open spec fn is_local_name(nodes: Seq<DependencyNode>, x: Seq<char>) -> bool {
    exists|i: int| 0 <= i < nodes.len() && local_name(#[trigger] nodes[i]) == Some(x)
}

/// Every local module name is short enough to compare with `q`.
pub open spec fn names_fit(nodes: Seq<DependencyNode>, q: Seq<char>) -> bool {
    forall|i: int|
        0 <= i < nodes.len() ==> match local_name(#[trigger] nodes[i]) {
            Some(x) => q.len() + x.len() < usize::MAX,
            None => true,
        }
}

/// How a name ranks as a suggestion for `q`: by edit distance, then by name.
pub open spec fn suggestion_key(q: Seq<char>, x: Seq<char>) -> Seq<AtomView> {
    seq![AtomView::Num(levenshtein(q, x) as int), AtomView::Text(x)]
}

/// The three local module names nearest to `q` (fewer when there are
/// fewer), nearest first.
pub open spec fn suggestions_ok(q: Seq<char>, nodes: Seq<DependencyNode>, sug: Seq<Seq<char>>) -> bool {
    &&& sug.len() <= 3
    &&& forall|p: int| 0 <= p < sug.len() ==> is_local_name(nodes, #[trigger] sug[p])
    &&& forall|p1: int, p2: int|
        0 <= p1 < p2 < sug.len() ==> key_compare(suggestion_key(q, sug[p1]), suggestion_key(q, sug[p2])) == -1
    &&& forall|x: Seq<char>|
        #[trigger] is_local_name(nodes, x) && !sug.contains(x) ==> sug.len() == 3 && key_compare(
            suggestion_key(q, sug[2]),
            suggestion_key(q, x),
        ) == -1
}

fn suggestions(requested: &str, nodes: &Vec<DependencyNode>) -> (r: Vec<String>)
    requires
        names_fit(nodes@, requested@),
    ensures
        suggestions_ok(requested@, nodes@, r@.map_values(|s: String| s@)),
{
    let mut keys: Vec<Vec<KeyAtom>> = Vec::new();
    let mut names: Vec<String> = Vec::new();
    let mut i: usize = 0;
    while i < nodes.len()
        invariant
            i <= nodes.len(),
            names_fit(nodes@, requested@),
            keys.len() == names.len(),
            forall|x: int| 0 <= x < names.len() ==> is_local_name(nodes@, (#[trigger] names[x])@),
            forall|x: int| 0 <= x < names.len() ==> key_view(#[trigger] keys[x]@) == suggestion_key(requested@, names[x]@),
            forall|y: int| 0 <= y < i ==> match local_name(#[trigger] nodes[y]) {
                Some(n) => exists|x: int| 0 <= x < names.len() && names[x]@ == n,
                None => true,
            },
        decreases nodes.len() - i,
    {
        match &nodes[i] {
            DependencyNode::LocalModule(m) => {
                let name = m.id.qualified_name();
                proof {
                    assert(local_name(nodes[i as int]) == Some(name@));
                }
                let d = edit_distance(requested, name);
                let mut k: Vec<KeyAtom> = Vec::new();
                crate::dependencies::push_num_atom(&mut k, d as u64);
                crate::dependencies::push_text_atom(&mut k, name);
                proof {
                    assert(key_view(k@) =~= suggestion_key(requested@, name@));
                }
                keys.push(k);
                let ghost old_names = names@;
                names.push(name.to_owned());
                proof {
                    assert forall|y: int| 0 <= y < i + 1 implies match local_name(#[trigger] nodes[y]) {
                        Some(n) => exists|x: int| 0 <= x < names.len() && names[x]@ == n,
                        None => true,
                    } by {
                        if y < i {
                            if let Some(n) = local_name(nodes[y]) {
                                let x = choose|x: int| 0 <= x < old_names.len() && old_names[x]@ == n;
                                assert(names[x] == old_names[x]);
                            }
                        } else {
                            assert(names[names.len() - 1]@ == name@);
                        }
                    }
                }
            },
            _ => {},
        }
        i = i + 1;
    }
    let order = crate::order::unique_sorted_order(&keys);
    let mut out: Vec<String> = Vec::new();
    let mut p: usize = 0;
    while p < order.len() && p < 3
        invariant
            p <= order.len(),
            p <= 3,
            out.len() == p,
            keys.len() == names.len(),
            forall|x: int| 0 <= x < order.len() ==> #[trigger] order[x] < keys.len(),
            forall|x: int| 0 <= x < p ==> (#[trigger] out[x])@ == names[order[x] as int]@,
        decreases 3 - p,
    {
        out.push(copy_string(&names[order[p]]));
        p = p + 1;
    }
    proof {
        let kv = crate::order::keys_view(keys@);
        let sug = out@.map_values(|s: String| s@);
        assert forall|x: int| 0 <= x < keys.len() implies #[trigger] kv[x] == suggestion_key(requested@, names[x]@) by {}
        assert forall|q: int| 0 <= q < sug.len() implies is_local_name(nodes@, #[trigger] sug[q]) by {
            assert(sug[q] == names[order[q] as int]@);
        }
        assert forall|p1: int, p2: int| 0 <= p1 < p2 < sug.len() implies key_compare(
            suggestion_key(requested@, sug[p1]),
            suggestion_key(requested@, sug[p2]),
        ) == -1 by {
            assert(sug[p1] == names[order[p1] as int]@);
            assert(sug[p2] == names[order[p2] as int]@);
            assert(kv[order[p1] as int] == suggestion_key(requested@, sug[p1]));
            assert(kv[order[p2] as int] == suggestion_key(requested@, sug[p2]));
        }
        assert forall|x: Seq<char>| #[trigger] is_local_name(nodes@, x) && !sug.contains(x) implies sug.len() == 3
            && key_compare(suggestion_key(requested@, sug[2]), suggestion_key(requested@, x)) == -1 by {
            let y = choose|y: int| 0 <= y < nodes.len() && local_name(#[trigger] nodes[y]) == Some(x);
            let z = choose|z: int| 0 <= z < names.len() && names[z]@ == x;
            assert(crate::order::covers_key(kv, order@, z));
            let q = choose|q: int| 0 <= q < order.len() && kv[order[q] as int] == kv[z];
            assert(kv[order[q] as int][1] == AtomView::Text(names[order[q] as int]@));
            assert(kv[z][1] == AtomView::Text(x));
            if q < 3 {
                assert(sug[q] == names[order[q] as int]@);
                assert(sug[q] == x);
            } else {
                assert(sug[2] == names[order[2] as int]@);
                crate::order::lemma_key_trans(kv[order[2] as int], kv[order[q - 1] as int], kv[order[q] as int]);
                if q > 3 {
                    assert(key_compare(kv[order[2] as int], kv[order[q - 1] as int]) == -1);
                }
            }
        }
    }
    out
}


// ---------------------------------------------------------------------
// The local graph.
// ---------------------------------------------------------------------

/// An exact relation between two local modules.
pub open spec fn is_query_relation(r: DependencyRelation) -> bool {
    &&& r.kind == DependencyRelationKind::Exact
    &&& node_kind(r.source) == DependencyNodeKind::LocalModule
    &&& node_kind(r.target) == DependencyNodeKind::LocalModule
}

/// A query relation leads from `a` to `b` in the given direction.
pub open spec fn query_edge(
    rels: Seq<DependencyRelation>,
    dir: DependencyQueryDirection,
    a: Seq<AtomView>,
    b: Seq<AtomView>,
) -> bool {
    exists|j: int|
        0 <= j < rels.len() && is_query_relation(#[trigger] rels[j]) && match dir {
            DependencyQueryDirection::Dependencies => node_key(rels[j].source) == a && node_key(rels[j].target) == b,
            DependencyQueryDirection::Dependents => node_key(rels[j].target) == a && node_key(rels[j].source) == b,
        }
}

pub open spec fn query_edge_fn(
    rels: Seq<DependencyRelation>,
    dir: DependencyQueryDirection,
) -> spec_fn(Seq<AtomView>, Seq<AtomView>) -> bool {
    |a: Seq<AtomView>, b: Seq<AtomView>| query_edge(rels, dir, a, b)
}

/// A path of keys along `edge`: one key, or several each joined to the next.
pub open spec fn is_key_path(edge: spec_fn(Seq<AtomView>, Seq<AtomView>) -> bool, w: Seq<Seq<AtomView>>) -> bool {
    &&& w.len() >= 1
    &&& forall|k: int| #![trigger w[k]] 0 <= k < w.len() - 1 ==> edge(w[k], w[k + 1])
}

/// Key `k` can be reached from some key of `roots` along `edge`.
pub open spec fn reaches_from(
    edge: spec_fn(Seq<AtomView>, Seq<AtomView>) -> bool,
    roots: Set<Seq<AtomView>>,
    k: Seq<AtomView>,
) -> bool {
    exists|w: Seq<Seq<AtomView>>| #[trigger] is_key_path(edge, w) && roots.contains(w[0]) && w[w.len() - 1] == k
}

/// The keys of the local module nodes named `name`.
pub open spec fn matching_keys(nodes: Seq<DependencyNode>, name: Seq<char>) -> Set<Seq<AtomView>> {
    Set::new(
        |k: Seq<AtomView>|
            exists|i: int| 0 <= i < nodes.len() && local_name(#[trigger] nodes[i]) == Some(name) && node_key(nodes[i]) == k,
    )
}

/// Some node of the list has this key.
pub open spec fn lists_key(nodes: Seq<DependencyNode>, k: Seq<AtomView>) -> bool {
    exists|i: int| 0 <= i < nodes.len() && node_key(nodes[i]) == k
}

/// Nodes in strictly increasing key order.
pub open spec fn sorted_nodes(nodes: Seq<DependencyNode>) -> bool {
    forall|i: int, j: int| 0 <= i < j < nodes.len() ==> key_compare(node_key(nodes[i]), node_key(nodes[j])) == -1
}

/// The keys that queries can meet: local module nodes, and the ends of query
/// relations, each once, ascending, with a node for each.
pub open spec fn universe_ok(
    analysis: DependencyGraphAnalysis,
    uk: Seq<Vec<KeyAtom>>,
    un: Seq<DependencyNode>,
) -> bool {
    &&& strictly_sorted_keys(uk)
    &&& un.len() == uk.len()
    &&& forall|r: int| 0 <= r < uk.len() ==> node_key(#[trigger] un[r]) == key_view(uk[r]@)
    &&& forall|i: int|
        0 <= i < analysis.nodes.len() && (#[trigger] analysis.nodes[i]) is LocalModule ==> exists|r: int|
            0 <= r < uk.len() && key_view(#[trigger] uk[r]@) == node_key(analysis.nodes[i])
    &&& forall|j: int|
        0 <= j < analysis.relations.len() && is_query_relation(#[trigger] analysis.relations[j]) ==> {
            &&& exists|r: int| 0 <= r < uk.len() && key_view(#[trigger] uk[r]@) == node_key(analysis.relations[j].source)
            &&& exists|r: int| 0 <= r < uk.len() && key_view(#[trigger] uk[r]@) == node_key(analysis.relations[j].target)
        }
}

fn universe(analysis: &DependencyGraphAnalysis) -> (r: (Vec<Vec<KeyAtom>>, Vec<DependencyNode>))
    ensures
        universe_ok(*analysis, r.0@, r.1@),
{
    let mut keys: Vec<Vec<KeyAtom>> = Vec::new();
    let mut all: Vec<DependencyNode> = Vec::new();
    let mut i: usize = 0;
    while i < analysis.nodes.len()
        invariant
            i <= analysis.nodes.len(),
            keys.len() == all.len(),
            forall|x: int| 0 <= x < all.len() ==> key_view(#[trigger] keys[x]@) == node_key(all[x]),
            forall|y: int|
                0 <= y < i && (#[trigger] analysis.nodes[y]) is LocalModule ==> exists|x: int|
                    0 <= x < all.len() && node_key(#[trigger] all[x]) == node_key(analysis.nodes[y]),
        decreases analysis.nodes.len() - i,
    {
        if analysis.nodes[i].kind() == DependencyNodeKind::LocalModule {
            let n = analysis.nodes[i].copy();
            keys.push(n.key());
            let ghost old = all@;
            all.push(n);
            proof {
                assert forall|y: int|
                    0 <= y < i + 1 && (#[trigger] analysis.nodes[y]) is LocalModule implies exists|x: int|
                        0 <= x < all.len() && node_key(#[trigger] all[x]) == node_key(analysis.nodes[y]) by {
                    if y < i {
                        let x = choose|x: int| 0 <= x < old.len() && node_key(#[trigger] old[x]) == node_key(analysis.nodes[y]);
                        assert(all[x] == old[x]);
                    } else {
                        assert(node_key(all[all.len() - 1]) == node_key(analysis.nodes[y]));
                    }
                }
            }
        }
        i = i + 1;
    }
    let mut j: usize = 0;
    while j < analysis.relations.len()
        invariant
            j <= analysis.relations.len(),
            keys.len() == all.len(),
            forall|x: int| 0 <= x < all.len() ==> key_view(#[trigger] keys[x]@) == node_key(all[x]),
            forall|y: int|
                0 <= y < analysis.nodes.len() && (#[trigger] analysis.nodes[y]) is LocalModule ==> exists|x: int|
                    0 <= x < all.len() && node_key(#[trigger] all[x]) == node_key(analysis.nodes[y]),
            forall|y: int|
                0 <= y < j && is_query_relation(#[trigger] analysis.relations[y]) ==> {
                    &&& exists|x: int| 0 <= x < all.len() && node_key(#[trigger] all[x]) == node_key(analysis.relations[y].source)
                    &&& exists|x: int| 0 <= x < all.len() && node_key(#[trigger] all[x]) == node_key(analysis.relations[y].target)
                },
        decreases analysis.relations.len() - j,
    {
        let rel = &analysis.relations[j];
        if rel.kind == DependencyRelationKind::Exact && rel.source.kind() == DependencyNodeKind::LocalModule
            && rel.target.kind() == DependencyNodeKind::LocalModule {
            let ghost old = all@;
            let s = rel.source.copy();
            keys.push(s.key());
            all.push(s);
            let t = rel.target.copy();
            keys.push(t.key());
            all.push(t);
            proof {
                assert(node_key(all[old.len() as int]) == node_key(rel.source));
                assert(node_key(all[old.len() as int + 1]) == node_key(rel.target));
                assert forall|y: int|
                    0 <= y < analysis.nodes.len() && (#[trigger] analysis.nodes[y]) is LocalModule implies exists|x: int|
                        0 <= x < all.len() && node_key(#[trigger] all[x]) == node_key(analysis.nodes[y]) by {
                    let x = choose|x: int| 0 <= x < old.len() && node_key(#[trigger] old[x]) == node_key(analysis.nodes[y]);
                    assert(all[x] == old[x]);
                }
                assert forall|y: int|
                    0 <= y < j + 1 && is_query_relation(#[trigger] analysis.relations[y]) implies {
                        &&& exists|x: int| 0 <= x < all.len() && node_key(#[trigger] all[x]) == node_key(analysis.relations[y].source)
                        &&& exists|x: int| 0 <= x < all.len() && node_key(#[trigger] all[x]) == node_key(analysis.relations[y].target)
                    } by {
                    if y < j {
                        let x = choose|x: int| 0 <= x < old.len() && node_key(#[trigger] old[x]) == node_key(analysis.relations[y].source);
                        assert(all[x] == old[x]);
                        let x2 = choose|x2: int| 0 <= x2 < old.len() && node_key(#[trigger] old[x2]) == node_key(analysis.relations[y].target);
                        assert(all[x2] == old[x2]);
                    }
                }
            }
        }
        j = j + 1;
    }
    let order = crate::order::unique_sorted_order(&keys);
    let mut uk: Vec<Vec<KeyAtom>> = Vec::new();
    let mut un: Vec<DependencyNode> = Vec::new();
    let mut p: usize = 0;
    while p < order.len()
        invariant
            p <= order.len(),
            uk.len() == p,
            un.len() == p,
            keys.len() == all.len(),
            forall|x: int| 0 <= x < order.len() ==> #[trigger] order[x] < keys.len(),
            forall|x: int| 0 <= x < all.len() ==> key_view(#[trigger] keys[x]@) == node_key(all[x]),
            forall|x: int| 0 <= x < p ==> key_view(#[trigger] uk[x]@) == node_key(all[order[x] as int]),
            forall|x: int| 0 <= x < p ==> node_key(#[trigger] un[x]) == node_key(all[order[x] as int]),
        decreases order.len() - p,
    {
        let n = all[order[p]].copy();
        uk.push(n.key());
        un.push(n);
        p = p + 1;
    }
    proof {
        let kv = crate::order::keys_view(keys@);
        assert forall|x: int| 0 <= x < keys.len() implies #[trigger] kv[x] == node_key(all[x]) by {}
        assert forall|a: int, b: int| 0 <= a < b < uk.len() implies key_compare(key_view(uk[a]@), key_view(uk[b]@)) == -1 by {
            assert(kv[order[a] as int] == key_view(uk[a]@));
            assert(kv[order[b] as int] == key_view(uk[b]@));
        }
        assert forall|x: int| 0 <= x < all.len() implies exists|r: int| 0 <= r < uk.len() && key_view(#[trigger] uk[r]@) == node_key(#[trigger] all[x]) by {
            assert(crate::order::covers_key(kv, order@, x));
            let q = choose|q: int| 0 <= q < order.len() && kv[order[q] as int] == kv[x];
            assert(key_view(uk[q]@) == kv[order[q] as int]);
        }
        assert forall|i2: int|
            0 <= i2 < analysis.nodes.len() && (#[trigger] analysis.nodes[i2]) is LocalModule implies exists|r: int|
                0 <= r < uk.len() && key_view(#[trigger] uk[r]@) == node_key(analysis.nodes[i2]) by {
            let x = choose|x: int| 0 <= x < all.len() && node_key(#[trigger] all[x]) == node_key(analysis.nodes[i2]);
        }
        assert forall|j2: int|
            0 <= j2 < analysis.relations.len() && is_query_relation(#[trigger] analysis.relations[j2]) implies {
                &&& exists|r: int| 0 <= r < uk.len() && key_view(#[trigger] uk[r]@) == node_key(analysis.relations[j2].source)
                &&& exists|r: int| 0 <= r < uk.len() && key_view(#[trigger] uk[r]@) == node_key(analysis.relations[j2].target)
            } by {
            let x = choose|x: int| 0 <= x < all.len() && node_key(#[trigger] all[x]) == node_key(analysis.relations[j2].source);
            let x2 = choose|x2: int| 0 <= x2 < all.len() && node_key(#[trigger] all[x2]) == node_key(analysis.relations[j2].target);
        }
    }
    (uk, un)
}


/// The oriented ends of relation `j`.
pub open spec fn oriented(dir: DependencyQueryDirection, s: Option<usize>, t: Option<usize>) -> (Option<usize>, Option<usize>) {
    match dir {
        DependencyQueryDirection::Dependencies => (s, t),
        DependencyQueryDirection::Dependents => (t, s),
    }
}

/// The neighbors of each key of the universe in the given direction.
fn query_adjacency(
    analysis: &DependencyGraphAnalysis,
    uk: &Vec<Vec<KeyAtom>>,
    un: &Vec<DependencyNode>,
    dir: DependencyQueryDirection,
) -> (adj: Vec<Vec<usize>>)
    requires
        universe_ok(*analysis, uk@, un@),
    ensures
        adjacency_ok(adj@, uk.len() as int),
        forall|a: int, b: usize|
            0 <= a < uk.len() && b < uk.len() ==> (#[trigger] adj[a]@.contains(b) <==> query_edge(
                analysis.relations@,
                dir,
                key_view(uk[a]@),
                key_view(uk[b as int]@),
            )),
{
    let rels = &analysis.relations;
    let (sr, tr) = relation_ranks(uk, rels);
    let u = uk.len();
    let mut adj: Vec<Vec<usize>> = Vec::new();
    let mut a: usize = 0;
    while a < u
        invariant
            a <= u,
            u == uk.len(),
            universe_ok(*analysis, uk@, un@),
            rels == &analysis.relations,
            sr.len() == rels.len(),
            tr.len() == rels.len(),
            forall|j: int| 0 <= j < rels.len() ==> rank_is(uk@, #[trigger] sr[j], node_key(rels[j].source)),
            forall|j: int| 0 <= j < rels.len() ==> rank_is(uk@, #[trigger] tr[j], node_key(rels[j].target)),
            adj.len() == a,
            forall|r: int, i: int| 0 <= r < a && 0 <= i < adj[r].len() ==> #[trigger] adj[r][i] < u,
            forall|r: int, i: int, j: int| 0 <= r < a && 0 <= i < j < adj[r].len() ==> #[trigger] adj[r][i] < #[trigger] adj[r][j],
            forall|r: int, b: usize|
                0 <= r < a && b < u ==> (#[trigger] adj[r]@.contains(b) <==> query_edge(
                    rels@,
                    dir,
                    key_view(uk[r]@),
                    key_view(uk[b as int]@),
                )),
        decreases u - a,
    {
        let mut mark: Vec<bool> = Vec::new();
        let mut b: usize = 0;
        while b < u
            invariant
                b <= u,
                mark.len() == b,
                forall|x: int| 0 <= x < b ==> !mark[x],
            decreases u - b,
        {
            mark.push(false);
            b = b + 1;
        }
        let mut j: usize = 0;
        while j < rels.len()
            invariant
                j <= rels.len(),
                a < u,
                u == uk.len(),
                universe_ok(*analysis, uk@, un@),
                rels == &analysis.relations,
                mark.len() == u,
                sr.len() == rels.len(),
                tr.len() == rels.len(),
                forall|x: int| 0 <= x < rels.len() ==> rank_is(uk@, #[trigger] sr[x], node_key(rels[x].source)),
                forall|x: int| 0 <= x < rels.len() ==> rank_is(uk@, #[trigger] tr[x], node_key(rels[x].target)),
                forall|b2: int|
                    0 <= b2 < u ==> (#[trigger] mark[b2] <==> exists|x: int|
                        0 <= x < j && is_query_relation(#[trigger] rels[x]) && match dir {
                            DependencyQueryDirection::Dependencies => node_key(rels[x].source) == key_view(uk[a as int]@)
                                && node_key(rels[x].target) == key_view(uk[b2]@),
                            DependencyQueryDirection::Dependents => node_key(rels[x].target) == key_view(uk[a as int]@)
                                && node_key(rels[x].source) == key_view(uk[b2]@),
                        }),
            decreases rels.len() - j,
        {
            let rel = &rels[j];
            let ghost before = mark@;
            if rel.kind == DependencyRelationKind::Exact && rel.source.kind() == DependencyNodeKind::LocalModule
                && rel.target.kind() == DependencyNodeKind::LocalModule {
                proof {
                    assert(is_query_relation(rels[j as int]));
                    let r1 = choose|r: int| 0 <= r < uk.len() && key_view(#[trigger] uk[r]@) == node_key(rels[j as int].source);
                    let r2 = choose|r: int| 0 <= r < uk.len() && key_view(#[trigger] uk[r]@) == node_key(rels[j as int].target);
                    if sr[j as int] is None {
                        assert(key_view(uk[r1]@) != node_key(rels[j as int].source));
                    }
                    if tr[j as int] is None {
                        assert(key_view(uk[r2]@) != node_key(rels[j as int].target));
                    }
                }
                let (p, q) = match dir {
                    DependencyQueryDirection::Dependencies => (sr[j], tr[j]),
                    DependencyQueryDirection::Dependents => (tr[j], sr[j]),
                };
                match (p, q) {
                    (Some(x), Some(y)) => {
                        if x == a {
                            mark.set(y, true);
                        }
                    },
                    _ => {},
                }
                proof {
                    let (x, y) = (p->0, q->0);
                    assert forall|b2: int| 0 <= b2 < u implies (#[trigger] mark[b2] <==> exists|x2: int|
                        0 <= x2 < j + 1 && is_query_relation(#[trigger] rels[x2]) && match dir {
                            DependencyQueryDirection::Dependencies => node_key(rels[x2].source) == key_view(uk[a as int]@)
                                && node_key(rels[x2].target) == key_view(uk[b2]@),
                            DependencyQueryDirection::Dependents => node_key(rels[x2].target) == key_view(uk[a as int]@)
                                && node_key(rels[x2].source) == key_view(uk[b2]@),
                        }) by {
                        let here = match dir {
                            DependencyQueryDirection::Dependencies => node_key(rels[j as int].source) == key_view(uk[a as int]@)
                                && node_key(rels[j as int].target) == key_view(uk[b2]@),
                            DependencyQueryDirection::Dependents => node_key(rels[j as int].target) == key_view(uk[a as int]@)
                                && node_key(rels[j as int].source) == key_view(uk[b2]@),
                        };
                        if here {
                            crate::cycles::lemma_rank_unique(uk@, x as int, a as int);
                            crate::cycles::lemma_rank_unique(uk@, y as int, b2);
                        }
                        if mark[b2] && !before[b2] {
                            assert(here);
                        }
                        if before[b2] {
                            let x2 = choose|x2: int|
                                0 <= x2 < j && is_query_relation(#[trigger] rels[x2]) && match dir {
                                    DependencyQueryDirection::Dependencies => node_key(rels[x2].source) == key_view(uk[a as int]@)
                                        && node_key(rels[x2].target) == key_view(uk[b2]@),
                                    DependencyQueryDirection::Dependents => node_key(rels[x2].target) == key_view(uk[a as int]@)
                                        && node_key(rels[x2].source) == key_view(uk[b2]@),
                                };
                        }
                    }
                }
            } else {
                proof {
                    assert(!is_query_relation(rels[j as int]));
                }
            }
            j = j + 1;
        }
        let mut row: Vec<usize> = Vec::new();
        let mut b: usize = 0;
        while b < u
            invariant
                b <= u,
                mark.len() == u,
                forall|i: int| 0 <= i < row.len() ==> #[trigger] row[i] < b,
                forall|i: int, k: int| 0 <= i < k < row.len() ==> #[trigger] row[i] < #[trigger] row[k],
                forall|b2: usize| b2 < b ==> (#[trigger] row@.contains(b2) <==> mark[b2 as int]),
            decreases u - b,
        {
            let ghost old_row = row@;
            if mark[b] {
                row.push(b);
                proof {
                    assert(row[row.len() - 1] == b);
                }
            }
            proof {
                assert forall|b2: usize| b2 < b + 1 implies (#[trigger] row@.contains(b2) <==> mark[b2 as int]) by {
                    if row@.contains(b2) {
                        let i = choose|i: int| 0 <= i < row.len() && row[i] == b2;
                        if i < old_row.len() {
                            assert(old_row[i] == b2);
                            assert(old_row.contains(b2));
                        }
                    }
                    if b2 < b && old_row.contains(b2) {
                        let i = choose|i: int| 0 <= i < old_row.len() && old_row[i] == b2;
                        assert(row[i] == b2);
                    }
                    if b2 == b && old_row.contains(b2) {
                        let i = choose|i: int| 0 <= i < old_row.len() && old_row[i] == b2;
                        assert(old_row[i] < b);
                    }
                }
            }
            b = b + 1;
        }
        let ghost old_adj = adj@;
        adj.push(row);
        proof {
            assert forall|r: int, b2: usize|
                0 <= r < a + 1 && b2 < u implies (#[trigger] adj[r]@.contains(b2) <==> query_edge(
                rels@,
                dir,
                key_view(uk[r]@),
                key_view(uk[b2 as int]@),
            )) by {
                if r < a {
                    assert(adj[r] == old_adj[r]);
                } else {
                    assert(adj[r]@ == row@);
                    if query_edge(rels@, dir, key_view(uk[r]@), key_view(uk[b2 as int]@)) {
                        let x = choose|x: int|
                            0 <= x < rels.len() && is_query_relation(#[trigger] rels[x]) && match dir {
                                DependencyQueryDirection::Dependencies => node_key(rels[x].source) == key_view(uk[r]@)
                                    && node_key(rels[x].target) == key_view(uk[b2 as int]@),
                                DependencyQueryDirection::Dependents => node_key(rels[x].target) == key_view(uk[r]@)
                                    && node_key(rels[x].source) == key_view(uk[b2 as int]@),
                            };
                        assert(mark[b2 as int]);
                    }
                }
            }
            assert forall|r: int, i: int| 0 <= r < a + 1 && 0 <= i < adj[r].len() implies #[trigger] adj[r][i] < u by {
                if r < a {
                    assert(adj[r] == old_adj[r]);
                }
            }
            assert forall|r: int, i: int, k: int| 0 <= r < a + 1 && 0 <= i < k < adj[r].len() implies #[trigger] adj[r][i] < #[trigger] adj[r][k] by {
                if r < a {
                    assert(adj[r] == old_adj[r]);
                }
            }
        }
        a = a + 1;
    }
    adj
}


/// Vertex `v` can be reached from one of `sources` along the adjacency.
pub open spec fn rank_reach(adj: Seq<Vec<usize>>, sources: Seq<usize>, v: usize) -> bool {
    exists|w: Seq<usize>| #[trigger] is_rank_walk(adj, w) && sources.contains(w[0]) && w[w.len() - 1] == v
}

proof fn lemma_walk_push(adj: Seq<Vec<usize>>, w: Seq<usize>, v: usize)
    requires
        is_rank_walk(adj, w),
        v < adj.len(),
        adj[w[w.len() - 1] as int]@.contains(v),
    ensures
        is_rank_walk(adj, w.push(v)),
{
    let w2 = w.push(v);
    assert forall|k: int| #![trigger w2[k]] 0 <= k < w2.len() - 1 implies adj[w2[k] as int]@.contains(w2[k + 1]) by {
        if k < w.len() - 1 {
            assert(w2[k] == w[k] && w2[k + 1] == w[k + 1]);
        }
    }
}

/// The path from a source to `target` along the recorded predecessors.
fn trace_to_source(
    adj: &Vec<Vec<usize>>,
    visited: &Vec<bool>,
    prev: &Vec<usize>,
    is_src: &Vec<bool>,
    dist: Ghost<Seq<nat>>,
    target: usize,
) -> (out: Vec<usize>)
    requires
        adjacency_ok(adj@, adj.len() as int),
        target < adj.len(),
        visited.len() == adj.len(),
        prev.len() == adj.len(),
        dist@.len() == adj.len(),
        is_src@.len() == adj.len(),
        visited[target as int],
        forall|v: int| 0 <= v < adj.len() && #[trigger] is_src@[v] ==> dist@[v] == 0,
        forall|v: int|
            0 <= v < adj.len() && #[trigger] visited[v] && !is_src@[v] ==> {
                &&& prev[v] < adj.len()
                &&& visited[prev[v] as int]
                &&& dist@[v] == dist@[prev[v] as int] + 1
                &&& adj[prev[v] as int]@.contains(v as usize)
            },
    ensures
        is_rank_walk(adj@, out@),
        is_src@[out[0] as int],
        out[out.len() - 1] == target,
        out.len() == dist@[target as int] + 1,
{
    let n = adj.len();
    let mut path: Vec<usize> = Vec::new();
    path.push(target);
    let mut cursor = target;
    loop
        invariant
            n == adj.len(),
            adjacency_ok(adj@, n as int),
            cursor < n,
            visited.len() == n,
            prev.len() == n,
            dist@.len() == n,
            is_src@.len() == n,
            visited[cursor as int],
            path.len() >= 1,
            path[0] == target,
            path[path.len() - 1] == cursor,
            forall|k2: int| 0 <= k2 < path.len() ==> #[trigger] path[k2] < n,
            forall|k2: int| 0 <= k2 < path.len() - 1 ==> adj[path[k2 + 1] as int]@.contains(#[trigger] path[k2]),
            path.len() + dist@[cursor as int] == dist@[target as int] + 1,
            forall|v: int| 0 <= v < adj.len() && #[trigger] is_src@[v] ==> dist@[v] == 0,
            forall|v: int|
                0 <= v < n && #[trigger] visited[v] && !is_src@[v] ==> {
                    &&& prev[v] < n
                    &&& visited[prev[v] as int]
                    &&& dist@[v] == dist@[prev[v] as int] + 1
                    &&& adj[prev[v] as int]@.contains(v as usize)
                },
        ensures
            is_src@[cursor as int],
            path.len() == dist@[target as int] + 1,
            path.len() >= 1,
            path[0] == target,
            path[path.len() - 1] == cursor,
            forall|k2: int| 0 <= k2 < path.len() ==> #[trigger] path[k2] < n,
            forall|k2: int| 0 <= k2 < path.len() - 1 ==> adj[path[k2 + 1] as int]@.contains(#[trigger] path[k2]),
        decreases dist@[cursor as int],
    {
        if is_src[cursor] {
            break;
        }
        let back = prev[cursor];
        path.push(back);
        cursor = back;
    }
    let mut out: Vec<usize> = Vec::new();
    let mut i: usize = path.len();
    while i > 0
        invariant
            i <= path.len(),
            out@ == path@.reverse().take(path.len() - i),
        decreases i,
    {
        i = i - 1;
        out.push(path[i]);
        assert(out@ =~= path@.reverse().take(path.len() - i));
    }
    proof {
        assert(path@.reverse().take(path.len() as int) =~= path@.reverse());
        assert forall|k2: int| #![trigger out[k2]] 0 <= k2 < out.len() - 1 implies adj[out[k2] as int]@.contains(out[k2 + 1]) by {
            let m = path.len() - 1 - k2;
            assert(out[k2] == path[m]);
            assert(out[k2 + 1] == path[m - 1]);
        }
        assert(out[0] == path[path.len() - 1]);
        assert(out[out.len() - 1] == path[0]);
    }
    out
}

/// The predecessors the search records: each visited vertex that is no
/// source has a visited predecessor one step nearer, with an edge to it.
#[verifier::opaque]
pub open spec fn src_preds_ok(adj: Seq<Vec<usize>>, visited: Seq<bool>, prev: Seq<usize>, dist: Seq<nat>, is_src: Seq<bool>) -> bool {
    forall|v: int|
        0 <= v < adj.len() && #[trigger] visited[v] && !is_src[v] ==> {
            &&& prev[v] < adj.len()
            &&& visited[prev[v] as int]
            &&& dist[v] == dist[prev[v] as int] + 1
            &&& adj[prev[v] as int]@.contains(v as usize)
        }
}

/// During the search: the vertices that a walk from a source reaches within
/// `k` steps are visited at a distance of at most `k`, while `k` is no more
/// than the distance of the next vertex to expand (any `k` once every queued
/// vertex is expanded).
proof fn lemma_bfs_layers(
    adj: Seq<Vec<usize>>,
    queue: Seq<usize>,
    head: int,
    visited: Seq<bool>,
    dist: Seq<nat>,
    is_src: Seq<bool>,
    w: Seq<usize>,
    k: int,
)
    requires
        visited.len() == adj.len(),
        dist.len() == adj.len(),
        is_src.len() == adj.len(),
        forall|v: int| 0 <= v < adj.len() && #[trigger] is_src[v] ==> visited[v] && dist[v] == 0,
        0 <= head <= queue.len(),
        forall|q: int| 0 <= q < queue.len() ==> #[trigger] queue[q] < adj.len(),
        forall|v: int| 0 <= v < adj.len() && #[trigger] visited[v] ==> queue.contains(v as usize),
        expanded(adj, queue, visited, dist, head),
        queue_sorted(queue, dist),
        is_rank_walk(adj, w),
        is_src[w[0] as int],
        0 <= k < w.len(),
        head == queue.len() || k <= dist[queue[head] as int],
    ensures
        visited[w[k] as int],
        dist[w[k] as int] <= k,
    decreases k,
{
    reveal(expanded);
    reveal(queue_sorted);
    if k > 0 {
        lemma_bfs_layers(adj, queue, head, visited, dist, is_src, w, k - 1);
        let y = w[k - 1];
        assert(adj[y as int]@.contains(w[k]));
        let q = choose|q: int| 0 <= q < queue.len() && queue[q] == y;
        if q >= head {
            if q > head {
                assert(dist[queue[head] as int] <= dist[queue[q] as int]);
            }
        }
        let j = choose|j: int| 0 <= j < adj[y as int].len() && adj[y as int]@[j] == w[k];
        assert(adj[queue[q] as int][j] == w[k]);
    }
}

/// One step of the search: queuing an unvisited neighbor `nb` of `node` at
/// one more than `node`'s distance keeps the distance facts.
proof fn lemma_search_visit(
    adj: Seq<Vec<usize>>,
    node: usize,
    head: int,
    i: int,
    visited: Seq<bool>,
    prev: Seq<usize>,
    dist: Seq<nat>,
    is_src: Seq<bool>,
    queue: Seq<usize>,
    nb: usize,
)
    requires
        adjacency_ok(adj, adj.len() as int),
        node < adj.len(),
        visited.len() == adj.len(),
        prev.len() == adj.len(),
        dist.len() == adj.len(),
        is_src.len() == adj.len(),
        visited[node as int],
        !visited[nb as int],
        0 <= i < adj[node as int].len(),
        adj[node as int][i] == nb,
        0 <= head < queue.len(),
        queue[head] == node,
        forall|q: int| 0 <= q < queue.len() ==> #[trigger] queue[q] < adj.len() && visited[queue[q] as int],
        forall|v: int| 0 <= v < adj.len() && #[trigger] is_src[v] ==> visited[v] && dist[v] == 0,
        src_preds_ok(adj, visited, prev, dist, is_src),
        queue_sorted(queue, dist),
        forall|q: int| 0 <= q < queue.len() ==> dist[#[trigger] queue[q] as int] <= dist[node as int] + 1,
        expanded(adj, queue, visited, dist, head),
        forall|i2: int| 0 <= i2 < i ==> visited[#[trigger] adj[node as int][i2] as int] && dist[adj[node as int][i2] as int] <= dist[node as int] + 1,
    ensures
        ({
            let visited2 = visited.update(nb as int, true);
            let prev2 = prev.update(nb as int, node);
            let dist2 = dist.update(nb as int, dist[node as int] + 1);
            let queue2 = queue.push(nb);
            &&& forall|v: int| 0 <= v < adj.len() && #[trigger] is_src[v] ==> visited2[v] && dist2[v] == 0
            &&& src_preds_ok(adj, visited2, prev2, dist2, is_src)
            &&& queue_sorted(queue2, dist2)
            &&& forall|q: int| 0 <= q < queue2.len() ==> dist2[#[trigger] queue2[q] as int] <= dist2[node as int] + 1
            &&& expanded(adj, queue2, visited2, dist2, head)
            &&& forall|i2: int| 0 <= i2 < i + 1 ==> dist2[#[trigger] adj[node as int][i2] as int] <= dist2[node as int] + 1
            &&& dist2[node as int] == dist[node as int]
        }),
{
    let visited2 = visited.update(nb as int, true);
    let prev2 = prev.update(nb as int, node);
    let dist2 = dist.update(nb as int, dist[node as int] + 1);
    let queue2 = queue.push(nb);
    reveal(src_preds_ok);
    reveal(queue_sorted);
    reveal(expanded);
    assert(nb != node);
    assert(adj[node as int]@.contains(nb)) by {
        assert(adj[node as int]@[i] == nb);
    }
    assert forall|v: int|
        0 <= v < adj.len() && #[trigger] visited2[v] && !is_src[v] implies {
            &&& prev2[v] < adj.len()
            &&& visited2[prev2[v] as int]
            &&& dist2[v] == dist2[prev2[v] as int] + 1
            &&& adj[prev2[v] as int]@.contains(v as usize)
        } by {
        if v != nb {
            assert(visited[v]);
            assert(visited[prev[v] as int]);
        }
    }
    assert forall|q: int| 0 <= q < queue.len() implies dist2[#[trigger] queue[q] as int] == dist[queue[q] as int] by {
        assert(visited[queue[q] as int]);
    }
    assert forall|q1: int, q2: int| 0 <= q1 < q2 < queue2.len() implies dist2[#[trigger] queue2[q1] as int]
        <= dist2[#[trigger] queue2[q2] as int] by {
        assert(queue2[q1] == queue[q1]);
        assert(dist2[queue[q1] as int] == dist[queue[q1] as int]);
        if q2 < queue.len() {
            assert(queue2[q2] == queue[q2]);
            assert(dist2[queue[q2] as int] == dist[queue[q2] as int]);
        }
    }
    assert forall|q: int| 0 <= q < queue2.len() implies dist2[#[trigger] queue2[q] as int] <= dist2[node as int] + 1 by {
        if q < queue.len() {
            assert(queue2[q] == queue[q]);
            assert(dist2[queue[q] as int] == dist[queue[q] as int]);
        }
    }
    assert forall|q: int, j: int|
        0 <= q < head && 0 <= j < adj[queue2[q] as int].len() implies visited2[#[trigger] adj[queue2[q] as int][j] as int]
            && dist2[adj[queue2[q] as int][j] as int] <= dist2[queue2[q] as int] + 1 by {
        assert(queue2[q] == queue[q]);
        assert(visited[adj[queue[q] as int][j] as int]);
        assert(dist2[queue[q] as int] == dist[queue[q] as int]);
    }
    assert forall|i2: int| 0 <= i2 < i + 1 implies dist2[#[trigger] adj[node as int][i2] as int] <= dist2[node as int] + 1 by {
        if i2 < i {
            assert(visited[adj[node as int][i2] as int]);
        }
    }
    assert forall|v: int| 0 <= v < adj.len() && #[trigger] is_src[v] implies visited2[v] && dist2[v] == 0 by {
        assert(v != nb);
    }
}

/// Once the neighbors of the vertex at `head` are visited, at most one step
/// farther, the first `head + 1` vertices are expanded.
proof fn lemma_expand_done(adj: Seq<Vec<usize>>, queue: Seq<usize>, head: int, visited: Seq<bool>, dist: Seq<nat>)
    requires
        0 <= head < queue.len(),
        expanded(adj, queue, visited, dist, head),
        queue_sorted(queue, dist),
        forall|q: int| 0 <= q < queue.len() ==> dist[#[trigger] queue[q] as int] <= dist[queue[head] as int] + 1,
        forall|i2: int|
            0 <= i2 < adj[queue[head] as int].len() ==> visited[#[trigger] adj[queue[head] as int][i2] as int] && dist[adj[queue[head] as int][i2] as int]
                <= dist[queue[head] as int] + 1,
    ensures
        expanded(adj, queue, visited, dist, head + 1),
        head + 1 < queue.len() ==> forall|q: int| 0 <= q < queue.len() ==> dist[#[trigger] queue[q] as int] <= dist[queue[head + 1] as int] + 1,
{
    reveal(expanded);
    reveal(queue_sorted);
    if head + 1 < queue.len() {
        assert(dist[queue[head] as int] <= dist[queue[head + 1] as int]);
    }
}

/// A target taken from the queue is no farther than any walk from a source
/// to a target.
proof fn lemma_target_nearest(
    adj: Seq<Vec<usize>>,
    queue: Seq<usize>,
    head: int,
    visited: Seq<bool>,
    dist: Seq<nat>,
    is_src: Seq<bool>,
    sources: Seq<usize>,
    target: Seq<bool>,
)
    requires
        visited.len() == adj.len(),
        dist.len() == adj.len(),
        is_src.len() == adj.len(),
        target.len() == adj.len(),
        forall|v: int| 0 <= v < adj.len() ==> (#[trigger] is_src[v] <==> sources.contains(v as usize)),
        forall|v: int| 0 <= v < adj.len() && #[trigger] is_src[v] ==> visited[v] && dist[v] == 0,
        0 <= head < queue.len(),
        forall|q: int| 0 <= q < queue.len() ==> #[trigger] queue[q] < adj.len(),
        forall|v: int| 0 <= v < adj.len() && #[trigger] visited[v] ==> queue.contains(v as usize),
        expanded(adj, queue, visited, dist, head),
        queue_sorted(queue, dist),
        forall|q: int| 0 <= q < head ==> !target[#[trigger] queue[q] as int],
    ensures
        forall|w: Seq<usize>|
            #[trigger] is_rank_walk(adj, w) && sources.contains(w[0]) && target[w[w.len() - 1] as int] ==> dist[queue[head] as int]
                + 1 <= w.len(),
{
    assert forall|w: Seq<usize>|
        #[trigger] is_rank_walk(adj, w) && sources.contains(w[0]) && target[w[w.len() - 1] as int] implies dist[queue[head] as int]
        + 1 <= w.len() by {
        if w.len() - 1 < dist[queue[head] as int] {
            assert(w[0] < adj.len());
            lemma_bfs_layers(adj, queue, head, visited, dist, is_src, w, w.len() - 1);
            let q = choose|q: int| 0 <= q < queue.len() && queue[q] == w[w.len() - 1];
            if q < head {
                assert(!target[queue[q] as int]);
            } else if q > head {
                reveal(queue_sorted);
                assert(dist[queue[head] as int] <= dist[queue[q] as int]);
            }
        }
    }
}

/// Breadth-first search from the sources, neighbors in order, until a target
/// is taken from the queue. Gives the path to it, or, when none is reached,
/// the closed set of vertices reached.
#[verifier::rlimit(100)]
#[verifier::spinoff_prover]
pub(crate) fn bfs_search(adj: &Vec<Vec<usize>>, sources: &Vec<usize>, target: &Vec<bool>, is_src: &Vec<bool>) -> (r: (Option<Vec<usize>>, Vec<bool>))
    requires
        adjacency_ok(adj@, adj.len() as int),
        forall|i: int| 0 <= i < sources.len() ==> #[trigger] sources[i] < adj.len(),
        target.len() == adj.len(),
        is_src.len() == adj.len(),
        forall|v: int| 0 <= v < adj.len() ==> (#[trigger] is_src[v] <==> sources@.contains(v as usize)),
    ensures
        r.1.len() == adj.len(),
        forall|v: int| 0 <= v < adj.len() && #[trigger] r.1[v] ==> rank_reach(adj@, sources@, v as usize),
        r.0 matches Some(p) ==> is_rank_walk(adj@, p@) && sources@.contains(p[0]) && target[p[p.len() - 1] as int],
        r.0 matches Some(p) ==> forall|w: Seq<usize>|
            #[trigger] is_rank_walk(adj@, w) && sources@.contains(w[0]) && target[w[w.len() - 1] as int] ==> p.len() <= w.len(),
        r.0 is None ==> {
            &&& forall|i: int| 0 <= i < sources.len() ==> r.1[#[trigger] sources[i] as int]
            &&& forall|v: int, i: int| 0 <= v < adj.len() && r.1[v] && 0 <= i < adj[v].len() ==> r.1[#[trigger] adj[v][i] as int]
            &&& forall|v: int| 0 <= v < adj.len() && #[trigger] r.1[v] ==> !target[v]
        },
{
    let n = adj.len();
    let mut visited: Vec<bool> = Vec::new();
    let mut prev: Vec<usize> = Vec::new();
    let mut k: usize = 0;
    while k < n
        invariant
            k <= n,
            visited.len() == k,
            prev.len() == k,
            forall|x: int| 0 <= x < k ==> !visited[x],
        decreases n - k,
    {
        visited.push(false);
        prev.push(0);
        k = k + 1;
    }
    let ghost mut dist: Seq<nat> = Seq::new(n as nat, |x: int| 0nat);
    let mut queue: Vec<usize> = Vec::new();
    let mut i: usize = 0;
    while i < sources.len()
        invariant
            n == adj.len(),
            i <= sources.len(),
            forall|x: int| 0 <= x < sources.len() ==> #[trigger] sources[x] < n,
            visited.len() == n,
            queue.len() <= n,
            forall|q: int| 0 <= q < queue.len() ==> #[trigger] queue[q] < n && visited[queue[q] as int],
            forall|q1: int, q2: int| 0 <= q1 < q2 < queue.len() ==> queue[q1] != queue[q2],
            forall|v: int| 0 <= v < n && #[trigger] visited[v] ==> queue@.contains(v as usize),
            forall|v: int| 0 <= v < n && #[trigger] visited[v] ==> sources@.contains(v as usize),
            forall|x: int| 0 <= x < i ==> visited[#[trigger] sources[x] as int],
        decreases sources.len() - i,
    {
        let s = sources[i];
        if !visited[s] {
            proof {
                if queue@.contains(s) {
                    let q = choose|q: int| 0 <= q < queue.len() && queue[q] == s;
                    assert(visited[queue[q] as int]);
                }
                crate::cycles::lemma_distinct_indices_bound(queue@, n as int);
                if queue.len() == n {
                    crate::cycles::lemma_full_queue(queue@, n as int, s);
                }
            }
            let ghost old_queue = queue@;
            let ghost old_visited = visited@;
            visited.set(s, true);
            queue.push(s);
            proof {
                assert forall|v: int| 0 <= v < n && #[trigger] visited[v] implies queue@.contains(v as usize) by {
                    if v == s {
                        assert(queue[queue.len() - 1] == s);
                    } else {
                        assert(old_visited[v]);
                        let q = choose|q: int| 0 <= q < old_queue.len() && old_queue[q] == v as usize;
                        assert(queue[q] == old_queue[q]);
                    }
                }
                assert forall|v: int| 0 <= v < n && #[trigger] visited[v] implies sources@.contains(v as usize) by {
                    if v == s {
                        assert(sources@[i as int] == s);
                    } else {
                        assert(old_visited[v]);
                    }
                }
                assert forall|q: int| 0 <= q < queue.len() implies #[trigger] queue[q] < n && visited[queue[q] as int] by {
                    if q < old_queue.len() {
                        assert(queue[q] == old_queue[q]);
                    }
                }
                assert forall|q1: int, q2: int| 0 <= q1 < q2 < queue.len() implies queue[q1] != queue[q2] by {
                    if q2 == old_queue.len() {
                        assert(queue[q1] == old_queue[q1]);
                        assert(old_visited[old_queue[q1] as int]);
                    } else {
                        assert(queue[q1] == old_queue[q1]);
                        assert(queue[q2] == old_queue[q2]);
                    }
                }
            }
        }
        i = i + 1;
    }
    proof {
        assert forall|v: int| 0 <= v < n && #[trigger] visited[v] implies rank_reach(adj@, sources@, v as usize) by {
            let w = seq![v as usize];
            assert(is_rank_walk(adj@, w));
        }
        assert forall|v: int| 0 <= v < n && #[trigger] is_src[v] implies visited[v] && dist[v] == 0 by {
            let x = choose|x: int| 0 <= x < sources.len() && sources[x] == v as usize;
            assert(visited[sources[x] as int]);
        }
        reveal(src_preds_ok);
        reveal(queue_sorted);
        reveal(expanded);
        assert forall|v: int| 0 <= v < n && #[trigger] visited[v] implies is_src[v] by {
            assert(sources@.contains(v as usize));
        }
    }
    let mut head: usize = 0;
    while head < queue.len()
        invariant
            n == adj.len(),
            adjacency_ok(adj@, n as int),
            target.len() == n,
            is_src.len() == n,
            forall|v: int| 0 <= v < n ==> (#[trigger] is_src[v] <==> sources@.contains(v as usize)),
            forall|x: int| 0 <= x < sources.len() ==> #[trigger] sources[x] < n,
            visited.len() == n,
            prev.len() == n,
            dist.len() == n,
            head <= queue.len(),
            queue.len() <= n,
            forall|q: int| 0 <= q < queue.len() ==> #[trigger] queue[q] < n && visited[queue[q] as int],
            forall|q1: int, q2: int| 0 <= q1 < q2 < queue.len() ==> queue[q1] != queue[q2],
            forall|v: int| 0 <= v < n && #[trigger] visited[v] ==> queue@.contains(v as usize),
            forall|x: int| 0 <= x < sources.len() ==> visited[#[trigger] sources[x] as int],
            forall|v: int| 0 <= v < n && #[trigger] visited[v] ==> rank_reach(adj@, sources@, v as usize),
            src_preds_ok(adj@, visited@, prev@, dist, is_src@),
            forall|v: int| 0 <= v < n && #[trigger] is_src[v] ==> visited[v] && dist[v] == 0,
            queue_sorted(queue@, dist),
            head < queue.len() ==> forall|q: int| 0 <= q < queue.len() ==> dist[#[trigger] queue[q] as int] <= dist[queue[head as int] as int] + 1,
            expanded(adj@, queue@, visited@, dist, head as int),
            forall|q: int, i2: int|
                0 <= q < head && 0 <= i2 < adj[queue[q] as int].len() ==> visited[#[trigger] adj[queue[q] as int][i2] as int],
            forall|q: int| 0 <= q < head ==> !target[#[trigger] queue[q] as int],
        decreases n - head,
    {
        let node = queue[head];
        if target[node] {
            proof {
                lemma_target_nearest(adj@, queue@, head as int, visited@, dist, is_src@, sources@, target@);
                reveal(src_preds_ok);
            }
            let p = trace_to_source(adj, &visited, &prev, is_src, Ghost(dist), node);
            proof {
                assert(is_src[p[0] as int]);
            }
            return (Some(p), visited);
        }
        let row = &adj[node];
        let mut i: usize = 0;
        while i < row.len()
            invariant
                n == adj.len(),
                adjacency_ok(adj@, n as int),
                node < n,
                row == adj[node as int],
                is_src.len() == n,
                forall|v: int| 0 <= v < n ==> (#[trigger] is_src[v] <==> sources@.contains(v as usize)),
                visited.len() == n,
                prev.len() == n,
                dist.len() == n,
                visited[node as int],
                head < queue.len(),
                queue[head as int] == node,
                queue.len() <= n,
                i <= row.len(),
                forall|q: int| 0 <= q < queue.len() ==> #[trigger] queue[q] < n && visited[queue[q] as int],
                forall|q1: int, q2: int| 0 <= q1 < q2 < queue.len() ==> queue[q1] != queue[q2],
                forall|v: int| 0 <= v < n && #[trigger] visited[v] ==> queue@.contains(v as usize),
                forall|x: int| 0 <= x < sources.len() ==> visited[#[trigger] sources[x] as int],
                forall|v: int| 0 <= v < n && #[trigger] visited[v] ==> rank_reach(adj@, sources@, v as usize),
                src_preds_ok(adj@, visited@, prev@, dist, is_src@),
                forall|v: int| 0 <= v < n && #[trigger] is_src[v] ==> visited[v] && dist[v] == 0,
                queue_sorted(queue@, dist),
                forall|q: int| 0 <= q < queue.len() ==> dist[#[trigger] queue[q] as int] <= dist[node as int] + 1,
                expanded(adj@, queue@, visited@, dist, head as int),
                forall|i2: int| 0 <= i2 < i ==> dist[#[trigger] adj[node as int][i2] as int] <= dist[node as int] + 1,
                forall|q: int, i2: int|
                    0 <= q < head && 0 <= i2 < adj[queue[q] as int].len() ==> visited[#[trigger] adj[queue[q] as int][i2] as int],
                forall|i2: int| 0 <= i2 < i ==> visited[#[trigger] row[i2] as int],
                target.len() == n,
                !target[node as int],
                forall|q: int| 0 <= q < head ==> !target[#[trigger] queue[q] as int],
                forall|x: int| 0 <= x < sources.len() ==> #[trigger] sources[x] < n,
            decreases row.len() - i,
        {
            let nb = row[i];
            proof {
                assert(adj[node as int][i as int] < n);
            }
            if !visited[nb] {
                proof {
                    if queue@.contains(nb) {
                        let q = choose|q: int| 0 <= q < queue.len() && queue[q] == nb;
                        assert(visited[queue[q] as int]);
                    }
                    crate::cycles::lemma_distinct_indices_bound(queue@, n as int);
                    if queue.len() == n {
                        crate::cycles::lemma_full_queue(queue@, n as int, nb);
                    }
                    if is_src[nb as int] {
                        let x = choose|x: int| 0 <= x < sources.len() && sources[x] == nb;
                        assert(visited[sources[x] as int]);
                    }
                }
                let ghost old_visited = visited@;
                let ghost old_prev = prev@;
                let ghost old_queue = queue@;
                let ghost old_dist = dist;
                proof {
                    lemma_search_visit(adj@, node, head as int, i as int, old_visited, old_prev, old_dist, is_src@, old_queue, nb);
                }
                visited.set(nb, true);
                prev.set(nb, node);
                proof {
                    dist = dist.update(nb as int, dist[node as int] + 1);
                    assert(row@.contains(nb)) by {
                        assert(row@[i as int] == nb);
                    }
                    let w = choose|w: Seq<usize>| #[trigger] is_rank_walk(adj@, w) && sources@.contains(w[0]) && w[w.len() - 1] == node;
                    lemma_walk_push(adj@, w, nb);
                    assert(w.push(nb)[0] == w[0]);
                }
                queue.push(nb);
                proof {
                    assert forall|v: int| 0 <= v < n && #[trigger] visited[v] implies queue@.contains(v as usize) by {
                        if v == nb {
                            assert(queue[queue.len() - 1] == nb);
                        } else {
                            assert(old_visited[v]);
                            let q = choose|q: int| 0 <= q < old_queue.len() && old_queue[q] == v as usize;
                            assert(queue[q] == old_queue[q]);
                        }
                    }
                    assert forall|q: int| 0 <= q < queue.len() implies #[trigger] queue[q] < n && visited[queue[q] as int] by {
                        if q < old_queue.len() {
                            assert(queue[q] == old_queue[q]);
                        }
                    }
                    assert forall|q1: int, q2: int| 0 <= q1 < q2 < queue.len() implies queue[q1] != queue[q2] by {
                        if q2 == old_queue.len() {
                            assert(queue[q1] == old_queue[q1]);
                            assert(old_visited[old_queue[q1] as int]);
                        } else {
                            assert(queue[q1] == old_queue[q1]);
                            assert(queue[q2] == old_queue[q2]);
                        }
                    }
                    assert forall|v: int| 0 <= v < n && #[trigger] visited[v] implies rank_reach(adj@, sources@, v as usize) by {
                        if v != nb {
                            assert(old_visited[v]);
                        }
                    }
                    assert forall|q: int, i2: int|
                        0 <= q < head && 0 <= i2 < adj[queue[q] as int].len() implies visited[#[trigger] adj[queue[q] as int][i2] as int] by {
                        assert(queue[q] == old_queue[q]);
                        assert(old_visited[adj[old_queue[q] as int][i2] as int]);
                    }
                    assert forall|i2: int| 0 <= i2 < i + 1 implies visited[#[trigger] row[i2] as int] by {
                        if i2 < i {
                            assert(old_visited[row[i2] as int]);
                        }
                    }
                    assert forall|x: int| 0 <= x < sources.len() implies visited[#[trigger] sources[x] as int] by {
                        assert(old_visited[sources[x] as int]);
                    }
                    assert forall|q: int| 0 <= q < head implies !target[#[trigger] queue[q] as int] by {
                        assert(queue[q] == old_queue[q]);
                    }
                    assert(queue[head as int] == old_queue[head as int]);
                }
            } else {
                proof {
                    let q = choose|q: int| 0 <= q < queue.len() && queue[q] == nb;
                    assert(dist[queue[q] as int] <= dist[node as int] + 1);
                    assert(adj[node as int][i as int] == nb);
                }
            }
            i = i + 1;
        }
        proof {
            assert forall|i2: int|
                0 <= i2 < adj[queue[head as int] as int].len() implies visited[#[trigger] adj[queue[head as int] as int][i2] as int]
                    && dist[adj[queue[head as int] as int][i2] as int] <= dist[queue[head as int] as int] + 1 by {
                assert(row[i2] == adj[node as int][i2]);
            }
            lemma_expand_done(adj@, queue@, head as int, visited@, dist);
            assert forall|q: int, i2: int|
                0 <= q < head + 1 && 0 <= i2 < adj[queue[q] as int].len() implies visited[#[trigger] adj[queue[q] as int][i2] as int] by {
                if q == head {
                    assert(row[i2] == adj[node as int][i2]);
                }
            }
            assert forall|q: int| 0 <= q < head + 1 implies !target[#[trigger] queue[q] as int] by {
                if q == head {
                    assert(queue[q] == node);
                }
            }
        }
        head = head + 1;
    }
    proof {
        assert forall|v: int, i2: int| 0 <= v < n && visited[v] && 0 <= i2 < adj[v].len() implies visited[#[trigger] adj[v][i2] as int] by {
            let q = choose|q: int| 0 <= q < queue.len() && queue[q] == v as usize;
        }
        assert forall|v: int| 0 <= v < n && #[trigger] visited[v] implies !target[v] by {
            let q = choose|q: int| 0 <= q < queue.len() && queue[q] == v as usize;
        }
    }
    (None, visited)
}



// ---------------------------------------------------------------------
// Queries.
// ---------------------------------------------------------------------

/// The keys of a set of ranks.
pub open spec fn rank_key_set(uk: Seq<Vec<KeyAtom>>, rs: Seq<usize>) -> Set<Seq<AtomView>> {
    Set::new(|k: Seq<AtomView>| exists|i: int| 0 <= i < rs.len() && key_view(uk[rs[i] as int]@) == k)
}

/// The ranks of the local modules with this name, in node order, or the
/// error that names the nearest local modules.
fn resolve_modules(
    analysis: &DependencyGraphAnalysis,
    uk: &Vec<Vec<KeyAtom>>,
    un: &Vec<DependencyNode>,
    requested: &String,
) -> (r: Result<Vec<usize>, DependencyGraphQueryError>)
    requires
        universe_ok(*analysis, uk@, un@),
        names_fit(analysis.nodes@, requested@),
    ensures
        match r {
            Ok(rs) => {
                &&& rs.len() > 0
                &&& forall|i: int| 0 <= i < rs.len() ==> #[trigger] rs[i] < uk.len()
                &&& rank_key_set(uk@, rs@) == matching_keys(analysis.nodes@, requested@)
            },
            Err(e) => {
                &&& matching_keys(analysis.nodes@, requested@) == Set::<Seq<AtomView>>::empty()
                &&& e.module@ == requested@
                &&& suggestions_ok(requested@, analysis.nodes@, e.suggestions@.map_values(|s: String| s@))
            },
        },
{
    let nodes = &analysis.nodes;
    let mut rs: Vec<usize> = Vec::new();
    let mut i: usize = 0;
    while i < nodes.len()
        invariant
            i <= nodes.len(),
            nodes == &analysis.nodes,
            universe_ok(*analysis, uk@, un@),
            forall|x: int| 0 <= x < rs.len() ==> #[trigger] rs[x] < uk.len(),
            forall|k: Seq<AtomView>|
                rank_key_set(uk@, rs@).contains(k) <==> exists|y: int|
                    0 <= y < i && local_name(#[trigger] nodes[y]) == Some(requested@) && node_key(nodes[y]) == k,
        decreases nodes.len() - i,
    {
        let ghost old_rs = rs@;
        match &nodes[i] {
            DependencyNode::LocalModule(m) => {
                if crate::text::text_eq(m.id.qualified_name(), requested.as_str()) {
                    let k = nodes[i].key();
                    proof {
                        assert(nodes[i as int] is LocalModule);
                        let r0 = choose|r0: int| 0 <= r0 < uk.len() && key_view(#[trigger] uk[r0]@) == node_key(nodes[i as int]);
                        assert(key_view(uk[r0]@) == key_view(k@));
                    }
                    match crate::order::locate_key(uk, &k) {
                        Some(r) => {
                            rs.push(r);
                        },
                        None => {
                            proof {
                                let r0 = choose|r0: int| 0 <= r0 < uk.len() && key_view(#[trigger] uk[r0]@) == node_key(nodes[i as int]);
                                assert(key_view(uk[r0]@) != key_view(k@));
                            }
                        },
                    }
                }
            },
            _ => {},
        }
        proof {
            assert forall|k: Seq<AtomView>|
                rank_key_set(uk@, rs@).contains(k) <==> exists|y: int|
                    0 <= y < i + 1 && local_name(#[trigger] nodes[y]) == Some(requested@) && node_key(nodes[y]) == k by {
                if rank_key_set(uk@, rs@).contains(k) {
                    let x = choose|x: int| 0 <= x < rs.len() && key_view(uk[rs[x] as int]@) == k;
                    if x < old_rs.len() {
                        assert(rs[x] == old_rs[x]);
                        assert(rank_key_set(uk@, old_rs).contains(k));
                    }
                }
                if exists|y: int| 0 <= y < i + 1 && local_name(#[trigger] nodes[y]) == Some(requested@) && node_key(nodes[y]) == k {
                    let y = choose|y: int| 0 <= y < i + 1 && local_name(#[trigger] nodes[y]) == Some(requested@) && node_key(nodes[y]) == k;
                    if y < i {
                        assert(rank_key_set(uk@, old_rs).contains(k));
                        let x = choose|x: int| 0 <= x < old_rs.len() && key_view(uk[old_rs[x] as int]@) == k;
                        assert(rs[x] == old_rs[x]);
                    } else {
                        assert(rs[rs.len() - 1] < uk.len());
                        assert(key_view(uk[rs[rs.len() - 1] as int]@) == k);
                    }
                }
            }
        }
        i = i + 1;
    }
    if rs.len() == 0 {
        proof {
            assert(matching_keys(nodes@, requested@) =~= Set::<Seq<AtomView>>::empty()) by {
                assert forall|k: Seq<AtomView>| !matching_keys(nodes@, requested@).contains(k) by {
                    if matching_keys(nodes@, requested@).contains(k) {
                        assert(rank_key_set(uk@, rs@).contains(k));
                        let x = choose|x: int| 0 <= x < rs.len() && key_view(uk[rs[x] as int]@) == k;
                    }
                }
            }
        }
        return Err(DependencyGraphQueryError {
            module: copy_string(requested),
            suggestions: suggestions(requested.as_str(), nodes),
        });
    }
    proof {
        assert(rank_key_set(uk@, rs@) =~= matching_keys(nodes@, requested@));
    }
    Ok(rs)
}

proof fn lemma_walk_keys(
    analysis: DependencyGraphAnalysis,
    uk: Seq<Vec<KeyAtom>>,
    adj: Seq<Vec<usize>>,
    dir: DependencyQueryDirection,
    w: Seq<usize>,
)
    requires
        adj.len() == uk.len(),
        forall|a: int, b: usize|
            0 <= a < uk.len() && b < uk.len() ==> (#[trigger] adj[a]@.contains(b) <==> query_edge(
                analysis.relations@,
                dir,
                key_view(uk[a]@),
                key_view(uk[b as int]@),
            )),
        is_rank_walk(adj, w),
    ensures
        is_key_path(query_edge_fn(analysis.relations@, dir), w.map_values(|r: usize| key_view(uk[r as int]@))),
{
    let kw = w.map_values(|r: usize| key_view(uk[r as int]@));
    assert forall|k: int| #![trigger kw[k]] 0 <= k < kw.len() - 1 implies query_edge_fn(analysis.relations@, dir)(kw[k], kw[k + 1]) by {
        assert(adj[w[k] as int]@.contains(w[k + 1]));
    }
}

/// The far end of an edge from a key of the universe has a rank, and the
/// adjacency lists it.
proof fn lemma_edge_step(
    analysis: DependencyGraphAnalysis,
    uk: Seq<Vec<KeyAtom>>,
    un: Seq<DependencyNode>,
    adj: Seq<Vec<usize>>,
    dir: DependencyQueryDirection,
    a: int,
    last: Seq<AtomView>,
)
    requires
        universe_ok(analysis, uk, un),
        uk.len() <= usize::MAX,
        adj.len() == uk.len(),
        forall|a2: int, b: usize|
            0 <= a2 < uk.len() && b < uk.len() ==> (#[trigger] adj[a2]@.contains(b) <==> query_edge(
                analysis.relations@,
                dir,
                key_view(uk[a2]@),
                key_view(uk[b as int]@),
            )),
        0 <= a < uk.len(),
        query_edge(analysis.relations@, dir, key_view(uk[a]@), last),
    ensures
        exists|b: usize| b < uk.len() && key_view(uk[b as int]@) == last && #[trigger] adj[a]@.contains(b),
{
    let rels = analysis.relations@;
    let j = choose|j: int|
        0 <= j < rels.len() && is_query_relation(#[trigger] rels[j]) && match dir {
            DependencyQueryDirection::Dependencies => node_key(rels[j].source) == key_view(uk[a]@) && node_key(rels[j].target) == last,
            DependencyQueryDirection::Dependents => node_key(rels[j].target) == key_view(uk[a]@) && node_key(rels[j].source) == last,
        };
    assert(is_query_relation(analysis.relations[j]));
    let b: int = match dir {
        DependencyQueryDirection::Dependencies => {
            choose|b: int| 0 <= b < uk.len() && key_view(#[trigger] uk[b]@) == node_key(analysis.relations[j].target)
        },
        DependencyQueryDirection::Dependents => {
            choose|b: int| 0 <= b < uk.len() && key_view(#[trigger] uk[b]@) == node_key(analysis.relations[j].source)
        },
    };
    assert(0 <= b < uk.len() && key_view(uk[b]@) == last);
    assert(query_edge(rels, dir, key_view(uk[a]@), key_view(uk[(b as usize) as int]@)));
    assert(adj[a]@.contains(b as usize));
}

/// Everything reachable from the sources along the adjacency lies in a
/// closed set that holds the sources.
proof fn lemma_closed_holds_reach(
    analysis: DependencyGraphAnalysis,
    uk: Seq<Vec<KeyAtom>>,
    un: Seq<DependencyNode>,
    adj: Seq<Vec<usize>>,
    dir: DependencyQueryDirection,
    sources: Seq<usize>,
    visited: Seq<bool>,
    w: Seq<Seq<AtomView>>,
)
    requires
        universe_ok(analysis, uk, un),
        uk.len() <= usize::MAX,
        adjacency_ok(adj, uk.len() as int),
        forall|a: int, b: usize|
            0 <= a < uk.len() && b < uk.len() ==> (#[trigger] adj[a]@.contains(b) <==> query_edge(
                analysis.relations@,
                dir,
                key_view(uk[a]@),
                key_view(uk[b as int]@),
            )),
        visited.len() == uk.len(),
        forall|i: int| 0 <= i < sources.len() ==> #[trigger] sources[i] < uk.len() && visited[sources[i] as int],
        forall|v: int, i: int| 0 <= v < uk.len() && visited[v] && 0 <= i < adj[v].len() ==> visited[#[trigger] adj[v][i] as int],
        is_key_path(query_edge_fn(analysis.relations@, dir), w),
        rank_key_set(uk, sources).contains(w[0]),
    ensures
        exists|r: int| 0 <= r < uk.len() && visited[r] && key_view(#[trigger] uk[r]@) == w[w.len() - 1],
    decreases w.len(),
{
    if w.len() == 1 {
        let i = choose|i: int| 0 <= i < sources.len() && key_view(uk[sources[i] as int]@) == w[0];
        let r = sources[i] as int;
        assert(visited[r]);
        assert(0 <= r < uk.len() && visited[r] && key_view(uk[r]@) == w[w.len() - 1]);
    } else {
        let v = w.drop_last();
        assert forall|k: int| #![trigger v[k]] 0 <= k < v.len() - 1 implies query_edge_fn(analysis.relations@, dir)(v[k], v[k + 1]) by {
            assert(w[k] == v[k]);
            assert(query_edge_fn(analysis.relations@, dir)(w[k], w[k + 1]));
        }
        lemma_closed_holds_reach(analysis, uk, un, adj, dir, sources, visited, v);
        let a = choose|a: int| 0 <= a < uk.len() && visited[a] && key_view(#[trigger] uk[a]@) == v[v.len() - 1];
        let last = w[w.len() - 1];
        assert(query_edge_fn(analysis.relations@, dir)(w[w.len() - 2], last));
        lemma_edge_step(analysis, uk, un, adj, dir, a, last);
        let b = choose|b: usize| b < uk.len() && key_view(uk[b as int]@) == last && #[trigger] adj[a]@.contains(b);
        let i = choose|i: int| 0 <= i < adj[a].len() && adj[a][i] == b;
        assert(visited[adj[a][i] as int]);
        assert(0 <= b < uk.len() && visited[b as int] && key_view(uk[b as int]@) == w[w.len() - 1]);
    }
}

/// What the answer to a query is.
pub open spec fn query_answer(
    analysis: DependencyGraphAnalysis,
    query: QueryView,
    r: Result<DependencyGraphQueryResult, DependencyGraphQueryError>,
) -> bool {
    let nodes = analysis.nodes@;
    let rels = analysis.relations@;
    match query {
        QueryView::ShortestPath { from, to } => {
            let starts = matching_keys(nodes, from);
            let ends = matching_keys(nodes, to);
            let edge = query_edge_fn(rels, DependencyQueryDirection::Dependencies);
            if starts == Set::<Seq<AtomView>>::empty() {
                r matches Err(e) && e.module@ == from && suggestions_ok(from, nodes, e.suggestions@.map_values(|s: String| s@))
            } else if ends == Set::<Seq<AtomView>>::empty() {
                r matches Err(e) && e.module@ == to && suggestions_ok(to, nodes, e.suggestions@.map_values(|s: String| s@))
            } else {
                r matches Ok(res) && res.query@ == query && path_answer(rels, starts, ends, res)
            }
        },
        QueryView::Closure { module, direction } => {
            let roots = matching_keys(nodes, module);
            let edge = query_edge_fn(rels, direction);
            if roots == Set::<Seq<AtomView>>::empty() {
                r matches Err(e) && e.module@ == module && suggestions_ok(module, nodes, e.suggestions@.map_values(|s: String| s@))
            } else {
                r matches Ok(res) && {
                    &&& res.query@ == query
                    &&& res.found
                    &&& sorted_nodes(res.nodes@)
                    &&& forall|k: Seq<AtomView>| lists_key(res.nodes@, k) <==> reaches_from(edge, roots, k)
                    &&& res.relations@.map_values(|c: DependencyRelation| relation_view(c)) == kept_views(
                        rels,
                        closure_pred(edge, roots),
                    )
                }
            }
        },
    }
}

/// The answer to a path query between the keys `starts` and `ends`: found
/// exactly when some end is reachable, and then a path from a start to an
/// end with the relation of each step; otherwise the starts and ends.
pub open spec fn path_answer(
    rels: Seq<DependencyRelation>,
    starts: Set<Seq<AtomView>>,
    ends: Set<Seq<AtomView>>,
    res: DependencyGraphQueryResult,
) -> bool {
    let edge = query_edge_fn(rels, DependencyQueryDirection::Dependencies);
    let pk = res.nodes@.map_values(|n: DependencyNode| node_key(n));
    &&& res.found <==> exists|k: Seq<AtomView>| #[trigger] ends.contains(k) && reaches_from(edge, starts, k)
    &&& res.found ==> {
        &&& is_key_path(edge, pk)
        &&& starts.contains(pk[0])
        &&& ends.contains(pk[pk.len() - 1])
        &&& res.relations.len() == pk.len() - 1
        &&& forall|k: int|
            0 <= k < res.relations.len() ==> relation_view(#[trigger] res.relations[k]) == relation_view(
                rels[first_exact(rels, pk[k], pk[k + 1])],
            )
        &&& forall|c: Seq<Seq<AtomView>>|
            #[trigger] is_key_path(edge, c) && starts.contains(c[0]) && ends.contains(c[c.len() - 1]) ==> pk.len() <= c.len()
    }
    &&& !res.found ==> {
        &&& sorted_nodes(res.nodes@)
        &&& forall|k: Seq<AtomView>| lists_key(res.nodes@, k) <==> (starts.contains(k) || ends.contains(k))
        &&& res.relations.len() == 0
    }
}

/// A query relation between two reached modules.
pub open spec fn closure_pred(
    edge: spec_fn(Seq<AtomView>, Seq<AtomView>) -> bool,
    roots: Set<Seq<AtomView>>,
) -> spec_fn(DependencyRelation) -> bool {
    |r: DependencyRelation|
        is_query_relation(r) && reaches_from(edge, roots, node_key(r.source)) && reaches_from(edge, roots, node_key(r.target))
}

/// `j` is the first exact relation from `a` to `b`.
pub open spec fn is_first_exact(rels: Seq<DependencyRelation>, a: Seq<AtomView>, b: Seq<AtomView>, j: int) -> bool {
    &&& 0 <= j < rels.len()
    &&& rels[j].kind == DependencyRelationKind::Exact && node_key(rels[j].source) == a && node_key(rels[j].target) == b
    &&& forall|j2: int|
        0 <= j2 < j ==> !((#[trigger] rels[j2]).kind == DependencyRelationKind::Exact && node_key(rels[j2].source) == a
            && node_key(rels[j2].target) == b)
}

pub open spec fn first_exact(rels: Seq<DependencyRelation>, a: Seq<AtomView>, b: Seq<AtomView>) -> int {
    choose|j: int| is_first_exact(rels, a, b, j)
}


fn rank_flags(u: usize, rs: &Vec<usize>) -> (flags: Vec<bool>)
    requires
        forall|i: int| 0 <= i < rs.len() ==> #[trigger] rs[i] < u,
    ensures
        flags.len() == u,
        forall|v: int| 0 <= v < u ==> (#[trigger] flags[v] <==> rs@.contains(v as usize)),
{
    let mut flags: Vec<bool> = Vec::new();
    let mut v: usize = 0;
    while v < u
        invariant
            v <= u,
            flags.len() == v,
            forall|x: int| 0 <= x < v ==> !flags[x],
        decreases u - v,
    {
        flags.push(false);
        v = v + 1;
    }
    let mut i: usize = 0;
    while i < rs.len()
        invariant
            i <= rs.len(),
            flags.len() == u,
            forall|x: int| 0 <= x < rs.len() ==> #[trigger] rs[x] < u,
            forall|x: int| 0 <= x < u ==> (#[trigger] flags[x] <==> rs@.take(i as int).contains(x as usize)),
        decreases rs.len() - i,
    {
        let ghost before = flags@;
        flags.set(rs[i], true);
        proof {
            let t = rs@.take(i + 1);
            assert forall|x: int| 0 <= x < u implies (#[trigger] flags[x] <==> t.contains(x as usize)) by {
                assert(before[x] <==> rs@.take(i as int).contains(x as usize));
                if t.contains(x as usize) {
                    let y = choose|y: int| 0 <= y < t.len() && t[y] == x as usize;
                    if y < i {
                        assert(rs@.take(i as int)[y] == t[y]);
                    }
                }
                if rs@.take(i as int).contains(x as usize) {
                    let y = choose|y: int| 0 <= y < i && rs@.take(i as int)[y] == x as usize;
                    assert(t[y] == rs@.take(i as int)[y]);
                }
                if x == rs[i as int] {
                    assert(t[i as int] == rs[i as int]);
                }
            }
        }
        i = i + 1;
    }
    proof {
        assert(rs@.take(rs.len() as int) =~= rs@);
    }
    flags
}

/// The nodes of the flagged ranks, in rank order.
fn nodes_of_ranks(uk: &Vec<Vec<KeyAtom>>, un: &Vec<DependencyNode>, flags: &Vec<bool>) -> (nodes: Vec<DependencyNode>)
    requires
        strictly_sorted_keys(uk@),
        un.len() == uk.len(),
        flags.len() == uk.len(),
        forall|r: int| 0 <= r < uk.len() ==> node_key(#[trigger] un[r]) == key_view(uk[r]@),
    ensures
        sorted_nodes(nodes@),
        forall|k: Seq<AtomView>| lists_key(nodes@, k) <==> exists|r: int| 0 <= r < uk.len() && flags[r] && key_view(#[trigger] uk[r]@) == k,
{
    let mut nodes: Vec<DependencyNode> = Vec::new();
    let ghost mut from: Seq<int> = Seq::empty();
    let mut r: usize = 0;
    while r < uk.len()
        invariant
            r <= uk.len(),
            strictly_sorted_keys(uk@),
            un.len() == uk.len(),
            flags.len() == uk.len(),
            forall|x: int| 0 <= x < uk.len() ==> node_key(#[trigger] un[x]) == key_view(uk[x]@),
            from.len() == nodes.len(),
            forall|p: int| 0 <= p < from.len() ==> 0 <= #[trigger] from[p] < r && flags[from[p]] && node_key(nodes[p]) == key_view(uk[from[p]]@),
            forall|p: int, q: int| 0 <= p < q < from.len() ==> from[p] < from[q],
            forall|x: int| 0 <= x < r && #[trigger] flags[x] ==> exists|p: int| 0 <= p < from.len() && from[p] == x,
        decreases uk.len() - r,
    {
        if flags[r] {
            let ghost old_from = from;
            nodes.push(un[r].copy());
            proof {
                from = from.push(r as int);
                assert forall|x: int| 0 <= x < r + 1 && #[trigger] flags[x] implies exists|p: int| 0 <= p < from.len() && from[p] == x by {
                    if x < r {
                        let p = choose|p: int| 0 <= p < old_from.len() && old_from[p] == x;
                        assert(from[p] == x);
                    } else {
                        assert(from[from.len() - 1] == x);
                    }
                }
            }
        }
        r = r + 1;
    }
    proof {
        assert forall|a: int, b: int| 0 <= a < b < nodes.len() implies key_compare(node_key(nodes[a]), node_key(nodes[b])) == -1 by {
            assert(from[a] < from[b]);
        }
        assert forall|k: Seq<AtomView>| lists_key(nodes@, k) <==> exists|x: int| 0 <= x < uk.len() && flags[x] && key_view(#[trigger] uk[x]@) == k by {
            if lists_key(nodes@, k) {
                let p = choose|p: int| 0 <= p < nodes.len() && node_key(nodes[p]) == k;
                assert(key_view(uk[from[p]]@) == k);
            }
            if exists|x: int| 0 <= x < uk.len() && flags[x] && key_view(#[trigger] uk[x]@) == k {
                let x = choose|x: int| 0 <= x < uk.len() && flags[x] && key_view(#[trigger] uk[x]@) == k;
                let p = choose|p: int| 0 <= p < from.len() && from[p] == x;
                assert(node_key(nodes[p]) == k);
            }
        }
    }
    nodes
}


/// Rank walks give key paths from the sources, so their ends are reachable.
proof fn lemma_rank_reach_keys(
    analysis: DependencyGraphAnalysis,
    uk: Seq<Vec<KeyAtom>>,
    adj: Seq<Vec<usize>>,
    dir: DependencyQueryDirection,
    sources: Seq<usize>,
    v: usize,
)
    requires
        adj.len() == uk.len(),
        forall|a: int, b: usize|
            0 <= a < uk.len() && b < uk.len() ==> (#[trigger] adj[a]@.contains(b) <==> query_edge(
                analysis.relations@,
                dir,
                key_view(uk[a]@),
                key_view(uk[b as int]@),
            )),
        rank_reach(adj, sources, v),
    ensures
        reaches_from(query_edge_fn(analysis.relations@, dir), rank_key_set(uk, sources), key_view(uk[v as int]@)),
{
    let w = choose|w: Seq<usize>| #[trigger] is_rank_walk(adj, w) && sources.contains(w[0]) && w[w.len() - 1] == v;
    lemma_walk_keys(analysis, uk, adj, dir, w);
    let kw = w.map_values(|r: usize| key_view(uk[r as int]@));
    let i = choose|i: int| 0 <= i < sources.len() && sources[i] == w[0];
    assert(rank_key_set(uk, sources).contains(kw[0]));
    assert(kw[kw.len() - 1] == key_view(uk[v as int]@));
}

/// The first exact relation along each step of a path.
fn path_relations(
    analysis: &DependencyGraphAnalysis,
    uk: &Vec<Vec<KeyAtom>>,
    un: &Vec<DependencyNode>,
    p: &Vec<usize>,
    pk: Ghost<Seq<Seq<AtomView>>>,
) -> (relations: Vec<DependencyRelation>)
    requires
        universe_ok(*analysis, uk@, un@),
        p.len() >= 1,
        forall|x: int| 0 <= x < p.len() ==> #[trigger] p[x] < uk.len(),
        pk@ == p@.map_values(|r: usize| key_view(uk[r as int]@)),
        is_key_path(query_edge_fn(analysis.relations@, DependencyQueryDirection::Dependencies), pk@),
    ensures
        relations.len() == p.len() - 1,
        forall|x: int|
            0 <= x < relations.len() ==> relation_view(#[trigger] relations[x]) == relation_view(
                analysis.relations[first_exact(analysis.relations@, pk@[x], pk@[x + 1])],
            ),
{
    let rels = &analysis.relations;
    let ghost edge = query_edge_fn(rels@, DependencyQueryDirection::Dependencies);
    let ghost pk = pk@;
    let (sr, tr) = relation_ranks(uk, rels);
    let mut relations: Vec<DependencyRelation> = Vec::new();
    let mut k: usize = 0;
    while k + 1 < p.len()
        invariant
            k < p.len(),
            rels == &analysis.relations,
            universe_ok(*analysis, uk@, un@),
            sr.len() == rels.len(),
            tr.len() == rels.len(),
            forall|j: int| 0 <= j < rels.len() ==> rank_is(uk@, #[trigger] sr[j], node_key(rels[j].source)),
            forall|j: int| 0 <= j < rels.len() ==> rank_is(uk@, #[trigger] tr[j], node_key(rels[j].target)),
            is_key_path(edge, pk),
            edge == query_edge_fn(rels@, DependencyQueryDirection::Dependencies),
            pk == p@.map_values(|r: usize| key_view(uk[r as int]@)),
            forall|x: int| 0 <= x < p.len() ==> #[trigger] p[x] < uk.len(),
            relations.len() == k,
            forall|x: int|
                0 <= x < k ==> relation_view(#[trigger] relations[x]) == relation_view(
                    rels[first_exact(rels@, pk[x], pk[x + 1])],
                ),
        decreases p.len() - k,
    {
        let a = p[k];
        let b = p[k + 1];
        let ghost ka = key_view(uk[a as int]@);
        let ghost kb = key_view(uk[b as int]@);
        proof {
            assert(pk[k as int] == ka);
            assert(pk[k + 1] == kb);
            assert(edge(pk[k as int], pk[k + 1]));
        }
        let mut j: usize = 0;
        let mut pick: Option<usize> = None;
        while j < rels.len()
            invariant
                j <= rels.len(),
                a < uk.len(),
                b < uk.len(),
                ka == key_view(uk[a as int]@),
                kb == key_view(uk[b as int]@),
                strictly_sorted_keys(uk@),
                sr.len() == rels.len(),
                tr.len() == rels.len(),
                forall|x: int| 0 <= x < rels.len() ==> rank_is(uk@, #[trigger] sr[x], node_key(rels[x].source)),
                forall|x: int| 0 <= x < rels.len() ==> rank_is(uk@, #[trigger] tr[x], node_key(rels[x].target)),
                pick matches Some(x) ==> is_first_exact(rels@, ka, kb, x as int),
                pick is None ==> forall|x: int|
                    0 <= x < j ==> !((#[trigger] rels[x]).kind == DependencyRelationKind::Exact && node_key(rels[x].source)
                        == ka && node_key(rels[x].target) == kb),
            decreases rels.len() - j,
        {
            if pick.is_none() {
                let hit = rels[j].kind == DependencyRelationKind::Exact && sr[j] == Some(a) && tr[j] == Some(b);
                proof {
                    if rels[j as int].kind == DependencyRelationKind::Exact && node_key(rels[j as int].source) == ka
                        && node_key(rels[j as int].target) == kb {
                        if let Some(x) = sr[j as int] {
                            crate::cycles::lemma_rank_unique(uk@, x as int, a as int);
                        }
                        if let Some(y) = tr[j as int] {
                            crate::cycles::lemma_rank_unique(uk@, y as int, b as int);
                        }
                    }
                }
                if hit {
                    pick = Some(j);
                }
            }
            j = j + 1;
        }
        match pick {
            Some(x) => {
                proof {
                    let y = first_exact(rels@, ka, kb);
                    assert(is_first_exact(rels@, ka, kb, x as int));
                    assert(is_first_exact(rels@, ka, kb, y));
                    if y < x as int {
                        assert(!((rels[y]).kind == DependencyRelationKind::Exact && node_key(rels[y].source) == ka
                            && node_key(rels[y].target) == kb));
                    } else if (x as int) < y {
                        assert(!((rels[x as int]).kind == DependencyRelationKind::Exact && node_key(rels[x as int].source) == ka
                            && node_key(rels[x as int].target) == kb));
                    }
                }
                relations.push(copy_relation(&rels[x]));
            },
            None => {
                proof {
                    let x = choose|x: int|
                        0 <= x < rels.len() && is_query_relation(#[trigger] rels[x]) && node_key(rels[x].source) == ka
                            && node_key(rels[x].target) == kb;
                    assert(rels[x].kind == DependencyRelationKind::Exact);
                    assert(false);
                }
                relations.push(copy_relation(&rels[0]));
            },
        }
        k = k + 1;
    }
    relations
}

/// The ranks along a path of keys from a ranked key, along the dependency
/// direction, form a walk of the same length.
proof fn lemma_ranks_of_path(
    analysis: DependencyGraphAnalysis,
    uk: Seq<Vec<KeyAtom>>,
    un: Seq<DependencyNode>,
    adj: Seq<Vec<usize>>,
    c: Seq<Seq<AtomView>>,
    r0: usize,
) -> (w: Seq<usize>)
    requires
        universe_ok(analysis, uk, un),
        uk.len() <= usize::MAX,
        adj.len() == uk.len(),
        forall|a2: int, b: usize|
            0 <= a2 < uk.len() && b < uk.len() ==> (#[trigger] adj[a2]@.contains(b) <==> query_edge(
                analysis.relations@,
                DependencyQueryDirection::Dependencies,
                key_view(uk[a2]@),
                key_view(uk[b as int]@),
            )),
        is_key_path(query_edge_fn(analysis.relations@, DependencyQueryDirection::Dependencies), c),
        r0 < uk.len(),
        key_view(uk[r0 as int]@) == c[0],
    ensures
        is_rank_walk(adj, w),
        w.len() == c.len(),
        w[0] == r0,
        forall|k: int| 0 <= k < c.len() ==> key_view(uk[#[trigger] w[k] as int]@) == c[k],
    decreases c.len(),
{
    if c.len() == 1 {
        let w = seq![r0];
        assert(is_rank_walk(adj, w));
        w
    } else {
        let c0 = c.drop_last();
        assert forall|k: int| #![trigger c0[k]] 0 <= k < c0.len() - 1 implies query_edge_fn(
            analysis.relations@,
            DependencyQueryDirection::Dependencies,
        )(c0[k], c0[k + 1]) by {
            assert(c0[k] == c[k] && c0[k + 1] == c[k + 1]);
        }
        let w0 = lemma_ranks_of_path(analysis, uk, un, adj, c0, r0);
        let a = w0[w0.len() - 1];
        assert(key_view(uk[a as int]@) == c[c.len() - 2]);
        assert(query_edge_fn(analysis.relations@, DependencyQueryDirection::Dependencies)(c[c.len() - 2], c[c.len() - 1]));
        lemma_edge_step(analysis, uk, un, adj, DependencyQueryDirection::Dependencies, a as int, c[c.len() - 1]);
        let b = choose|b: usize| b < uk.len() && key_view(uk[b as int]@) == c[c.len() - 1] && #[trigger] adj[a as int]@.contains(b);
        lemma_walk_push(adj, w0, b);
        let w = w0.push(b);
        assert forall|k: int| 0 <= k < c.len() implies key_view(uk[#[trigger] w[k] as int]@) == c[k] by {
            if k < c.len() - 1 {
                assert(w[k] == w0[k]);
            }
        }
        w
    }
}

fn path_found(
    analysis: &DependencyGraphAnalysis,
    uk: &Vec<Vec<KeyAtom>>,
    un: &Vec<DependencyNode>,
    adj: &Vec<Vec<usize>>,
    query: &DependencyGraphQuery,
    starts: &Vec<usize>,
    ends: &Vec<usize>,
    target: &Vec<bool>,
    p: Vec<usize>,
) -> (res: DependencyGraphQueryResult)
    requires
        universe_ok(*analysis, uk@, un@),
        adj.len() == uk.len(),
        forall|a: int, b: usize|
            0 <= a < uk.len() && b < uk.len() ==> (#[trigger] adj[a]@.contains(b) <==> query_edge(
                analysis.relations@,
                DependencyQueryDirection::Dependencies,
                key_view(uk[a]@),
                key_view(uk[b as int]@),
            )),
        rank_key_set(uk@, starts@) == matching_keys(analysis.nodes@, query@->ShortestPath_from),
        rank_key_set(uk@, ends@) == matching_keys(analysis.nodes@, query@->ShortestPath_to),
        target.len() == uk.len(),
        forall|v: int| 0 <= v < uk.len() ==> (#[trigger] target[v] <==> ends@.contains(v as usize)),
        is_rank_walk(adj@, p@),
        starts@.contains(p[0]),
        target[p[p.len() - 1] as int],
        forall|w: Seq<usize>|
            #[trigger] is_rank_walk(adj@, w) && starts@.contains(w[0]) && target[w[w.len() - 1] as int] ==> p.len() <= w.len(),
        uk.len() <= usize::MAX,
        forall|i: int| 0 <= i < starts.len() ==> #[trigger] starts[i] < uk.len(),
        forall|i: int| 0 <= i < ends.len() ==> #[trigger] ends[i] < uk.len(),
    ensures
        res.query@ == query@,
        path_answer(
            analysis.relations@,
            matching_keys(analysis.nodes@, query@->ShortestPath_from),
            matching_keys(analysis.nodes@, query@->ShortestPath_to),
            res,
        ),
{
    let ghost starts_k = matching_keys(analysis.nodes@, query@->ShortestPath_from);
    let ghost ends_k = matching_keys(analysis.nodes@, query@->ShortestPath_to);
    let ghost edge = query_edge_fn(analysis.relations@, DependencyQueryDirection::Dependencies);
    let mut nodes: Vec<DependencyNode> = Vec::new();
    let mut k: usize = 0;
    while k < p.len()
        invariant
            k <= p.len(),
            un.len() == uk.len(),
            forall|x: int| 0 <= x < uk.len() ==> node_key(#[trigger] un[x]) == key_view(uk[x]@),
            forall|x: int| 0 <= x < p.len() ==> #[trigger] p[x] < uk.len(),
            nodes.len() == k,
            forall|x: int| 0 <= x < k ==> node_key(#[trigger] nodes[x]) == key_view(uk[p[x] as int]@),
        decreases p.len() - k,
    {
        nodes.push(un[p[k]].copy());
        k = k + 1;
    }
    let ghost pk = nodes@.map_values(|n: DependencyNode| node_key(n));
    proof {
        lemma_walk_keys(*analysis, uk@, adj@, DependencyQueryDirection::Dependencies, p@);
        assert(pk =~= p@.map_values(|r: usize| key_view(uk[r as int]@)));
    }
    let relations = path_relations(analysis, uk, un, &p, Ghost(pk));
    let res = DependencyGraphQueryResult { query: query.copy(), found: true, nodes, relations };
    proof {
        assert(starts_k.contains(pk[0])) by {
            let i = choose|i: int| 0 <= i < starts.len() && starts[i] == p[0];
            assert(rank_key_set(uk@, starts@).contains(pk[0]));
        }
        assert(ends_k.contains(pk[pk.len() - 1])) by {
            assert(target[p[p.len() - 1] as int]);
            let i = choose|i: int| 0 <= i < ends.len() && ends[i] == p[p.len() - 1];
            assert(rank_key_set(uk@, ends@).contains(pk[pk.len() - 1]));
        }
        assert(reaches_from(edge, starts_k, pk[pk.len() - 1]));
        assert(ends_k.contains(pk[pk.len() - 1]) && reaches_from(edge, starts_k, pk[pk.len() - 1]));
        assert forall|c: Seq<Seq<AtomView>>|
            #[trigger] is_key_path(edge, c) && starts_k.contains(c[0]) && ends_k.contains(c[c.len() - 1]) implies pk.len()
            <= c.len() by {
            assert(rank_key_set(uk@, starts@).contains(c[0]));
            let i = choose|i: int| 0 <= i < starts.len() && key_view(uk[starts[i] as int]@) == c[0];
            let w = lemma_ranks_of_path(*analysis, uk@, un@, adj@, c, starts[i]);
            assert(starts@.contains(w[0]));
            assert(rank_key_set(uk@, ends@).contains(c[c.len() - 1]));
            let j = choose|j: int| 0 <= j < ends.len() && key_view(uk[ends[j] as int]@) == c[c.len() - 1];
            crate::cycles::lemma_rank_unique(uk@, ends[j] as int, w[w.len() - 1] as int);
            assert(ends@.contains(w[w.len() - 1]));
            assert(target[w[w.len() - 1] as int]);
        }
        assert(res.nodes@.map_values(|n: DependencyNode| node_key(n)) == pk);
    }
    res
}

fn path_missing(
    analysis: &DependencyGraphAnalysis,
    uk: &Vec<Vec<KeyAtom>>,
    un: &Vec<DependencyNode>,
    adj: &Vec<Vec<usize>>,
    query: &DependencyGraphQuery,
    starts: &Vec<usize>,
    ends: &Vec<usize>,
    is_src: &Vec<bool>,
    target: &Vec<bool>,
    visited: &Vec<bool>,
) -> (res: DependencyGraphQueryResult)
    requires
        universe_ok(*analysis, uk@, un@),
        uk.len() <= usize::MAX,
        adjacency_ok(adj@, uk.len() as int),
        forall|a: int, b: usize|
            0 <= a < uk.len() && b < uk.len() ==> (#[trigger] adj[a]@.contains(b) <==> query_edge(
                analysis.relations@,
                DependencyQueryDirection::Dependencies,
                key_view(uk[a]@),
                key_view(uk[b as int]@),
            )),
        rank_key_set(uk@, starts@) == matching_keys(analysis.nodes@, query@->ShortestPath_from),
        rank_key_set(uk@, ends@) == matching_keys(analysis.nodes@, query@->ShortestPath_to),
        forall|i: int| 0 <= i < starts.len() ==> #[trigger] starts[i] < uk.len(),
        forall|i: int| 0 <= i < ends.len() ==> #[trigger] ends[i] < uk.len(),
        is_src.len() == uk.len(),
        target.len() == uk.len(),
        forall|v: int| 0 <= v < uk.len() ==> (#[trigger] is_src[v] <==> starts@.contains(v as usize)),
        forall|v: int| 0 <= v < uk.len() ==> (#[trigger] target[v] <==> ends@.contains(v as usize)),
        visited.len() == uk.len(),
        forall|i: int| 0 <= i < starts.len() ==> visited[#[trigger] starts[i] as int],
        forall|v: int, i: int| 0 <= v < uk.len() && visited[v] && 0 <= i < adj[v].len() ==> visited[#[trigger] adj[v][i] as int],
        forall|v: int| 0 <= v < uk.len() && #[trigger] visited[v] ==> !target[v],
    ensures
        res.query@ == query@,
        path_answer(
            analysis.relations@,
            matching_keys(analysis.nodes@, query@->ShortestPath_from),
            matching_keys(analysis.nodes@, query@->ShortestPath_to),
            res,
        ),
{
    let u = uk.len();
    let ghost starts_k = matching_keys(analysis.nodes@, query@->ShortestPath_from);
    let ghost ends_k = matching_keys(analysis.nodes@, query@->ShortestPath_to);
    let ghost edge = query_edge_fn(analysis.relations@, DependencyQueryDirection::Dependencies);
    let mut flags: Vec<bool> = Vec::new();
    let mut v: usize = 0;
    while v < u
        invariant
            v <= u,
            is_src.len() == u,
            target.len() == u,
            flags.len() == v,
            forall|x: int| 0 <= x < v ==> flags[x] == (is_src[x] || target[x]),
        decreases u - v,
    {
        flags.push(is_src[v] || target[v]);
        v = v + 1;
    }
    let nodes = nodes_of_ranks(uk, un, &flags);
    let res = DependencyGraphQueryResult { query: query.copy(), found: false, nodes, relations: Vec::new() };
    proof {
        assert forall|k: Seq<AtomView>| #[trigger] ends_k.contains(k) implies !reaches_from(edge, starts_k, k) by {
            if reaches_from(edge, starts_k, k) {
                let w = choose|w: Seq<Seq<AtomView>>| #[trigger] is_key_path(edge, w) && starts_k.contains(w[0]) && w[w.len() - 1] == k;
                lemma_closed_holds_reach(*analysis, uk@, un@, adj@, DependencyQueryDirection::Dependencies, starts@, visited@, w);
                let r = choose|r: int| 0 <= r < uk.len() && visited[r] && key_view(#[trigger] uk[r]@) == w[w.len() - 1];
                assert(rank_key_set(uk@, ends@).contains(k));
                let i = choose|i: int| 0 <= i < ends.len() && key_view(uk[ends[i] as int]@) == k;
                crate::cycles::lemma_rank_unique(uk@, r, ends[i] as int);
                assert(ends@.contains(ends[i]));
                assert(target[r]);
            }
        }
        assert forall|k: Seq<AtomView>| lists_key(res.nodes@, k) <==> (starts_k.contains(k) || ends_k.contains(k)) by {
            if lists_key(res.nodes@, k) {
                let r = choose|r: int| 0 <= r < uk.len() && flags[r] && key_view(#[trigger] uk[r]@) == k;
                if is_src[r] {
                    let i = choose|i: int| 0 <= i < starts.len() && starts[i] == r as usize;
                    assert(rank_key_set(uk@, starts@).contains(k));
                } else {
                    let i = choose|i: int| 0 <= i < ends.len() && ends[i] == r as usize;
                    assert(rank_key_set(uk@, ends@).contains(k));
                }
            }
            if starts_k.contains(k) {
                assert(rank_key_set(uk@, starts@).contains(k));
                let i = choose|i: int| 0 <= i < starts.len() && key_view(uk[starts[i] as int]@) == k;
                assert(starts@.contains(starts[i]));
                assert(flags[starts[i] as int]);
            }
            if ends_k.contains(k) {
                assert(rank_key_set(uk@, ends@).contains(k));
                let i = choose|i: int| 0 <= i < ends.len() && key_view(uk[ends[i] as int]@) == k;
                assert(ends@.contains(ends[i]));
                assert(flags[ends[i] as int]);
            }
        }
    }
    res
}

#[verifier::rlimit(40)]
fn shortest_path_query(
    analysis: &DependencyGraphAnalysis,
    uk: &Vec<Vec<KeyAtom>>,
    un: &Vec<DependencyNode>,
    query: &DependencyGraphQuery,
    from: &String,
    to: &String,
) -> (r: Result<DependencyGraphQueryResult, DependencyGraphQueryError>)
    requires
        universe_ok(*analysis, uk@, un@),
        query@ == (QueryView::ShortestPath { from: from@, to: to@ }),
        names_fit(analysis.nodes@, from@),
        names_fit(analysis.nodes@, to@),
    ensures
        query_answer(*analysis, query@, r),
{
    let rels = &analysis.relations;
    let ghost starts_k = matching_keys(analysis.nodes@, from@);
    let ghost ends_k = matching_keys(analysis.nodes@, to@);
    let ghost edge = query_edge_fn(rels@, DependencyQueryDirection::Dependencies);
    let starts = match resolve_modules(analysis, uk, un, from) {
        Err(e) => {
            return Err(e);
        },
        Ok(x) => x,
    };
    proof {
        assert(rank_key_set(uk@, starts@).contains(key_view(uk[starts[0] as int]@)));
        assert(starts_k != Set::<Seq<AtomView>>::empty()) by {
            assert(starts_k.contains(key_view(uk[starts[0] as int]@)));
        }
    }
    let ends = match resolve_modules(analysis, uk, un, to) {
        Err(e) => {
            return Err(e);
        },
        Ok(x) => x,
    };
    proof {
        assert(rank_key_set(uk@, ends@).contains(key_view(uk[ends[0] as int]@)));
        assert(ends_k != Set::<Seq<AtomView>>::empty()) by {
            assert(ends_k.contains(key_view(uk[ends[0] as int]@)));
        }
    }
    let u = uk.len();
    let adj = query_adjacency(analysis, uk, un, DependencyQueryDirection::Dependencies);
    let is_src = rank_flags(u, &starts);
    let target = rank_flags(u, &ends);
    let (found, visited) = bfs_search(&adj, &starts, &target, &is_src);
    match found {
        Some(p) => Ok(path_found(analysis, uk, un, &adj, query, &starts, &ends, &target, p)),
        None => Ok(path_missing(analysis, uk, un, &adj, query, &starts, &ends, &is_src, &target, &visited)),
    }
}


/// The query relations between reached ranks, in relation order.
fn closure_relations(
    analysis: &DependencyGraphAnalysis,
    uk: &Vec<Vec<KeyAtom>>,
    un: &Vec<DependencyNode>,
    visited: &Vec<bool>,
    pred: Ghost<spec_fn(DependencyRelation) -> bool>,
) -> (relations: Vec<DependencyRelation>)
    requires
        universe_ok(*analysis, uk@, un@),
        visited.len() == uk.len(),
        forall|r: DependencyRelation| #[trigger] pred@(r) <==> (is_query_relation(r) && (exists|a: int|
            0 <= a < uk.len() && visited[a] && key_view(uk[a]@) == node_key(r.source)) && (exists|b: int|
            0 <= b < uk.len() && visited[b] && key_view(uk[b]@) == node_key(r.target))),
    ensures
        relations@.map_values(|c: DependencyRelation| relation_view(c)) == kept_views(analysis.relations@, pred@),
{
    let rels = &analysis.relations;
    let (sr, tr) = relation_ranks(uk, rels);
    let mut relations: Vec<DependencyRelation> = Vec::new();
    let mut j: usize = 0;
    while j < rels.len()
        invariant
            j <= rels.len(),
            rels == &analysis.relations,
            universe_ok(*analysis, uk@, un@),
            visited.len() == uk.len(),
            forall|r: DependencyRelation| #[trigger] pred@(r) <==> (is_query_relation(r) && (exists|a: int|
                0 <= a < uk.len() && visited[a] && key_view(uk[a]@) == node_key(r.source)) && (exists|b: int|
                0 <= b < uk.len() && visited[b] && key_view(uk[b]@) == node_key(r.target))),
            sr.len() == rels.len(),
            tr.len() == rels.len(),
            forall|x: int| 0 <= x < rels.len() ==> rank_is(uk@, #[trigger] sr[x], node_key(rels[x].source)),
            forall|x: int| 0 <= x < rels.len() ==> rank_is(uk@, #[trigger] tr[x], node_key(rels[x].target)),
            relations@.map_values(|c: DependencyRelation| relation_view(c)) == kept_views(rels@.take(j as int), pred@),
        decreases rels.len() - j,
    {
        let ghost t = rels@.take(j + 1);
        proof {
            assert(t.drop_last() =~= rels@.take(j as int));
            assert(t.last() == rels[j as int]);
        }
        let rel = &rels[j];
        let ghost before = relations@;
        let mut keep = false;
        if rel.kind == DependencyRelationKind::Exact && rel.source.kind() == DependencyNodeKind::LocalModule
            && rel.target.kind() == DependencyNodeKind::LocalModule {
            match (sr[j], tr[j]) {
                (Some(a), Some(b)) => {
                    if visited[a] && visited[b] {
                        keep = true;
                    }
                },
                _ => {},
            }
        }
        proof {
            let r = rels[j as int];
            if (exists|a: int| 0 <= a < uk.len() && visited[a] && key_view(uk[a]@) == node_key(r.source)) {
                let a = choose|a: int| 0 <= a < uk.len() && visited[a] && key_view(uk[a]@) == node_key(r.source);
                if let Some(x) = sr[j as int] {
                    crate::cycles::lemma_rank_unique(uk@, x as int, a);
                } else {
                    assert(key_view(uk[a]@) != node_key(r.source));
                }
            }
            if (exists|b: int| 0 <= b < uk.len() && visited[b] && key_view(uk[b]@) == node_key(r.target)) {
                let b = choose|b: int| 0 <= b < uk.len() && visited[b] && key_view(uk[b]@) == node_key(r.target);
                if let Some(y) = tr[j as int] {
                    crate::cycles::lemma_rank_unique(uk@, y as int, b);
                } else {
                    assert(key_view(uk[b]@) != node_key(r.target));
                }
            }
            assert(keep == pred@(r));
        }
        if keep {
            relations.push(copy_relation(rel));
            proof {
                assert(relations@.map_values(|c: DependencyRelation| relation_view(c)) =~= before.map_values(
                    |c: DependencyRelation| relation_view(c),
                ).push(relation_view(rels[j as int])));
            }
        }
        j = j + 1;
    }
    proof {
        assert(rels@.take(rels.len() as int) =~= rels@);
    }
    relations
}

/// The facts of a finished search with no targets.
pub open spec fn search_closed(
    analysis: DependencyGraphAnalysis,
    uk: Seq<Vec<KeyAtom>>,
    un: Seq<DependencyNode>,
    adj: Seq<Vec<usize>>,
    dir: DependencyQueryDirection,
    roots: Seq<usize>,
    visited: Seq<bool>,
) -> bool {
    &&& universe_ok(analysis, uk, un)
    &&& uk.len() <= usize::MAX
    &&& adjacency_ok(adj, uk.len() as int)
    &&& forall|a: int, b: usize|
        0 <= a < uk.len() && b < uk.len() ==> (#[trigger] adj[a]@.contains(b) <==> query_edge(
            analysis.relations@,
            dir,
            key_view(uk[a]@),
            key_view(uk[b as int]@),
        ))
    &&& visited.len() == uk.len()
    &&& forall|i: int| 0 <= i < roots.len() ==> #[trigger] roots[i] < uk.len() && visited[roots[i] as int]
    &&& forall|v: int, i: int| 0 <= v < uk.len() && visited[v] && 0 <= i < adj[v].len() ==> visited[#[trigger] adj[v][i] as int]
    &&& forall|v: int| 0 <= v < uk.len() && #[trigger] visited[v] ==> rank_reach(adj, roots, v as usize)
}

/// After a finished search, a key is reached exactly when the search
/// visited its rank.
proof fn lemma_search_reach(
    analysis: DependencyGraphAnalysis,
    uk: Seq<Vec<KeyAtom>>,
    un: Seq<DependencyNode>,
    adj: Seq<Vec<usize>>,
    dir: DependencyQueryDirection,
    roots: Seq<usize>,
    visited: Seq<bool>,
    k: Seq<AtomView>,
)
    requires
        search_closed(analysis, uk, un, adj, dir, roots, visited),
    ensures
        reaches_from(query_edge_fn(analysis.relations@, dir), rank_key_set(uk, roots), k) <==> exists|r: int|
            0 <= r < uk.len() && visited[r] && key_view(uk[r]@) == k,
{
    let edge = query_edge_fn(analysis.relations@, dir);
    if reaches_from(edge, rank_key_set(uk, roots), k) {
        let w = choose|w: Seq<Seq<AtomView>>| #[trigger] is_key_path(edge, w) && rank_key_set(uk, roots).contains(w[0]) && w[w.len() - 1] == k;
        lemma_closed_holds_reach(analysis, uk, un, adj, dir, roots, visited, w);
    }
    if exists|r: int| 0 <= r < uk.len() && visited[r] && key_view(uk[r]@) == k {
        let r = choose|r: int| 0 <= r < uk.len() && visited[r] && key_view(uk[r]@) == k;
        assert(visited[r]);
        lemma_rank_reach_keys(analysis, uk, adj, dir, roots, r as usize);
    }
}

#[verifier::rlimit(40)]
fn closure_query(
    analysis: &DependencyGraphAnalysis,
    uk: &Vec<Vec<KeyAtom>>,
    un: &Vec<DependencyNode>,
    query: &DependencyGraphQuery,
    module: &String,
    direction: DependencyQueryDirection,
) -> (r: Result<DependencyGraphQueryResult, DependencyGraphQueryError>)
    requires
        universe_ok(*analysis, uk@, un@),
        query@ == (QueryView::Closure { module: module@, direction }),
        names_fit(analysis.nodes@, module@),
    ensures
        query_answer(*analysis, query@, r),
{
    let ghost roots_k = matching_keys(analysis.nodes@, module@);
    let ghost edge = query_edge_fn(analysis.relations@, direction);
    let roots = match resolve_modules(analysis, uk, un, module) {
        Err(e) => {
            return Err(e);
        },
        Ok(x) => x,
    };
    proof {
        assert(rank_key_set(uk@, roots@).contains(key_view(uk[roots[0] as int]@)));
        assert(roots_k != Set::<Seq<AtomView>>::empty()) by {
            assert(roots_k.contains(key_view(uk[roots[0] as int]@)));
        }
    }
    let u = uk.len();
    let adj = query_adjacency(analysis, uk, un, direction);
    let is_src = rank_flags(u, &roots);
    let mut target: Vec<bool> = Vec::new();
    let mut v: usize = 0;
    while v < u
        invariant
            v <= u,
            target.len() == v,
            forall|x: int| 0 <= x < v ==> !target[x],
        decreases u - v,
    {
        target.push(false);
        v = v + 1;
    }
    let (found, visited) = bfs_search(&adj, &roots, &target, &is_src);
    proof {
        if let Some(p) = found {
            assert(target[p[p.len() - 1] as int]);
        }
        assert(search_closed(*analysis, uk@, un@, adj@, direction, roots@, visited@));
    }
    let nodes = nodes_of_ranks(uk, un, &visited);
    let ghost pred = closure_pred(edge, roots_k);
    proof {
        assert forall|r: DependencyRelation| #[trigger] pred(r) <==> (is_query_relation(r) && (exists|a: int|
            0 <= a < uk.len() && visited[a] && key_view(uk[a]@) == node_key(r.source)) && (exists|b: int|
            0 <= b < uk.len() && visited[b] && key_view(uk[b]@) == node_key(r.target))) by {
            lemma_search_reach(*analysis, uk@, un@, adj@, direction, roots@, visited@, node_key(r.source));
            lemma_search_reach(*analysis, uk@, un@, adj@, direction, roots@, visited@, node_key(r.target));
        }
    }
    let relations = closure_relations(analysis, uk, un, &visited, Ghost(pred));
    let res = DependencyGraphQueryResult { query: query.copy(), found: true, nodes, relations };
    proof {
        assert forall|k: Seq<AtomView>| lists_key(res.nodes@, k) <==> reaches_from(edge, roots_k, k) by {
            lemma_search_reach(*analysis, uk@, un@, adj@, direction, roots@, visited@, k);
        }
    }
    Ok(res)
}

/// Answers a query about the exact dependencies between local modules.
pub fn query_dependency_graph(
    analysis: &DependencyGraphAnalysis,
    query: &DependencyGraphQuery,
) -> (r: Result<DependencyGraphQueryResult, DependencyGraphQueryError>)
    requires
        match query@ {
            QueryView::ShortestPath { from, to } => names_fit(analysis.nodes@, from) && names_fit(analysis.nodes@, to),
            QueryView::Closure { module, .. } => names_fit(analysis.nodes@, module),
        },
    ensures
        query_answer(*analysis, query@, r),
{
    let (uk, un) = universe(analysis);
    match query {
        DependencyGraphQuery::ShortestPath { from, to } => shortest_path_query(analysis, &uk, &un, query, from, to),
        DependencyGraphQuery::Closure { module, direction } => closure_query(
            analysis,
            &uk,
            &un,
            query,
            module,
            *direction,
        ),
    }
}

} // verus!
