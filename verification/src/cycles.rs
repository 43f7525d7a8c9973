//! Compact, deterministic explanations of cyclic dependency components: a
//! shortest closed walk through the component, the relations along it, and
//! a set of relations whose removal leaves the component acyclic.

use vstd::prelude::*;

use crate::graph::{
    node_key, DependencyGraphAnalysis, DependencyNode, DependencyRelation, DependencyRelationKind,
    DependencyScc, GraphEvidence,
};
use crate::order::{key_compare, key_view, AtomView, KeyAtom};

verus! {

pub const DEPENDENCY_CYCLE_EXPLANATION_DEFINITION_VERSION: &'static str = "dependency-cycle-explanation-v1";

/// Why one cyclic component is cyclic, and how to break it.
#[derive(Debug)]
pub struct DependencyCycleExplanation {
    pub component_number: usize,
    pub members: Vec<DependencyNode>,
    /// Closed walk: the first node is repeated at the end.
    pub witness_nodes: Vec<DependencyNode>,
    pub witness_relations: Vec<DependencyRelation>,
    /// Removing all of these relations leaves the component acyclic.
    pub recommended_cuts: Vec<DependencyRelation>,
}

/// A relation taken by value.
pub open spec fn relation_view(r: DependencyRelation) -> (
    Seq<AtomView>,
    Seq<AtomView>,
    DependencyRelationKind,
    Seq<(Seq<char>, crate::analyzer::ReferenceView)>,
) {
    (node_key(r.source), node_key(r.target), r.kind, r.evidence@.map_values(|e: GraphEvidence| e@))
}

/// `k` is the key of a member.
pub open spec fn is_member_key(members: Seq<DependencyNode>, k: Seq<AtomView>) -> bool {
    exists|m: int| 0 <= m < members.len() && node_key(members[m]) == k
}

/// The keys of the members.
pub open spec fn member_keys(members: Seq<DependencyNode>) -> Set<Seq<AtomView>> {
    Set::new(|k: Seq<AtomView>| is_member_key(members, k))
}

/// An exact relation between two members.
pub open spec fn is_internal(members: Seq<DependencyNode>, r: DependencyRelation) -> bool {
    &&& r.kind == DependencyRelationKind::Exact
    &&& is_member_key(members, node_key(r.source))
    &&& is_member_key(members, node_key(r.target))
}

/// The views of the relations that satisfy `keep`, in order.
pub open spec fn kept_views(
    rels: Seq<DependencyRelation>,
    keep: spec_fn(DependencyRelation) -> bool,
) -> Seq<(Seq<AtomView>, Seq<AtomView>, DependencyRelationKind, Seq<(Seq<char>, crate::analyzer::ReferenceView)>)>
    decreases rels.len(),
{
    if rels.len() == 0 {
        Seq::empty()
    } else if keep(rels.last()) {
        kept_views(rels.drop_last(), keep).push(relation_view(rels.last()))
    } else {
        kept_views(rels.drop_last(), keep)
    }
}

/// The weight of a relation in the cut heuristic: its evidence count, at
/// least one.
pub open spec fn relation_weight(r: DependencyRelation) -> int {
    if r.evidence.len() == 0 {
        1
    } else {
        r.evidence.len() as int
    }
}

/// The sum of all relation weights.
pub open spec fn total_weight(rels: Seq<DependencyRelation>) -> int
    decreases rels.len(),
{
    if rels.len() == 0 {
        0
    } else {
        total_weight(rels.drop_last()) + relation_weight(rels.last())
    }
}

/// Weight of the exact relations from `k` to remaining nodes, while `k`
/// remains.
pub open spec fn out_weight(rels: Seq<DependencyRelation>, rem: Set<Seq<AtomView>>, k: Seq<AtomView>) -> int
    decreases rels.len(),
{
    if rels.len() == 0 {
        0
    } else {
        let r = rels.last();
        out_weight(rels.drop_last(), rem, k) + if r.kind == DependencyRelationKind::Exact && node_key(r.source)
            == k && rem.contains(k) && rem.contains(node_key(r.target)) {
            relation_weight(r)
        } else {
            0
        }
    }
}

/// Weight of the exact relations into `k` from remaining nodes, while `k`
/// remains.
pub open spec fn in_weight(rels: Seq<DependencyRelation>, rem: Set<Seq<AtomView>>, k: Seq<AtomView>) -> int
    decreases rels.len(),
{
    if rels.len() == 0 {
        0
    } else {
        let r = rels.last();
        in_weight(rels.drop_last(), rem, k) + if r.kind == DependencyRelationKind::Exact && node_key(r.target)
            == k && rem.contains(k) && rem.contains(node_key(r.source)) {
            relation_weight(r)
        } else {
            0
        }
    }
}

/// `k` is the least key of `s`.
pub open spec fn is_least_key(s: Set<Seq<AtomView>>, k: Seq<AtomView>) -> bool {
    s.contains(k) && forall|k2: Seq<AtomView>| #[trigger] s.contains(k2) ==> key_compare(k, k2) <= 0
}

/// The remaining nodes with no outgoing weight.
pub open spec fn sink_keys(rels: Seq<DependencyRelation>, rem: Set<Seq<AtomView>>) -> Set<Seq<AtomView>> {
    Set::new(|k: Seq<AtomView>| rem.contains(k) && out_weight(rels, rem, k) == 0)
}

/// The remaining nodes with no incoming weight.
pub open spec fn source_keys(rels: Seq<DependencyRelation>, rem: Set<Seq<AtomView>>) -> Set<Seq<AtomView>> {
    Set::new(|k: Seq<AtomView>| rem.contains(k) && in_weight(rels, rem, k) == 0)
}

/// `k` has the greatest outgoing minus incoming weight among the remaining
/// nodes, and is the least such key.
pub open spec fn is_best_balance(rels: Seq<DependencyRelation>, rem: Set<Seq<AtomView>>, k: Seq<AtomView>) -> bool {
    &&& rem.contains(k)
    &&& forall|k2: Seq<AtomView>|
        #[trigger] rem.contains(k2) ==> {
            let b2 = out_weight(rels, rem, k2) - in_weight(rels, rem, k2);
            let b = out_weight(rels, rem, k) - in_weight(rels, rem, k);
            b2 < b || (b2 == b && key_compare(k, k2) <= 0)
        }
}

/// The node that the heuristic removes next, and whether it goes to the
/// end of the order (a sink) rather than the front.
pub open spec fn greedy_pick(rels: Seq<DependencyRelation>, rem: Set<Seq<AtomView>>) -> (Seq<AtomView>, bool) {
    if exists|k: Seq<AtomView>| #[trigger] sink_keys(rels, rem).contains(k) {
        (choose|k: Seq<AtomView>| is_least_key(sink_keys(rels, rem), k), true)
    } else if exists|k: Seq<AtomView>| #[trigger] source_keys(rels, rem).contains(k) {
        (choose|k: Seq<AtomView>| is_least_key(source_keys(rels, rem), k), false)
    } else {
        (choose|k: Seq<AtomView>| is_best_balance(rels, rem, k), false)
    }
}

/// The state of the heuristic after `t` removals: the remaining nodes, the
/// nodes placed at the front, and the nodes placed at the end (last placed
/// last).
pub open spec fn greedy_state(
    members: Seq<DependencyNode>,
    rels: Seq<DependencyRelation>,
    t: nat,
) -> (Set<Seq<AtomView>>, Seq<Seq<AtomView>>, Seq<Seq<AtomView>>)
    decreases t,
{
    if t == 0 {
        (member_keys(members), Seq::empty(), Seq::empty())
    } else {
        let (rem, left, right) = greedy_state(members, rels, (t - 1) as nat);
        if rem == Set::<Seq<AtomView>>::empty() {
            (rem, left, right)
        } else {
            let (k, to_end) = greedy_pick(rels, rem);
            if to_end {
                (rem.remove(k), left, right.push(k))
            } else {
                (rem.remove(k), left.push(k), right)
            }
        }
    }
}

/// The order of the members that the cut heuristic (greedy feedback arc
/// set, after Eades, Lin and Smyth) settles on.
pub open spec fn feedback_order(members: Seq<DependencyNode>, rels: Seq<DependencyRelation>) -> Seq<Seq<AtomView>> {
    let (_, left, right) = greedy_state(members, rels, members.len());
    left + right.reverse()
}

/// Where a key stands in an order.
pub open spec fn position(order: Seq<Seq<AtomView>>, k: Seq<AtomView>) -> int {
    choose|p: int| 0 <= p < order.len() && order[p] == k
}

/// An internal relation that goes backwards, or nowhere, in the order.
pub open spec fn is_cut(members: Seq<DependencyNode>, order: Seq<Seq<AtomView>>, r: DependencyRelation) -> bool {
    is_internal(members, r) && position(order, node_key(r.source)) >= position(order, node_key(r.target))
}

/// An internal relation from `a` to `b` that is not cut.
pub open spec fn kept_edge(
    members: Seq<DependencyNode>,
    rels: Seq<DependencyRelation>,
    order: Seq<Seq<AtomView>>,
    a: Seq<AtomView>,
    b: Seq<AtomView>,
) -> bool {
    exists|j: int|
        0 <= j < rels.len() && is_internal(members, #[trigger] rels[j]) && !is_cut(members, order, rels[j])
            && node_key(rels[j].source) == a && node_key(rels[j].target) == b
}

/// A walk of keys along `edge`, with at least one step.
pub open spec fn is_key_walk(edge: spec_fn(Seq<AtomView>, Seq<AtomView>) -> bool, w: Seq<Seq<AtomView>>) -> bool {
    &&& w.len() >= 2
    &&& forall|k: int| #![trigger w[k]] 0 <= k < w.len() - 1 ==> edge(w[k], w[k + 1])
}

/// Removing the cuts leaves no cycle: no walk of kept relations returns to
/// where it started.
pub proof fn lemma_cuts_leave_no_cycle(
    members: Seq<DependencyNode>,
    rels: Seq<DependencyRelation>,
    order: Seq<Seq<AtomView>>,
    w: Seq<Seq<AtomView>>,
)
    requires
        is_key_walk(|a: Seq<AtomView>, b: Seq<AtomView>| kept_edge(members, rels, order, a, b), w),
    ensures
        w[0] != w[w.len() - 1],
{
    let edge = |a: Seq<AtomView>, b: Seq<AtomView>| kept_edge(members, rels, order, a, b);
    assert forall|k: int| 0 <= k < w.len() - 1 implies #[trigger] position(order, w[k]) < position(order, w[k + 1]) by {
        assert(edge(w[k], w[k + 1]));
        let j = choose|j: int|
            0 <= j < rels.len() && is_internal(members, #[trigger] rels[j]) && !is_cut(members, order, rels[j])
                && node_key(rels[j].source) == w[k] && node_key(rels[j].target) == w[k + 1];
    }
    lemma_positions_increase(order, w, w.len() - 1);
}

proof fn lemma_positions_increase(order: Seq<Seq<AtomView>>, w: Seq<Seq<AtomView>>, k: int)
    requires
        1 <= k < w.len(),
        forall|k2: int| 0 <= k2 < w.len() - 1 ==> #[trigger] position(order, w[k2]) < position(order, w[k2 + 1]),
    ensures
        position(order, w[0]) < position(order, w[k]),
    decreases k,
{
    assert(position(order, w[k - 1]) < position(order, w[k]));
    if k > 1 {
        lemma_positions_increase(order, w, k - 1);
    }
}


// ---------------------------------------------------------------------
// Members by rank, and the relations between them.
// ---------------------------------------------------------------------

/// Keys in strictly increasing order.
pub open spec fn strictly_sorted_keys(uk: Seq<Vec<KeyAtom>>) -> bool {
    forall|i: int, j: int| 0 <= i < j < uk.len() ==> key_compare(key_view(uk[i]@), key_view(uk[j]@)) == -1
}

/// `uk` lists the member keys, each once, in increasing order.
pub open spec fn ranks_of(members: Seq<DependencyNode>, uk: Seq<Vec<KeyAtom>>) -> bool {
    &&& strictly_sorted_keys(uk)
    &&& uk.len() <= members.len()
    &&& forall|r: int| 0 <= r < uk.len() ==> is_member_key(members, key_view(#[trigger] uk[r]@))
    &&& forall|k: Seq<AtomView>| is_member_key(members, k) ==> exists|r: int| 0 <= r < uk.len() && key_view(#[trigger] uk[r]@) == k
}

pub(crate) proof fn lemma_rank_unique(uk: Seq<Vec<KeyAtom>>, a: int, b: int)
    requires
        strictly_sorted_keys(uk),
        0 <= a < uk.len(),
        0 <= b < uk.len(),
        key_view(uk[a]@) == key_view(uk[b]@),
    ensures
        a == b,
{
    if a < b {
        crate::order::lemma_key_facts(key_view(uk[a]@), key_view(uk[b]@));
    } else if b < a {
        crate::order::lemma_key_facts(key_view(uk[b]@), key_view(uk[a]@));
    }
}

fn member_ranks(members: &Vec<DependencyNode>) -> (uk: Vec<Vec<KeyAtom>>)
    ensures
        ranks_of(members@, uk@),
{
    let mut keys: Vec<Vec<KeyAtom>> = Vec::new();
    let mut m: usize = 0;
    while m < members.len()
        invariant
            m <= members.len(),
            keys.len() == m,
            forall|x: int| 0 <= x < m ==> key_view(#[trigger] keys[x]@) == node_key(members[x]),
        decreases members.len() - m,
    {
        keys.push(members[m].key());
        m = m + 1;
    }
    let order = crate::order::unique_sorted_order(&keys);
    let mut uk: Vec<Vec<KeyAtom>> = Vec::new();
    let mut p: usize = 0;
    while p < order.len()
        invariant
            p <= order.len(),
            uk.len() == p,
            keys.len() == members.len(),
            forall|x: int| 0 <= x < order.len() ==> #[trigger] order[x] < keys.len(),
            forall|x: int| 0 <= x < keys.len() ==> key_view(#[trigger] keys[x]@) == node_key(members[x]),
            forall|x: int| 0 <= x < p ==> key_view(#[trigger] uk[x]@) == key_view(keys[order[x] as int]@),
        decreases order.len() - p,
    {
        let k = members[order[p]].key();
        uk.push(k);
        p = p + 1;
    }
    proof {
        let kv = crate::order::keys_view(keys@);
        assert forall|x: int| 0 <= x < keys.len() implies #[trigger] kv[x] == node_key(members[x]) by {}
        assert forall|a: int, b: int| 0 <= a < b < uk.len() implies key_compare(key_view(uk[a]@), key_view(uk[b]@)) == -1 by {
            assert(kv[order[a] as int] == key_view(keys[order[a] as int]@));
            assert(kv[order[b] as int] == key_view(keys[order[b] as int]@));
        }
        assert forall|r: int| 0 <= r < uk.len() implies is_member_key(members@, key_view(#[trigger] uk[r]@)) by {
            assert(key_view(keys[order[r] as int]@) == node_key(members[order[r] as int]));
        }
        assert forall|k: Seq<AtomView>| is_member_key(members@, k) implies exists|r: int| 0 <= r < uk.len() && key_view(#[trigger] uk[r]@) == k by {
            let x = choose|x: int| 0 <= x < members.len() && node_key(members[x]) == k;
            assert(crate::order::covers_key(kv, order@, x));
            let q = choose|q: int| 0 <= q < order.len() && kv[order[q] as int] == kv[x];
            assert(key_view(uk[q]@) == kv[order[q] as int]);
        }
        // There are no more distinct keys than members.
        assert(order.len() <= keys.len()) by {
            assert forall|i: int, j: int| 0 <= i < j < order.len() implies order[i] != order[j] by {
                crate::order::lemma_key_facts(kv[order[i] as int], kv[order[j] as int]);
            }
            lemma_distinct_indices_bound(order@, keys.len() as int);
        }
    }
    uk
}

/// Distinct indices below `n` are at most `n`.
pub(crate) proof fn lemma_distinct_indices_bound(s: Seq<usize>, n: int)
    requires
        0 <= n,
        forall|i: int| 0 <= i < s.len() ==> #[trigger] s[i] < n,
        forall|i: int, j: int| 0 <= i < j < s.len() ==> s[i] != s[j],
    ensures
        s.len() <= n,
{
    let si = s.map_values(|v: usize| v as int);
    assert(si.no_duplicates()) by {
        assert forall|i: int, j: int| 0 <= i < si.len() && 0 <= j < si.len() && i != j implies si[i] != si[j] by {
            if i < j {
                assert(s[i] != s[j]);
            } else {
                assert(s[j] != s[i]);
            }
        }
    }
    si.unique_seq_to_set();
    vstd::set_lib::lemma_int_range(0, n);
    assert(si.to_set().subset_of(vstd::set_lib::set_int_range(0, n))) by {
        assert forall|x: int| si.to_set().contains(x) implies vstd::set_lib::set_int_range(0, n).contains(x) by {
            let i = choose|i: int| 0 <= i < si.len() && si[i] == x;
            assert(s[i] < n);
        }
    }
    vstd::set_lib::lemma_len_subset(si.to_set(), vstd::set_lib::set_int_range(0, n));
}


/// `o` is the rank of key `k`, or `k` is no member key.
pub open spec fn rank_is(uk: Seq<Vec<KeyAtom>>, o: Option<usize>, k: Seq<AtomView>) -> bool {
    match o {
        Some(x) => x < uk.len() && key_view(uk[x as int]@) == k,
        None => forall|r: int| 0 <= r < uk.len() ==> key_view(#[trigger] uk[r]@) != k,
    }
}

/// The ranks of the source and the target of every relation.
pub(crate) fn relation_ranks(uk: &Vec<Vec<KeyAtom>>, rels: &Vec<DependencyRelation>) -> (r: (Vec<Option<usize>>, Vec<Option<usize>>))
    requires
        strictly_sorted_keys(uk@),
    ensures
        r.0.len() == rels.len(),
        r.1.len() == rels.len(),
        forall|j: int| 0 <= j < rels.len() ==> rank_is(uk@, #[trigger] r.0[j], node_key(rels[j].source)),
        forall|j: int| 0 <= j < rels.len() ==> rank_is(uk@, #[trigger] r.1[j], node_key(rels[j].target)),
{
    let mut sr: Vec<Option<usize>> = Vec::new();
    let mut tr: Vec<Option<usize>> = Vec::new();
    let mut j: usize = 0;
    while j < rels.len()
        invariant
            j <= rels.len(),
            strictly_sorted_keys(uk@),
            sr.len() == j,
            tr.len() == j,
            forall|x: int| 0 <= x < j ==> rank_is(uk@, #[trigger] sr[x], node_key(rels[x].source)),
            forall|x: int| 0 <= x < j ==> rank_is(uk@, #[trigger] tr[x], node_key(rels[x].target)),
        decreases rels.len() - j,
    {
        let a = crate::order::locate_key(uk, &rels[j].source.key());
        let b = crate::order::locate_key(uk, &rels[j].target.key());
        sr.push(a);
        tr.push(b);
        j = j + 1;
    }
    (sr, tr)
}

/// The keys of the live ranks.
pub open spec fn rank_set(uk: Seq<Vec<KeyAtom>>, live: Seq<bool>) -> Set<Seq<AtomView>> {
    Set::new(|k: Seq<AtomView>| exists|r: int| 0 <= r < uk.len() && live[r] && key_view(uk[r]@) == k)
}

/// The keys of a list of ranks.
pub open spec fn rank_keys(uk: Seq<Vec<KeyAtom>>, rs: Seq<usize>) -> Seq<Seq<AtomView>> {
    rs.map_values(|r: usize| key_view(uk[r as int]@))
}

proof fn lemma_rank_set_contains(uk: Seq<Vec<KeyAtom>>, live: Seq<bool>, r: int)
    requires
        strictly_sorted_keys(uk),
        live.len() == uk.len(),
        0 <= r < uk.len(),
    ensures
        rank_set(uk, live).contains(key_view(uk[r]@)) <==> live[r],
{
    if rank_set(uk, live).contains(key_view(uk[r]@)) {
        let r2 = choose|r2: int| 0 <= r2 < uk.len() && live[r2] && key_view(uk[r2]@) == key_view(uk[r]@);
        lemma_rank_unique(uk, r, r2);
    }
}

proof fn lemma_total_weight_prefix(rels: Seq<DependencyRelation>, j: int, i: int)
    requires
        0 <= j <= i <= rels.len(),
    ensures
        total_weight(rels.take(j)) <= total_weight(rels.take(i)),
    decreases i - j,
{
    if j < i {
        lemma_total_weight_prefix(rels, j, i - 1);
        assert(rels.take(i).drop_last() =~= rels.take(i - 1));
    }
}

/// The weighted degrees of every rank among the live ranks.
fn degrees(
    uk: &Vec<Vec<KeyAtom>>,
    rels: &Vec<DependencyRelation>,
    sr: &Vec<Option<usize>>,
    tr: &Vec<Option<usize>>,
    live: &Vec<bool>,
) -> (d: (Vec<usize>, Vec<usize>))
    requires
        strictly_sorted_keys(uk@),
        live.len() == uk.len(),
        sr.len() == rels.len(),
        tr.len() == rels.len(),
        forall|j: int| 0 <= j < rels.len() ==> rank_is(uk@, #[trigger] sr[j], node_key(rels[j].source)),
        forall|j: int| 0 <= j < rels.len() ==> rank_is(uk@, #[trigger] tr[j], node_key(rels[j].target)),
        total_weight(rels@) <= isize::MAX,
    ensures
        d.0.len() == uk.len(),
        d.1.len() == uk.len(),
        forall|r: int| 0 <= r < uk.len() ==> #[trigger] d.0[r] == out_weight(rels@, rank_set(uk@, live@), key_view(uk[r]@)),
        forall|r: int| 0 <= r < uk.len() ==> #[trigger] d.1[r] == in_weight(rels@, rank_set(uk@, live@), key_view(uk[r]@)),
        forall|r: int| 0 <= r < uk.len() ==> #[trigger] d.0[r] <= isize::MAX && d.1[r] <= isize::MAX,
{
    let ghost rem = rank_set(uk@, live@);
    let u = uk.len();
    let mut out_w: Vec<usize> = Vec::new();
    let mut in_w: Vec<usize> = Vec::new();
    let mut r: usize = 0;
    while r < u
        invariant
            r <= u,
            out_w.len() == r,
            in_w.len() == r,
            forall|x: int| 0 <= x < r ==> out_w[x] == 0 && in_w[x] == 0,
        decreases u - r,
    {
        out_w.push(0);
        in_w.push(0);
        r = r + 1;
    }
    let mut j: usize = 0;
    while j < rels.len()
        invariant
            u == uk.len(),
            j <= rels.len(),
            strictly_sorted_keys(uk@),
            live.len() == u,
            rem == rank_set(uk@, live@),
            sr.len() == rels.len(),
            tr.len() == rels.len(),
            forall|x: int| 0 <= x < rels.len() ==> rank_is(uk@, #[trigger] sr[x], node_key(rels[x].source)),
            forall|x: int| 0 <= x < rels.len() ==> rank_is(uk@, #[trigger] tr[x], node_key(rels[x].target)),
            total_weight(rels@) <= isize::MAX,
            out_w.len() == u,
            in_w.len() == u,
            forall|x: int| 0 <= x < u ==> #[trigger] out_w[x] == out_weight(rels@.take(j as int), rem, key_view(uk[x]@)),
            forall|x: int| 0 <= x < u ==> #[trigger] in_w[x] == in_weight(rels@.take(j as int), rem, key_view(uk[x]@)),
            forall|x: int| 0 <= x < u ==> #[trigger] out_w[x] <= total_weight(rels@.take(j as int)),
            forall|x: int| 0 <= x < u ==> #[trigger] in_w[x] <= total_weight(rels@.take(j as int)),
        decreases rels.len() - j,
    {
        let ghost t = rels@.take(j + 1);
        proof {
            assert(t.drop_last() =~= rels@.take(j as int));
            assert(t.last() == rels[j as int]);
            lemma_total_weight_prefix(rels@, j + 1, rels.len() as int);
            assert(rels@.take(rels.len() as int) =~= rels@);
        }
        let w: usize = if rels[j].evidence.len() == 0 {
            1
        } else {
            rels[j].evidence.len()
        };
        let ghost old_out = out_w@;
        let ghost old_in = in_w@;
        proof {
            assert forall|x: int| 0 <= x < u implies old_out[x] == out_weight(rels@.take(j as int), rem, key_view(uk[x]@))
                && old_in[x] == in_weight(rels@.take(j as int), rem, key_view(uk[x]@))
                && old_out[x] <= total_weight(rels@.take(j as int)) && old_in[x] <= total_weight(rels@.take(j as int)) by {
                assert(old_out[x] == out_w[x]);
                assert(old_in[x] == in_w[x]);
            }
        }
        if rels[j].kind == DependencyRelationKind::Exact {
            match (sr[j], tr[j]) {
                (Some(a), Some(b)) => {
                    if live[a] && live[b] {
                        let oa = out_w[a] + w;
                        out_w.set(a, oa);
                        let ib = in_w[b] + w;
                        in_w.set(b, ib);
                    }
                },
                _ => {},
            }
        }
        proof {
            let rj = rels[j as int];
            assert forall|x: int| 0 <= x < u implies #[trigger] out_w[x] == out_weight(t, rem, key_view(uk[x]@))
                && out_w[x] <= total_weight(t) by {
                lemma_rank_set_contains(uk@, live@, x);
                if let Some(a) = sr[j as int] {
                    lemma_rank_set_contains(uk@, live@, a as int);
                    if a as int != x {
                        assert(key_view(uk[a as int]@) != key_view(uk[x]@)) by {
                            if key_view(uk[a as int]@) == key_view(uk[x]@) {
                                lemma_rank_unique(uk@, a as int, x);
                            }
                        }
                    }
                }
                if let Some(b) = tr[j as int] {
                    lemma_rank_set_contains(uk@, live@, b as int);
                }
                if tr[j as int] is None {
                    if rem.contains(node_key(rj.target)) {
                        let r2 = choose|r2: int| 0 <= r2 < uk.len() && live[r2] && key_view(uk[r2]@) == node_key(rj.target);
                    }
                }
            }
            assert forall|x: int| 0 <= x < u implies #[trigger] in_w[x] == in_weight(t, rem, key_view(uk[x]@))
                && in_w[x] <= total_weight(t) by {
                lemma_rank_set_contains(uk@, live@, x);
                if let Some(b) = tr[j as int] {
                    lemma_rank_set_contains(uk@, live@, b as int);
                    if b as int != x {
                        assert(key_view(uk[b as int]@) != key_view(uk[x]@)) by {
                            if key_view(uk[b as int]@) == key_view(uk[x]@) {
                                lemma_rank_unique(uk@, b as int, x);
                            }
                        }
                    }
                }
                if let Some(a) = sr[j as int] {
                    lemma_rank_set_contains(uk@, live@, a as int);
                }
                if sr[j as int] is None {
                    if rem.contains(node_key(rj.source)) {
                        let r2 = choose|r2: int| 0 <= r2 < uk.len() && live[r2] && key_view(uk[r2]@) == node_key(rj.source);
                    }
                }
            }
        }
        j = j + 1;
    }
    proof {
        assert(rels@.take(rels.len() as int) =~= rels@);
    }
    (out_w, in_w)
}


proof fn lemma_least_unique(s: Set<Seq<AtomView>>, a: Seq<AtomView>, b: Seq<AtomView>)
    requires
        is_least_key(s, a),
        is_least_key(s, b),
    ensures
        a == b,
{
    assert(s.contains(b));
    assert(s.contains(a));
    crate::order::lemma_key_facts(a, b);
}

proof fn lemma_best_unique(rels: Seq<DependencyRelation>, rem: Set<Seq<AtomView>>, a: Seq<AtomView>, b: Seq<AtomView>)
    requires
        is_best_balance(rels, rem, a),
        is_best_balance(rels, rem, b),
    ensures
        a == b,
{
    assert(rem.contains(b));
    assert(rem.contains(a));
    crate::order::lemma_key_facts(a, b);
}

/// The rank that the heuristic removes next.
fn pick_next(
    uk: &Vec<Vec<KeyAtom>>,
    out_w: &Vec<usize>,
    in_w: &Vec<usize>,
    live: &Vec<bool>,
    rels: Ghost<Seq<DependencyRelation>>,
) -> (p: (usize, bool))
    requires
        strictly_sorted_keys(uk@),
        live.len() == uk.len(),
        out_w.len() == uk.len(),
        in_w.len() == uk.len(),
        forall|r: int| 0 <= r < uk.len() ==> #[trigger] out_w[r] == out_weight(rels@, rank_set(uk@, live@), key_view(uk[r]@)),
        forall|r: int| 0 <= r < uk.len() ==> #[trigger] in_w[r] == in_weight(rels@, rank_set(uk@, live@), key_view(uk[r]@)),
        forall|r: int| 0 <= r < uk.len() ==> #[trigger] out_w[r] <= isize::MAX && in_w[r] <= isize::MAX,
        exists|r: int| 0 <= r < uk.len() && #[trigger] live[r],
    ensures
        p.0 < uk.len(),
        live[p.0 as int],
        (key_view(uk[p.0 as int]@), p.1) == greedy_pick(rels@, rank_set(uk@, live@)),
{
    let ghost rem = rank_set(uk@, live@);
    let u = uk.len();
    // The least sink.
    let mut r: usize = 0;
    while r < u
        invariant
            r <= u,
            u == uk.len(),
            live.len() == u,
            strictly_sorted_keys(uk@),
            rem == rank_set(uk@, live@),
            in_w.len() == u,
            out_w.len() == u,
            forall|x: int| 0 <= x < u ==> #[trigger] out_w[x] == out_weight(rels@, rem, key_view(uk[x]@)),
            forall|x: int| 0 <= x < u ==> #[trigger] in_w[x] == in_weight(rels@, rem, key_view(uk[x]@)),
            forall|x: int| 0 <= x < r ==> !(#[trigger] live[x] && out_w[x] == 0),
        decreases u - r,
    {
        if live[r] && out_w[r] == 0 {
            proof {
                let k = key_view(uk[r as int]@);
                let sk = sink_keys(rels@, rem);
                lemma_rank_set_contains(uk@, live@, r as int);
                assert(sk.contains(k));
                assert forall|k2: Seq<AtomView>| #[trigger] sk.contains(k2) implies key_compare(k, k2) <= 0 by {
                    let r2 = choose|r2: int| 0 <= r2 < uk.len() && live[r2] && key_view(uk[r2]@) == k2;
                    assert(out_w[r2] == 0);
                    crate::order::lemma_key_facts(k, k2);
                }
                assert(is_least_key(sk, k));
                lemma_least_unique(sk, k, choose|k3: Seq<AtomView>| is_least_key(sk, k3));
            }
            return (r, true);
        }
        r = r + 1;
    }
    proof {
        assert forall|k: Seq<AtomView>| !(#[trigger] sink_keys(rels@, rem).contains(k)) by {
            if sink_keys(rels@, rem).contains(k) {
                let r2 = choose|r2: int| 0 <= r2 < uk.len() && live[r2] && key_view(uk[r2]@) == k;
                assert(live[r2] && out_w[r2] == 0);
            }
        }
    }
    // The least source.
    let mut r: usize = 0;
    while r < u
        invariant
            r <= u,
            u == uk.len(),
            live.len() == u,
            strictly_sorted_keys(uk@),
            rem == rank_set(uk@, live@),
            in_w.len() == u,
            out_w.len() == u,
            forall|x: int| 0 <= x < u ==> #[trigger] out_w[x] == out_weight(rels@, rem, key_view(uk[x]@)),
            forall|x: int| 0 <= x < u ==> #[trigger] in_w[x] == in_weight(rels@, rem, key_view(uk[x]@)),
            forall|x: int| 0 <= x < r ==> !(#[trigger] live[x] && in_w[x] == 0),
            forall|k: Seq<AtomView>| !(#[trigger] sink_keys(rels@, rem).contains(k)),
        decreases u - r,
    {
        if live[r] && in_w[r] == 0 {
            proof {
                let k = key_view(uk[r as int]@);
                let sk = source_keys(rels@, rem);
                lemma_rank_set_contains(uk@, live@, r as int);
                assert(sk.contains(k));
                assert forall|k2: Seq<AtomView>| #[trigger] sk.contains(k2) implies key_compare(k, k2) <= 0 by {
                    let r2 = choose|r2: int| 0 <= r2 < uk.len() && live[r2] && key_view(uk[r2]@) == k2;
                    assert(in_w[r2] == 0);
                    crate::order::lemma_key_facts(k, k2);
                }
                assert(is_least_key(sk, k));
                lemma_least_unique(sk, k, choose|k3: Seq<AtomView>| is_least_key(sk, k3));
            }
            return (r, false);
        }
        r = r + 1;
    }
    proof {
        assert forall|k: Seq<AtomView>| !(#[trigger] source_keys(rels@, rem).contains(k)) by {
            if source_keys(rels@, rem).contains(k) {
                let r2 = choose|r2: int| 0 <= r2 < uk.len() && live[r2] && key_view(uk[r2]@) == k;
                assert(live[r2] && in_w[r2] == 0);
            }
        }
    }
    // The greatest balance; the least key among equals.
    let mut best: usize = 0;
    let mut found = false;
    let mut best_balance: i128 = 0;
    let mut r: usize = 0;
    while r < u
        invariant
            r <= u,
            u == uk.len(),
            live.len() == u,
            out_w.len() == u,
            in_w.len() == u,
            forall|x: int| 0 <= x < u ==> #[trigger] out_w[x] <= isize::MAX && in_w[x] <= isize::MAX,
            found ==> best < r && live[best as int] && best_balance == out_w[best as int] - in_w[best as int],
            !found ==> forall|x: int| 0 <= x < r ==> !#[trigger] live[x],
            found ==> forall|x: int|
                0 <= x < r && #[trigger] live[x] ==> out_w[x] - in_w[x] < best_balance || (out_w[x] - in_w[x]
                    == best_balance && best <= x),
        decreases u - r,
    {
        if live[r] {
            let b = (out_w[r] as i128) - (in_w[r] as i128);
            if !found || b > best_balance {
                best = r;
                best_balance = b;
                found = true;
            }
        }
        r = r + 1;
    }
    proof {
        let k = key_view(uk[best as int]@);
        assert(found);
        lemma_rank_set_contains(uk@, live@, best as int);
        assert forall|k2: Seq<AtomView>| #[trigger] rem.contains(k2) implies {
            let b2 = out_weight(rels@, rem, k2) - in_weight(rels@, rem, k2);
            let b = out_weight(rels@, rem, k) - in_weight(rels@, rem, k);
            b2 < b || (b2 == b && key_compare(k, k2) <= 0)
        } by {
            let r2 = choose|r2: int| 0 <= r2 < uk.len() && live[r2] && key_view(uk[r2]@) == k2;
            assert(out_w[r2] == out_weight(rels@, rem, k2));
            assert(in_w[r2] == in_weight(rels@, rem, k2));
            crate::order::lemma_key_facts(k, k2);
        }
        assert(is_best_balance(rels@, rem, k));
        lemma_best_unique(rels@, rem, k, choose|k3: Seq<AtomView>| is_best_balance(rels@, rem, k3));
    }
    (best, false)
}


proof fn lemma_greedy_stable(members: Seq<DependencyNode>, rels: Seq<DependencyRelation>, t: nat, m: nat)
    requires
        t <= m,
        greedy_state(members, rels, t).0 == Set::<Seq<AtomView>>::empty(),
    ensures
        greedy_state(members, rels, m) == greedy_state(members, rels, t),
    decreases m - t,
{
    if t < m {
        lemma_greedy_stable(members, rels, t, (m - 1) as nat);
    }
}

/// `s` lists distinct ranks below `u`, none of them live.
pub open spec fn placed_ranks(s: Seq<usize>, live: Seq<bool>, u: int) -> bool {
    &&& forall|p: int| 0 <= p < s.len() ==> #[trigger] s[p] < u && !live[s[p] as int]
    &&& forall|p: int, q: int| 0 <= p < q < s.len() ==> s[p] != s[q]
    &&& forall|r: int| 0 <= r < u && !live[r] ==> s.contains(r as usize)
}

proof fn lemma_live_exists_bound(s: Seq<usize>, live: Seq<bool>, u: int, r: int)
    requires
        live.len() == u,
        placed_ranks(s, live, u),
        0 <= r < u,
        live[r],
    ensures
        s.len() < u,
{
    let f = |x: usize| if x > r { (x - 1) as usize } else { x };
    let t = s.map_values(f);
    assert forall|i: int| 0 <= i < t.len() implies #[trigger] t[i] < u - 1 by {
        assert(s[i] < u);
        assert(s[i] != r);
    }
    assert forall|i: int, j: int| 0 <= i < j < t.len() implies t[i] != t[j] by {
        assert(s[i] != s[j]);
        assert(s[i] != r && s[j] != r);
    }
    lemma_distinct_indices_bound(t, u - 1);
}

/// The ranks in the heuristic's order.
fn feedback_ranks(
    members: &Vec<DependencyNode>,
    uk: &Vec<Vec<KeyAtom>>,
    rels: &Vec<DependencyRelation>,
    sr: &Vec<Option<usize>>,
    tr: &Vec<Option<usize>>,
) -> (order: Vec<usize>)
    requires
        ranks_of(members@, uk@),
        sr.len() == rels.len(),
        tr.len() == rels.len(),
        forall|j: int| 0 <= j < rels.len() ==> rank_is(uk@, #[trigger] sr[j], node_key(rels[j].source)),
        forall|j: int| 0 <= j < rels.len() ==> rank_is(uk@, #[trigger] tr[j], node_key(rels[j].target)),
        total_weight(rels@) <= isize::MAX,
    ensures
        rank_keys(uk@, order@) == feedback_order(members@, rels@),
        forall|p: int| 0 <= p < order.len() ==> #[trigger] order[p] < uk.len(),
        forall|p: int, q: int| 0 <= p < q < order.len() ==> order[p] != order[q],
        forall|r: usize| r < uk.len() ==> #[trigger] order@.contains(r),
{
    let u = uk.len();
    let mut live: Vec<bool> = Vec::new();
    let mut r: usize = 0;
    while r < u
        invariant
            r <= u,
            live.len() == r,
            forall|x: int| 0 <= x < r ==> live[x],
        decreases u - r,
    {
        live.push(true);
        r = r + 1;
    }
    proof {
        assert(rank_set(uk@, live@) =~= member_keys(members@)) by {
            assert forall|k: Seq<AtomView>| rank_set(uk@, live@).contains(k) <==> member_keys(members@).contains(k) by {
                if member_keys(members@).contains(k) {
                    let r2 = choose|r2: int| 0 <= r2 < uk.len() && key_view(#[trigger] uk[r2]@) == k;
                    assert(live[r2]);
                }
            }
        }
        assert(rank_keys(uk@, Seq::<usize>::empty()) =~= Seq::<Seq<AtomView>>::empty());
    }
    let mut left: Vec<usize> = Vec::new();
    let mut right: Vec<usize> = Vec::new();
    let ghost mut t: nat = 0;
    loop
        invariant
            u == uk.len(),
            ranks_of(members@, uk@),
            live.len() == u,
            sr.len() == rels.len(),
            tr.len() == rels.len(),
            forall|j: int| 0 <= j < rels.len() ==> rank_is(uk@, #[trigger] sr[j], node_key(rels[j].source)),
            forall|j: int| 0 <= j < rels.len() ==> rank_is(uk@, #[trigger] tr[j], node_key(rels[j].target)),
            total_weight(rels@) <= isize::MAX,
            t == left.len() + right.len(),
            greedy_state(members@, rels@, t) == (rank_set(uk@, live@), rank_keys(uk@, left@), rank_keys(uk@, right@)),
            placed_ranks(left@ + right@, live@, u as int),
        ensures
            forall|x: int| 0 <= x < u ==> !#[trigger] live[x],
            t == left.len() + right.len(),
            t <= u,
            greedy_state(members@, rels@, t) == (rank_set(uk@, live@), rank_keys(uk@, left@), rank_keys(uk@, right@)),
            placed_ranks(left@ + right@, live@, u as int),
        decreases u - t,
    {
        let mut any = false;
        let mut r: usize = 0;
        while r < u
            invariant
                r <= u,
                live.len() == u,
                any ==> exists|x: int| 0 <= x < u && #[trigger] live[x],
                !any ==> forall|x: int| 0 <= x < r ==> !#[trigger] live[x],
            decreases u - r,
        {
            if live[r] {
                any = true;
            }
            r = r + 1;
        }
        if !any {
            proof {
                lemma_distinct_indices_bound(left@ + right@, u as int);
            }
            break;
        }
        proof {
            let x = choose|x: int| 0 <= x < u && #[trigger] live[x];
            lemma_live_exists_bound(left@ + right@, live@, u as int, x);
        }
        let (out_w, in_w) = degrees(uk, rels, sr, tr, &live);
        let (pick, to_end) = pick_next(uk, &out_w, &in_w, &live, Ghost(rels@));
        let ghost old_live = live@;
        let ghost old_left = left@;
        let ghost old_right = right@;
        live.set(pick, false);
        if to_end {
            right.push(pick);
        } else {
            left.push(pick);
        }
        proof {
            let rem = rank_set(uk@, old_live);
            lemma_rank_set_contains(uk@, old_live, pick as int);
            assert(rem != Set::<Seq<AtomView>>::empty()) by {
                assert(rem.contains(key_view(uk[pick as int]@)));
            }
            assert(rank_set(uk@, live@) =~= rem.remove(key_view(uk[pick as int]@))) by {
                assert forall|k: Seq<AtomView>| rank_set(uk@, live@).contains(k) <==> rem.remove(key_view(uk[pick as int]@)).contains(k) by {
                    if rank_set(uk@, live@).contains(k) {
                        let r2 = choose|r2: int| 0 <= r2 < uk.len() && live[r2] && key_view(uk[r2]@) == k;
                        assert(old_live[r2]);
                        if k == key_view(uk[pick as int]@) {
                            lemma_rank_unique(uk@, r2, pick as int);
                        }
                    }
                    if rem.remove(key_view(uk[pick as int]@)).contains(k) {
                        let r2 = choose|r2: int| 0 <= r2 < uk.len() && old_live[r2] && key_view(uk[r2]@) == k;
                        assert(r2 != pick);
                        assert(live[r2]);
                    }
                }
            }
            assert(rank_keys(uk@, left@) =~= if to_end { rank_keys(uk@, old_left) } else { rank_keys(uk@, old_left).push(key_view(uk[pick as int]@)) });
            assert(rank_keys(uk@, right@) =~= if to_end { rank_keys(uk@, old_right).push(key_view(uk[pick as int]@)) } else { rank_keys(uk@, old_right) });
            let s0 = old_left + old_right;
            let s1 = left@ + right@;
            assert forall|p: int| 0 <= p < s1.len() implies #[trigger] s1[p] < u && !live[s1[p] as int] by {
                if to_end {
                    if p < s0.len() {
                        assert(s1[p] == s0[p]);
                    } else {
                        assert(s1[p] == pick);
                    }
                } else {
                    if p < old_left.len() {
                        assert(s1[p] == s0[p]);
                    } else if p == old_left.len() {
                        assert(s1[p] == pick);
                    } else {
                        assert(s1[p] == s0[p - 1]);
                    }
                }
            }
            assert forall|p: int, q: int| 0 <= p < q < s1.len() implies s1[p] != s1[q] by {
                if to_end {
                    if q < s0.len() {
                        assert(s1[p] == s0[p] && s1[q] == s0[q]);
                    } else {
                        assert(s1[p] == s0[p]);
                        assert(!old_live[s0[p] as int]);
                    }
                } else {
                    let a = if p < old_left.len() { p } else { p - 1 };
                    let b = if q < old_left.len() { q } else { q - 1 };
                    if p == old_left.len() {
                        assert(s1[q] == s0[b]);
                        assert(!old_live[s0[b] as int]);
                    } else if q == old_left.len() {
                        assert(s1[p] == s0[a]);
                        assert(!old_live[s0[a] as int]);
                    } else {
                        assert(s1[p] == s0[a] && s1[q] == s0[b]);
                    }
                }
            }
            assert forall|x: int| 0 <= x < u && !live[x] implies s1.contains(x as usize) by {
                if x == pick {
                    if to_end {
                        assert(s1[s1.len() - 1] == pick);
                    } else {
                        assert(s1[old_left.len() as int] == pick);
                    }
                } else {
                    assert(!old_live[x]);
                    let p = choose|p: int| 0 <= p < s0.len() && s0[p] == x as usize;
                    if to_end {
                        assert(s1[p] == s0[p]);
                    } else if p < old_left.len() {
                        assert(s1[p] == s0[p]);
                    } else {
                        assert(s1[p + 1] == s0[p]);
                    }
                }
            }
            t = t + 1;
        }
    }
    proof {
        assert(rank_set(uk@, live@) =~= Set::<Seq<AtomView>>::empty());
        lemma_greedy_stable(members@, rels@, t, members.len() as nat);
    }
    let mut order: Vec<usize> = Vec::new();
    let mut p: usize = 0;
    while p < left.len()
        invariant
            p <= left.len(),
            order@ == left@.take(p as int),
        decreases left.len() - p,
    {
        order.push(left[p]);
        p = p + 1;
        assert(order@ =~= left@.take(p as int));
    }
    let mut q: usize = right.len();
    while q > 0
        invariant
            q <= right.len(),
            order@ == left@ + right@.reverse().take(right.len() - q),
        decreases q,
    {
        q = q - 1;
        order.push(right[q]);
        assert(order@ =~= left@ + right@.reverse().take(right.len() - q));
    }
    proof {
        assert(left@.take(left.len() as int) =~= left@);
        assert(right@.reverse().take(right.len() as int) =~= right@.reverse());
        assert(rank_keys(uk@, order@) =~= rank_keys(uk@, left@) + rank_keys(uk@, right@).reverse());
        let s1 = left@ + right@;
        assert forall|p2: int| 0 <= p2 < order.len() implies #[trigger] order[p2] < uk.len() by {
            if p2 < left.len() {
                assert(order[p2] == s1[p2]);
            } else {
                assert(order[p2] == s1[left.len() + (right.len() - 1 - (p2 - left.len()))]);
            }
        }
        assert forall|p2: int, q2: int| 0 <= p2 < q2 < order.len() implies order[p2] != order[q2] by {
            let a = if p2 < left.len() { p2 } else { left.len() + (right.len() - 1 - (p2 - left.len())) };
            let b = if q2 < left.len() { q2 } else { left.len() + (right.len() - 1 - (q2 - left.len())) };
            assert(order[p2] == s1[a]);
            assert(order[q2] == s1[b]);
            assert(a != b);
        }
        assert forall|r2: usize| r2 < uk.len() implies #[trigger] order@.contains(r2) by {
            assert(!live[r2 as int]);
            assert(s1.contains(r2));
            let p2 = choose|p2: int| 0 <= p2 < s1.len() && s1[p2] == r2;
            if p2 < left.len() {
                assert(order[p2] == s1[p2]);
            } else {
                let o = left.len() + (right.len() - 1 - (p2 - left.len()));
                assert(order[o] == s1[p2]);
            }
        }
    }
    order
}


// ---------------------------------------------------------------------
// Cuts.
// ---------------------------------------------------------------------

pub open spec fn internal_pred(members: Seq<DependencyNode>) -> spec_fn(DependencyRelation) -> bool {
    |r: DependencyRelation| is_internal(members, r)
}

pub open spec fn cut_pred(members: Seq<DependencyNode>, order: Seq<Seq<AtomView>>) -> spec_fn(DependencyRelation) -> bool {
    |r: DependencyRelation| is_cut(members, order, r)
}

fn copy_evidence(e: &GraphEvidence) -> (r: GraphEvidence)
    ensures
        r@ == e@,
{
    GraphEvidence { source_path: crate::text::copy_string(&e.source_path), reference: e.reference.copy() }
}

/// A copy of a relation.
pub fn copy_relation(r: &DependencyRelation) -> (c: DependencyRelation)
    ensures
        relation_view(c) == relation_view(*r),
{
    let mut evidence: Vec<GraphEvidence> = Vec::new();
    let mut i: usize = 0;
    while i < r.evidence.len()
        invariant
            i <= r.evidence.len(),
            evidence.len() == i,
            forall|x: int| 0 <= x < i ==> (#[trigger] evidence[x])@ == r.evidence[x]@,
        decreases r.evidence.len() - i,
    {
        evidence.push(copy_evidence(&r.evidence[i]));
        i = i + 1;
    }
    let c = DependencyRelation { source: r.source.copy(), target: r.target.copy(), kind: r.kind, evidence };
    proof {
        assert(c.evidence@.map_values(|e: GraphEvidence| e@) =~= r.evidence@.map_values(|e: GraphEvidence| e@));
    }
    c
}

proof fn lemma_member_rank(members: Seq<DependencyNode>, uk: Seq<Vec<KeyAtom>>, o: Option<usize>, k: Seq<AtomView>)
    requires
        ranks_of(members, uk),
        rank_is(uk, o, k),
    ensures
        is_member_key(members, k) <==> o is Some,
{
    if is_member_key(members, k) {
        let r = choose|r: int| 0 <= r < uk.len() && key_view(#[trigger] uk[r]@) == k;
        if o is None {
            assert(key_view(uk[r]@) != k);
        }
    }
    if let Some(x) = o {
        assert(is_member_key(members, key_view(uk[x as int]@)));
    }
}

/// The internal relations that go backwards in the heuristic's order.
fn cut_relations(
    members: &Vec<DependencyNode>,
    uk: &Vec<Vec<KeyAtom>>,
    rels: &Vec<DependencyRelation>,
    sr: &Vec<Option<usize>>,
    tr: &Vec<Option<usize>>,
    order: &Vec<usize>,
) -> (cuts: Vec<DependencyRelation>)
    requires
        ranks_of(members@, uk@),
        sr.len() == rels.len(),
        tr.len() == rels.len(),
        forall|j: int| 0 <= j < rels.len() ==> rank_is(uk@, #[trigger] sr[j], node_key(rels[j].source)),
        forall|j: int| 0 <= j < rels.len() ==> rank_is(uk@, #[trigger] tr[j], node_key(rels[j].target)),
        forall|p: int| 0 <= p < order.len() ==> #[trigger] order[p] < uk.len(),
        forall|p: int, q: int| 0 <= p < q < order.len() ==> order[p] != order[q],
        forall|r: usize| r < uk.len() ==> #[trigger] order@.contains(r),
    ensures
        cuts@.map_values(|c: DependencyRelation| relation_view(c)) == kept_views(
            rels@,
            cut_pred(members@, rank_keys(uk@, order@)),
        ),
{
    let u = uk.len();
    let ghost ok = rank_keys(uk@, order@);
    // Position of each rank.
    let mut pos: Vec<usize> = Vec::new();
    let mut r: usize = 0;
    while r < u
        invariant
            r <= u,
            pos.len() == r,
        decreases u - r,
    {
        pos.push(0);
        r = r + 1;
    }
    let mut p: usize = 0;
    while p < order.len()
        invariant
            p <= order.len(),
            pos.len() == u,
            u == uk.len(),
            forall|x: int| 0 <= x < order.len() ==> #[trigger] order[x] < u,
            forall|x: int, y: int| 0 <= x < y < order.len() ==> order[x] != order[y],
            forall|x: int| 0 <= x < p ==> pos[#[trigger] order[x] as int] == x,
        decreases order.len() - p,
    {
        let ghost before = pos@;
        pos.set(order[p], p);
        proof {
            assert forall|x: int| 0 <= x < p + 1 implies pos[#[trigger] order[x] as int] == x by {
                if x < p {
                    assert(order[x] != order[p as int]);
                    assert(before[order[x] as int] == x);
                }
            }
        }
        p = p + 1;
    }
    proof {
        assert forall|a: int| 0 <= a < u implies position(ok, key_view(#[trigger] uk[a]@)) == pos[a] by {
            assert(order@.contains(a as usize));
            let x = choose|x: int| 0 <= x < order.len() && order[x] == a as usize;
            assert(pos[a] == x);
            assert(ok[x] == key_view(uk[a]@));
            let y = position(ok, key_view(uk[a]@));
            assert(0 <= y < ok.len() && ok[y] == key_view(uk[a]@));
            assert(ok[y] == key_view(uk[order[y] as int]@));
            lemma_rank_unique(uk@, order[y] as int, a);
            if x != y {
                assert(order[x] != order[y]);
            }
        }
    }
    let mut cuts: Vec<DependencyRelation> = Vec::new();
    let mut j: usize = 0;
    while j < rels.len()
        invariant
            j <= rels.len(),
            u == uk.len(),
            pos.len() == u,
            ok == rank_keys(uk@, order@),
            ranks_of(members@, uk@),
            sr.len() == rels.len(),
            tr.len() == rels.len(),
            forall|x: int| 0 <= x < rels.len() ==> rank_is(uk@, #[trigger] sr[x], node_key(rels[x].source)),
            forall|x: int| 0 <= x < rels.len() ==> rank_is(uk@, #[trigger] tr[x], node_key(rels[x].target)),
            forall|a: int| 0 <= a < u ==> position(ok, key_view(#[trigger] uk[a]@)) == pos[a],
            cuts@.map_values(|c: DependencyRelation| relation_view(c)) == kept_views(
                rels@.take(j as int),
                cut_pred(members@, ok),
            ),
        decreases rels.len() - j,
    {
        let ghost t = rels@.take(j + 1);
        proof {
            assert(t.drop_last() =~= rels@.take(j as int));
            assert(t.last() == rels[j as int]);
            lemma_member_rank(members@, uk@, sr[j as int], node_key(rels[j as int].source));
            lemma_member_rank(members@, uk@, tr[j as int], node_key(rels[j as int].target));
        }
        let ghost before = cuts@;
        let mut is_cut_now = false;
        if rels[j].kind == DependencyRelationKind::Exact {
            match (sr[j], tr[j]) {
                (Some(a), Some(b)) => {
                    if pos[a] >= pos[b] {
                        cuts.push(copy_relation(&rels[j]));
                        is_cut_now = true;
                    }
                },
                _ => {},
            }
        }
        proof {
            assert(is_cut_now == cut_pred(members@, ok)(rels[j as int]));
            if is_cut_now {
                assert(cuts@.map_values(|c: DependencyRelation| relation_view(c)) =~= before.map_values(
                    |c: DependencyRelation| relation_view(c),
                ).push(relation_view(rels[j as int])));
            } else {
                assert(cuts@ == before);
            }
        }
        j = j + 1;
    }
    proof {
        assert(rels@.take(rels.len() as int) =~= rels@);
    }
    cuts
}


// ---------------------------------------------------------------------
// The witness: a closed walk through the component.
// ---------------------------------------------------------------------

/// An internal relation goes from `a` to `b`.
pub open spec fn internal_edge(
    members: Seq<DependencyNode>,
    rels: Seq<DependencyRelation>,
    a: Seq<AtomView>,
    b: Seq<AtomView>,
) -> bool {
    exists|j: int|
        0 <= j < rels.len() && is_internal(members, #[trigger] rels[j]) && node_key(rels[j].source) == a
            && node_key(rels[j].target) == b
}

pub open spec fn internal_edge_fn(
    members: Seq<DependencyNode>,
    rels: Seq<DependencyRelation>,
) -> spec_fn(Seq<AtomView>, Seq<AtomView>) -> bool {
    |a: Seq<AtomView>, b: Seq<AtomView>| internal_edge(members, rels, a, b)
}

/// Some relation is internal.
pub open spec fn has_internal(members: Seq<DependencyNode>, rels: Seq<DependencyRelation>) -> bool {
    exists|j: int| 0 <= j < rels.len() && is_internal(members, #[trigger] rels[j])
}

/// Adjacency lists of ranks: each list ascending, without repeats.
pub open spec fn adjacency_ok(adj: Seq<Vec<usize>>, n: int) -> bool {
    &&& adj.len() == n
    &&& forall|r: int, i: int| 0 <= r < n && 0 <= i < adj[r].len() ==> #[trigger] adj[r][i] < n
    &&& forall|r: int, i: int, j: int| 0 <= r < n && 0 <= i < j < adj[r].len() ==> #[trigger] adj[r][i] < #[trigger] adj[r][j]
}

/// A walk of ranks along the adjacency lists.
pub open spec fn is_rank_walk(adj: Seq<Vec<usize>>, w: Seq<usize>) -> bool {
    &&& w.len() >= 1
    &&& forall|k: int| 0 <= k < w.len() ==> #[trigger] w[k] < adj.len()
    &&& forall|k: int| #![trigger w[k]] 0 <= k < w.len() - 1 ==> adj[w[k] as int]@.contains(w[k + 1])
}

/// The targets of the internal relations from each rank.
fn adjacency(
    members: &Vec<DependencyNode>,
    uk: &Vec<Vec<KeyAtom>>,
    rels: &Vec<DependencyRelation>,
    sr: &Vec<Option<usize>>,
    tr: &Vec<Option<usize>>,
) -> (adj: Vec<Vec<usize>>)
    requires
        ranks_of(members@, uk@),
        sr.len() == rels.len(),
        tr.len() == rels.len(),
        forall|j: int| 0 <= j < rels.len() ==> rank_is(uk@, #[trigger] sr[j], node_key(rels[j].source)),
        forall|j: int| 0 <= j < rels.len() ==> rank_is(uk@, #[trigger] tr[j], node_key(rels[j].target)),
    ensures
        adjacency_ok(adj@, uk.len() as int),
        forall|a: int, b: usize|
            0 <= a < uk.len() && b < uk.len() ==> (#[trigger] adj[a]@.contains(b) <==> internal_edge(
                members@,
                rels@,
                key_view(uk[a]@),
                key_view(uk[b as int]@),
            )),
{
    let u = uk.len();
    let mut adj: Vec<Vec<usize>> = Vec::new();
    let mut a: usize = 0;
    while a < u
        invariant
            a <= u,
            u == uk.len(),
            ranks_of(members@, uk@),
            sr.len() == rels.len(),
            tr.len() == rels.len(),
            forall|j: int| 0 <= j < rels.len() ==> rank_is(uk@, #[trigger] sr[j], node_key(rels[j].source)),
            forall|j: int| 0 <= j < rels.len() ==> rank_is(uk@, #[trigger] tr[j], node_key(rels[j].target)),
            adj.len() == a,
            forall|r: int, i: int| 0 <= r < a && 0 <= i < adj[r].len() ==> #[trigger] adj[r][i] < u,
            forall|r: int, i: int, j: int| 0 <= r < a && 0 <= i < j < adj[r].len() ==> #[trigger] adj[r][i] < #[trigger] adj[r][j],
            forall|r: int, b: usize|
                0 <= r < a && b < u ==> (#[trigger] adj[r]@.contains(b) <==> internal_edge(
                    members@,
                    rels@,
                    key_view(uk[r]@),
                    key_view(uk[b as int]@),
                )),
        decreases u - a,
    {
        let mut mark: Vec<bool> = Vec::new();
        let mut b: usize = 0;
        while b < u
            invariant
                b <= u,
                mark.len() == b,
                forall|x: int| 0 <= x < b ==> !mark[x],
            decreases u - b,
        {
            mark.push(false);
            b = b + 1;
        }
        let mut j: usize = 0;
        while j < rels.len()
            invariant
                j <= rels.len(),
                a < u,
                u == uk.len(),
                mark.len() == u,
                ranks_of(members@, uk@),
                sr.len() == rels.len(),
                tr.len() == rels.len(),
                forall|x: int| 0 <= x < rels.len() ==> rank_is(uk@, #[trigger] sr[x], node_key(rels[x].source)),
                forall|x: int| 0 <= x < rels.len() ==> rank_is(uk@, #[trigger] tr[x], node_key(rels[x].target)),
                forall|b2: int|
                    0 <= b2 < u ==> (#[trigger] mark[b2] <==> exists|x: int|
                        0 <= x < j && is_internal(members@, #[trigger] rels[x]) && node_key(rels[x].source)
                            == key_view(uk[a as int]@) && node_key(rels[x].target) == key_view(uk[b2]@)),
            decreases rels.len() - j,
        {
            proof {
                lemma_member_rank(members@, uk@, sr[j as int], node_key(rels[j as int].source));
                lemma_member_rank(members@, uk@, tr[j as int], node_key(rels[j as int].target));
            }
            let ghost before = mark@;
            if rels[j].kind == DependencyRelationKind::Exact {
                match (sr[j], tr[j]) {
                    (Some(x), Some(y)) => {
                        if x == a {
                            mark.set(y, true);
                        }
                    },
                    _ => {},
                }
            }
            proof {
                assert forall|b2: int| 0 <= b2 < u implies (#[trigger] mark[b2] <==> exists|x: int|
                    0 <= x < j + 1 && is_internal(members@, #[trigger] rels[x]) && node_key(rels[x].source)
                        == key_view(uk[a as int]@) && node_key(rels[x].target) == key_view(uk[b2]@)) by {
                    let rj = rels[j as int];
                    let here = is_internal(members@, rj) && node_key(rj.source) == key_view(uk[a as int]@)
                        && node_key(rj.target) == key_view(uk[b2]@);
                    if here {
                        if let Some(x) = sr[j as int] {
                            lemma_rank_unique(uk@, x as int, a as int);
                        }
                        if let Some(y) = tr[j as int] {
                            lemma_rank_unique(uk@, y as int, b2);
                        }
                    }
                    if mark[b2] && !before[b2] {
                        assert(here);
                    }
                    if before[b2] {
                        let x = choose|x: int|
                            0 <= x < j && is_internal(members@, #[trigger] rels[x]) && node_key(rels[x].source)
                                == key_view(uk[a as int]@) && node_key(rels[x].target) == key_view(uk[b2]@);
                    }
                }
            }
            j = j + 1;
        }
        let mut row: Vec<usize> = Vec::new();
        let mut b: usize = 0;
        while b < u
            invariant
                b <= u,
                mark.len() == u,
                forall|i: int| 0 <= i < row.len() ==> #[trigger] row[i] < b,
                forall|i: int, k: int| 0 <= i < k < row.len() ==> #[trigger] row[i] < #[trigger] row[k],
                forall|b2: usize| b2 < b ==> (#[trigger] row@.contains(b2) <==> mark[b2 as int]),
            decreases u - b,
        {
            let ghost old_row = row@;
            if mark[b] {
                row.push(b);
                proof {
                    assert(row[row.len() - 1] == b);
                }
            }
            proof {
                assert forall|b2: usize| b2 < b + 1 implies (#[trigger] row@.contains(b2) <==> mark[b2 as int]) by {
                    if row@.contains(b2) {
                        let i = choose|i: int| 0 <= i < row.len() && row[i] == b2;
                        if i < old_row.len() {
                            assert(old_row[i] == b2);
                            assert(old_row.contains(b2));
                        }
                    }
                    if b2 < b && old_row.contains(b2) {
                        let i = choose|i: int| 0 <= i < old_row.len() && old_row[i] == b2;
                        assert(row[i] == b2);
                    }
                    if b2 == b && old_row.contains(b2) {
                        let i = choose|i: int| 0 <= i < old_row.len() && old_row[i] == b2;
                        assert(old_row[i] < b);
                    }
                }
            }
            b = b + 1;
        }
        let ghost old_adj = adj@;
        adj.push(row);
        proof {
            assert forall|r: int, b2: usize|
                0 <= r < a + 1 && b2 < u implies (#[trigger] adj[r]@.contains(b2) <==> internal_edge(
                members@,
                rels@,
                key_view(uk[r]@),
                key_view(uk[b2 as int]@),
            )) by {
                if r < a {
                    assert(adj[r] == old_adj[r]);
                } else {
                    assert(adj[r]@ == row@);
                    if internal_edge(members@, rels@, key_view(uk[r]@), key_view(uk[b2 as int]@)) {
                        let x = choose|x: int|
                            0 <= x < rels.len() && is_internal(members@, #[trigger] rels[x]) && node_key(rels[x].source)
                                == key_view(uk[r]@) && node_key(rels[x].target) == key_view(uk[b2 as int]@);
                        assert(mark[b2 as int]);
                    }
                }
            }
            assert forall|r: int, i: int| 0 <= r < a + 1 && 0 <= i < adj[r].len() implies #[trigger] adj[r][i] < u by {
                if r < a {
                    assert(adj[r] == old_adj[r]);
                }
            }
            assert forall|r: int, i: int, k: int| 0 <= r < a + 1 && 0 <= i < k < adj[r].len() implies #[trigger] adj[r][i] < #[trigger] adj[r][k] by {
                if r < a {
                    assert(adj[r] == old_adj[r]);
                }
            }
        }
        a = a + 1;
    }
    adj
}

/// A walk of ranks from `a` to `b`.
pub open spec fn rank_path(adj: Seq<Vec<usize>>, w: Seq<usize>, a: usize, b: usize) -> bool {
    &&& is_rank_walk(adj, w)
    &&& w[0] == a
    &&& w[w.len() - 1] == b
}

/// During a breadth-first search: the vertices that a walk from the start
/// reaches within `k` steps are visited at a distance of at most `k`, where
/// `k` is no more than the distance of the next vertex to expand (or any `k`
/// once every queued vertex is expanded).
proof fn lemma_bfs_reach(
    adj: Seq<Vec<usize>>,
    queue: Seq<usize>,
    head: int,
    visited: Seq<bool>,
    dist: Seq<nat>,
    start: usize,
    w: Seq<usize>,
    k: int,
)
    requires
        visited.len() == adj.len(),
        dist.len() == adj.len(),
        start < adj.len(),
        visited[start as int],
        dist[start as int] == 0,
        0 <= head <= queue.len(),
        forall|q: int| 0 <= q < queue.len() ==> #[trigger] queue[q] < adj.len(),
        forall|v: int| 0 <= v < adj.len() && #[trigger] visited[v] ==> queue.contains(v as usize),
        expanded(adj, queue, visited, dist, head),
        queue_sorted(queue, dist),
        is_rank_walk(adj, w),
        w[0] == start,
        0 <= k < w.len(),
        head == queue.len() || k <= dist[queue[head] as int],
    ensures
        visited[w[k] as int],
        dist[w[k] as int] <= k,
    decreases k,
{
    reveal(expanded);
    reveal(queue_sorted);
    if k > 0 {
        lemma_bfs_reach(adj, queue, head, visited, dist, start, w, k - 1);
        let y = w[k - 1];
        assert(adj[y as int]@.contains(w[k]));
        let q = choose|q: int| 0 <= q < queue.len() && queue[q] == y;
        if q >= head {
            if q > head {
                assert(dist[queue[head] as int] <= dist[queue[q] as int]);
            }
        }
        let j = choose|j: int| 0 <= j < adj[y as int].len() && adj[y as int]@[j] == w[k];
        assert(adj[queue[q] as int][j] == w[k]);
    }
}

/// The predecessors the search records: each visited vertex but the start
/// has a visited predecessor one step nearer, with an edge to it.
#[verifier::opaque]
pub open spec fn preds_ok(adj: Seq<Vec<usize>>, visited: Seq<bool>, prev: Seq<usize>, dist: Seq<nat>, start: usize) -> bool {
    forall|v: int|
        0 <= v < adj.len() && #[trigger] visited[v] && v != start ==> {
            &&& prev[v] < adj.len()
            &&& visited[prev[v] as int]
            &&& dist[v] == dist[prev[v] as int] + 1
            &&& adj[prev[v] as int]@.contains(v as usize)
        }
}

/// The queue holds its vertices in order of distance.
#[verifier::opaque]
pub open spec fn queue_sorted(queue: Seq<usize>, dist: Seq<nat>) -> bool {
    forall|q1: int, q2: int| 0 <= q1 < q2 < queue.len() ==> dist[#[trigger] queue[q1] as int] <= dist[#[trigger] queue[q2] as int]
}

/// Each of the first `h` queued vertices has its neighbors visited, at most
/// one step farther.
#[verifier::opaque]
pub open spec fn expanded(adj: Seq<Vec<usize>>, queue: Seq<usize>, visited: Seq<bool>, dist: Seq<nat>, h: int) -> bool {
    forall|q: int, j: int|
        0 <= q < h && 0 <= j < adj[queue[q] as int].len() ==> visited[#[trigger] adj[queue[q] as int][j] as int]
            && dist[adj[queue[q] as int][j] as int] <= dist[queue[q] as int] + 1
}

/// One step of the search: queuing an unvisited neighbor `nb` of `node` at
/// one more than `node`'s distance keeps what the search maintains.
proof fn lemma_bfs_visit(
    adj: Seq<Vec<usize>>,
    start: usize,
    target: usize,
    node: usize,
    h0: int,
    i: int,
    visited: Seq<bool>,
    prev: Seq<usize>,
    dist: Seq<nat>,
    queue: Seq<usize>,
    nb: usize,
)
    requires
        adjacency_ok(adj, adj.len() as int),
        node < adj.len(),
        start < adj.len(),
        node != target,
        visited.len() == adj.len(),
        prev.len() == adj.len(),
        dist.len() == adj.len(),
        visited[start as int],
        visited[node as int],
        !visited[nb as int],
        0 <= i < adj[node as int].len(),
        adj[node as int][i] == nb,
        0 <= h0 < queue.len(),
        queue[h0] == node,
        queue.len() < adj.len(),
        forall|q: int| 0 <= q < queue.len() ==> #[trigger] queue[q] < adj.len() && visited[queue[q] as int],
        forall|q1: int, q2: int| 0 <= q1 < q2 < queue.len() ==> queue[q1] != queue[q2],
        forall|v: int| 0 <= v < adj.len() && #[trigger] visited[v] ==> queue.contains(v as usize),
        preds_ok(adj, visited, prev, dist, start),
        queue_sorted(queue, dist),
        forall|q: int| 0 <= q < queue.len() ==> dist[#[trigger] queue[q] as int] <= dist[node as int] + 1,
        expanded(adj, queue, visited, dist, h0),
        forall|j: int| 0 <= j < i ==> visited[#[trigger] adj[node as int][j] as int] && dist[adj[node as int][j] as int] <= dist[node as int] + 1,
        forall|q: int| 0 <= q <= h0 ==> #[trigger] queue[q] != target,
    ensures
        ({
            let visited2 = visited.update(nb as int, true);
            let prev2 = prev.update(nb as int, node);
            let dist2 = dist.update(nb as int, dist[node as int] + 1);
            let queue2 = queue.push(nb);
            &&& queue2[h0] == node
            &&& visited2[start as int]
            &&& visited2[node as int]
            &&& dist2[start as int] == dist[start as int]
            &&& forall|q: int| 0 <= q < queue2.len() ==> #[trigger] queue2[q] < adj.len() && visited2[queue2[q] as int]
            &&& forall|q1: int, q2: int| 0 <= q1 < q2 < queue2.len() ==> queue2[q1] != queue2[q2]
            &&& forall|v: int| 0 <= v < adj.len() && #[trigger] visited2[v] ==> queue2.contains(v as usize)
            &&& preds_ok(adj, visited2, prev2, dist2, start)
            &&& queue_sorted(queue2, dist2)
            &&& forall|q: int| 0 <= q < queue2.len() ==> dist2[#[trigger] queue2[q] as int] <= dist2[node as int] + 1
            &&& expanded(adj, queue2, visited2, dist2, h0)
            &&& forall|j: int| 0 <= j < i + 1 ==> visited2[#[trigger] adj[node as int][j] as int] && dist2[adj[node as int][j] as int]
                <= dist2[node as int] + 1
            &&& forall|q: int| 0 <= q <= h0 ==> #[trigger] queue2[q] != target
        }),
{
    let visited2 = visited.update(nb as int, true);
    let prev2 = prev.update(nb as int, node);
    let dist2 = dist.update(nb as int, dist[node as int] + 1);
    let queue2 = queue.push(nb);
    reveal(preds_ok);
    reveal(queue_sorted);
    reveal(expanded);
    assert(nb != start);
    assert(nb != node);
    assert(adj[node as int]@.contains(nb)) by {
        assert(adj[node as int]@[i] == nb);
    }
    assert(queue2[h0] == queue[h0]);
    assert forall|v: int|
        0 <= v < adj.len() && #[trigger] visited2[v] && v != start implies {
            &&& prev2[v] < adj.len()
            &&& visited2[prev2[v] as int]
            &&& dist2[v] == dist2[prev2[v] as int] + 1
            &&& adj[prev2[v] as int]@.contains(v as usize)
        } by {
        if v != nb {
            assert(visited[v]);
            assert(visited[prev[v] as int]);
        }
    }
    assert forall|v: int| 0 <= v < adj.len() && #[trigger] visited2[v] implies queue2.contains(v as usize) by {
        if v == nb {
            assert(queue2[queue2.len() - 1] == nb);
        } else {
            assert(visited[v]);
            let q = choose|q: int| 0 <= q < queue.len() && queue[q] == v as usize;
            assert(queue2[q] == queue[q]);
        }
    }
    assert forall|q: int| 0 <= q < queue2.len() implies #[trigger] queue2[q] < adj.len() && visited2[queue2[q] as int] by {
        if q < queue.len() {
            assert(queue2[q] == queue[q]);
        }
    }
    assert forall|q1: int, q2: int| 0 <= q1 < q2 < queue2.len() implies queue2[q1] != queue2[q2] by {
        assert(queue2[q1] == queue[q1]);
        if q2 == queue.len() {
            assert(visited[queue[q1] as int]);
        } else {
            assert(queue2[q2] == queue[q2]);
        }
    }
    assert forall|q: int| 0 <= q < queue.len() implies dist2[#[trigger] queue[q] as int] == dist[queue[q] as int] by {
        assert(visited[queue[q] as int]);
    }
    assert forall|q1: int, q2: int| 0 <= q1 < q2 < queue2.len() implies dist2[#[trigger] queue2[q1] as int]
        <= dist2[#[trigger] queue2[q2] as int] by {
        assert(queue2[q1] == queue[q1]);
        assert(dist2[queue[q1] as int] == dist[queue[q1] as int]);
        if q2 < queue.len() {
            assert(queue2[q2] == queue[q2]);
            assert(dist2[queue[q2] as int] == dist[queue[q2] as int]);
        }
    }
    assert forall|q: int| 0 <= q < queue2.len() implies dist2[#[trigger] queue2[q] as int] <= dist2[node as int] + 1 by {
        if q < queue.len() {
            assert(queue2[q] == queue[q]);
            assert(dist2[queue[q] as int] == dist[queue[q] as int]);
        }
    }
    assert forall|q: int, j: int|
        0 <= q < h0 && 0 <= j < adj[queue2[q] as int].len() implies visited2[#[trigger] adj[queue2[q] as int][j] as int]
            && dist2[adj[queue2[q] as int][j] as int] <= dist2[queue2[q] as int] + 1 by {
        assert(queue2[q] == queue[q]);
        assert(visited[adj[queue[q] as int][j] as int]);
        assert(dist2[queue[q] as int] == dist[queue[q] as int]);
    }
    assert forall|j: int| 0 <= j < i + 1 implies visited2[#[trigger] adj[node as int][j] as int] && dist2[adj[node as int][j] as int]
        <= dist2[node as int] + 1 by {
        if j < i {
            assert(visited[adj[node as int][j] as int]);
        }
    }
    assert forall|q: int| 0 <= q <= h0 implies #[trigger] queue2[q] != target by {
        assert(queue2[q] == queue[q]);
    }
}

/// A shortest path of ranks from `start` to `target` found by breadth-first
/// search, neighbors taken in order; nothing when no walk leads there.
fn bfs_path(adj: &Vec<Vec<usize>>, start: usize, target: usize) -> (p: Option<Vec<usize>>)
    requires
        adjacency_ok(adj@, adj.len() as int),
        start < adj.len(),
        target < adj.len(),
    ensures
        match p {
            Some(path) => rank_path(adj@, path@, start, target) && forall|w: Seq<usize>|
                #[trigger] rank_path(adj@, w, start, target) ==> path.len() <= w.len(),
            None => forall|w: Seq<usize>| !#[trigger] rank_path(adj@, w, start, target),
        },
{
    let n = adj.len();
    let mut visited: Vec<bool> = Vec::new();
    let mut prev: Vec<usize> = Vec::new();
    let mut k: usize = 0;
    while k < n
        invariant
            k <= n,
            visited.len() == k,
            prev.len() == k,
            forall|x: int| 0 <= x < k ==> !visited[x],
        decreases n - k,
    {
        visited.push(false);
        prev.push(0);
        k = k + 1;
    }
    let ghost mut dist: Seq<nat> = Seq::new(n as nat, |x: int| 0nat);
    visited.set(start, true);
    let mut queue: Vec<usize> = Vec::new();
    queue.push(start);
    proof {
        assert forall|v: int| 0 <= v < n && #[trigger] visited[v] implies queue@.contains(v as usize) by {
            assert(v == start);
            assert(queue[0] == start);
        }
        reveal(preds_ok);
        reveal(queue_sorted);
        reveal(expanded);
    }
    let mut head: usize = 0;
    while head < queue.len()
        invariant
            n == adj.len(),
            adjacency_ok(adj@, n as int),
            start < n,
            target < n,
            visited.len() == n,
            prev.len() == n,
            dist.len() == n,
            visited[start as int],
            dist[start as int] == 0,
            head <= queue.len(),
            queue.len() <= n,
            forall|q: int| 0 <= q < queue.len() ==> #[trigger] queue[q] < n && visited[queue[q] as int],
            forall|q1: int, q2: int| 0 <= q1 < q2 < queue.len() ==> queue[q1] != queue[q2],
            forall|v: int| 0 <= v < n && #[trigger] visited[v] ==> queue@.contains(v as usize),
            preds_ok(adj@, visited@, prev@, dist, start),
            queue_sorted(queue@, dist),
            head < queue.len() ==> forall|q: int| 0 <= q < queue.len() ==> dist[#[trigger] queue[q] as int] <= dist[queue[head as int] as int] + 1,
            expanded(adj@, queue@, visited@, dist, head as int),
            forall|q: int| 0 <= q < head ==> #[trigger] queue[q] != target,
        decreases n - head,
    {
        let node = queue[head];
        if node == target {
            proof {
                assert forall|w: Seq<usize>| #[trigger] rank_path(adj@, w, start, target) implies dist[target as int] + 1 <= w.len() by {
                    if w.len() - 1 < dist[target as int] {
                        lemma_bfs_reach(adj@, queue@, head as int, visited@, dist, start, w, w.len() - 1);
                    }
                }
                reveal(preds_ok);
            }
            return Some(trace_back(adj, &visited, &prev, Ghost(dist), start, target));
        }
        let ghost h0 = head as int;
        head = head + 1;
        let row = &adj[node];
        let mut i: usize = 0;
        while i < row.len()
            invariant
                n == adj.len(),
                adjacency_ok(adj@, n as int),
                node < n,
                row == adj[node as int],
                start < n,
                target < n,
                node != target,
                visited.len() == n,
                prev.len() == n,
                dist.len() == n,
                visited[start as int],
                dist[start as int] == 0,
                visited[node as int],
                0 <= h0,
                head == h0 + 1,
                head <= queue.len(),
                queue[h0] == node,
                queue.len() <= n,
                i <= row.len(),
                forall|q: int| 0 <= q < queue.len() ==> #[trigger] queue[q] < n && visited[queue[q] as int],
                forall|q1: int, q2: int| 0 <= q1 < q2 < queue.len() ==> queue[q1] != queue[q2],
                forall|v: int| 0 <= v < n && #[trigger] visited[v] ==> queue@.contains(v as usize),
                preds_ok(adj@, visited@, prev@, dist, start),
                queue_sorted(queue@, dist),
                forall|q: int| 0 <= q < queue.len() ==> dist[#[trigger] queue[q] as int] <= dist[node as int] + 1,
                expanded(adj@, queue@, visited@, dist, h0),
                forall|j: int| 0 <= j < i ==> visited[#[trigger] adj[node as int][j] as int] && dist[adj[node as int][j] as int] <= dist[node as int] + 1,
                forall|q: int| 0 <= q <= h0 ==> #[trigger] queue[q] != target,
            decreases row.len() - i,
        {
            let nb = row[i];
            proof {
                assert(adj[node as int][i as int] < n);
            }
            if !visited[nb] {
                proof {
                    if queue@.contains(nb) {
                        let q = choose|q: int| 0 <= q < queue.len() && queue[q] == nb;
                        assert(visited[queue[q] as int]);
                    }
                    lemma_distinct_indices_bound(queue@, n as int);
                    if queue.len() == n {
                        // All n vertices are already queued, so `nb` would be too.
                        lemma_full_queue(queue@, n as int, nb);
                    }
                }
                let ghost old_visited = visited@;
                let ghost old_prev = prev@;
                let ghost old_queue = queue@;
                let ghost old_dist = dist;
                visited.set(nb, true);
                prev.set(nb, node);
                proof {
                    dist = dist.update(nb as int, dist[node as int] + 1);
                }
                queue.push(nb);
                proof {
                    lemma_bfs_visit(
                        adj@,
                        start,
                        target,
                        node,
                        h0,
                        i as int,
                        old_visited,
                        old_prev,
                        old_dist,
                        old_queue,
                        nb,
                    );
                }
            } else {
                proof {
                    let q = choose|q: int| 0 <= q < queue.len() && queue[q] == nb;
                    assert(dist[queue[q] as int] <= dist[node as int] + 1);
                    assert(adj[node as int][i as int] == nb);
                }
            }
            i = i + 1;
        }
        proof {
            reveal(expanded);
            reveal(queue_sorted);
            assert forall|q: int, j: int|
                0 <= q < head && 0 <= j < adj[queue[q] as int].len() implies visited[#[trigger] adj[queue[q] as int][j] as int]
                    && dist[adj[queue[q] as int][j] as int] <= dist[queue[q] as int] + 1 by {
                if q == h0 {
                    assert(row[j] == adj[queue[q] as int][j]);
                }
            }
            assert forall|q: int| 0 <= q < head implies #[trigger] queue[q] != target by {
                assert(q <= h0);
            }
            if head < queue.len() {
                assert(dist[queue[h0] as int] <= dist[queue[head as int] as int]);
            }
        }
    }
    proof {
        assert forall|w: Seq<usize>| !#[trigger] rank_path(adj@, w, start, target) by {
            if rank_path(adj@, w, start, target) {
                lemma_bfs_reach(adj@, queue@, head as int, visited@, dist, start, w, w.len() - 1);
                let q = choose|q: int| 0 <= q < queue.len() && queue[q] == target;
                assert(queue[q] != target);
            }
        }
    }
    None
}

/// The path from `start` to `target` along the recorded predecessors.
fn trace_back(
    adj: &Vec<Vec<usize>>,
    visited: &Vec<bool>,
    prev: &Vec<usize>,
    dist: Ghost<Seq<nat>>,
    start: usize,
    target: usize,
) -> (out: Vec<usize>)
    requires
        adjacency_ok(adj@, adj.len() as int),
        start < adj.len(),
        target < adj.len(),
        visited.len() == adj.len(),
        prev.len() == adj.len(),
        dist@.len() == adj.len(),
        dist@[start as int] == 0,
        visited[target as int],
        forall|v: int|
            0 <= v < adj.len() && #[trigger] visited[v] && v != start ==> {
                &&& prev[v] < adj.len()
                &&& visited[prev[v] as int]
                &&& dist@[v] == dist@[prev[v] as int] + 1
                &&& adj[prev[v] as int]@.contains(v as usize)
            },
    ensures
        is_rank_walk(adj@, out@),
        out[0] == start,
        out[out.len() - 1] == target,
        out.len() == dist@[target as int] + 1,
{
    let n = adj.len();
    let mut path: Vec<usize> = Vec::new();
    path.push(target);
    let mut cursor = target;
    while cursor != start
        invariant
            n == adj.len(),
            adjacency_ok(adj@, n as int),
            start < n,
            cursor < n,
            visited.len() == n,
            prev.len() == n,
            dist@.len() == n,
            visited[cursor as int],
            path.len() >= 1,
            path[0] == target,
            path[path.len() - 1] == cursor,
            path.len() + dist@[cursor as int] == dist@[target as int] + 1,
            forall|k2: int| 0 <= k2 < path.len() ==> #[trigger] path[k2] < n,
            forall|k2: int| 0 <= k2 < path.len() - 1 ==> adj[path[k2 + 1] as int]@.contains(#[trigger] path[k2]),
            forall|v: int|
                0 <= v < n && #[trigger] visited[v] && v != start ==> {
                    &&& prev[v] < n
                    &&& visited[prev[v] as int]
                    &&& dist@[v] == dist@[prev[v] as int] + 1
                    &&& adj[prev[v] as int]@.contains(v as usize)
                },
        decreases dist@[cursor as int],
    {
        let back = prev[cursor];
        path.push(back);
        cursor = back;
    }
    let mut out: Vec<usize> = Vec::new();
    let mut i: usize = path.len();
    while i > 0
        invariant
            i <= path.len(),
            out@ == path@.reverse().take(path.len() - i),
        decreases i,
    {
        i = i - 1;
        out.push(path[i]);
        assert(out@ =~= path@.reverse().take(path.len() - i));
    }
    proof {
        assert(path@.reverse().take(path.len() as int) =~= path@.reverse());
        assert forall|k2: int| #![trigger out[k2]] 0 <= k2 < out.len() - 1 implies adj[out[k2] as int]@.contains(out[k2 + 1]) by {
            let m = path.len() - 1 - k2;
            assert(out[k2] == path[m]);
            assert(out[k2 + 1] == path[m - 1]);
        }
        assert(out[0] == path[path.len() - 1]);
        assert(out[out.len() - 1] == path[0]);
    }
    out
}

/// A full queue of distinct vertices holds every vertex.
pub(crate) proof fn lemma_full_queue(q: Seq<usize>, n: int, v: usize)
    requires
        q.len() == n,
        forall|i: int| 0 <= i < q.len() ==> #[trigger] q[i] < n,
        forall|i: int, j: int| 0 <= i < j < q.len() ==> q[i] != q[j],
        v < n,
    ensures
        q.contains(v),
{
    if !q.contains(v) {
        let f = |x: usize| if x > v { (x - 1) as usize } else { x };
        let t = q.map_values(f);
        assert forall|i: int| 0 <= i < t.len() implies #[trigger] t[i] < n - 1 by {
            assert(q[i] != v);
        }
        assert forall|i: int, j: int| 0 <= i < j < t.len() implies t[i] != t[j] by {
            assert(q[i] != q[j]);
            assert(q[i] != v && q[j] != v);
        }
        lemma_distinct_indices_bound(t, n - 1);
    }
}


/// `a` comes before `b`: shorter first, then at the first place where they
/// differ.
pub open spec fn walk_before(a: Seq<usize>, b: Seq<usize>) -> bool {
    ||| a.len() < b.len()
    ||| a.len() == b.len() && exists|i: int| 0 <= i < a.len() && a.take(i) == b.take(i) && #[trigger] a[i] < b[i]
}

/// `a` comes before `b`: shorter first, then lexicographically.
fn walk_less(a: &Vec<usize>, b: &Vec<usize>) -> (r: bool)
    ensures
        r == walk_before(a@, b@),
{
    if a.len() != b.len() {
        return a.len() < b.len();
    }
    let mut i: usize = 0;
    while i < a.len()
        invariant
            i <= a.len(),
            a.len() == b.len(),
            a@.take(i as int) == b@.take(i as int),
        decreases a.len() - i,
    {
        if a[i] != b[i] {
            proof {
                if a[i as int] > b[i as int] {
                    assert forall|j: int| 0 <= j < a.len() && a@.take(j) == b@.take(j) implies !(#[trigger] a@[j] < b@[j]) by {
                        if j < i {
                            assert(a@.take(i as int)[j] == a@[j]);
                            assert(b@.take(i as int)[j] == b@[j]);
                            assert(a@.take(j + 1) == a@.take(i as int).take(j + 1));
                        } else if j > i {
                            assert(a@.take(j)[i as int] == a@[i as int]);
                            assert(b@.take(j)[i as int] == b@[i as int]);
                        }
                    }
                }
            }
            return a[i] < b[i];
        }
        i = i + 1;
        proof {
            assert(a@.take(i as int) =~= a@.take(i - 1).push(a@[i - 1]));
            assert(b@.take(i as int) =~= b@.take(i - 1).push(b@[i - 1]));
        }
    }
    proof {
        assert forall|j: int| 0 <= j < a.len() && a@.take(j) == b@.take(j) implies !(#[trigger] a@[j] < b@[j]) by {
            assert(a@.take(a.len() as int)[j] == a@[j]);
            assert(b@.take(a.len() as int)[j] == b@[j]);
        }
    }
    false
}

/// A closed walk of ranks of at least one step.
pub open spec fn closed_walk(adj: Seq<Vec<usize>>, w: Seq<usize>) -> bool {
    &&& is_rank_walk(adj, w)
    &&& w.len() >= 2
    &&& w[0] == w[w.len() - 1]
}

/// `b` is shorter than `c`; or as long and starts at a lower rank; or as
/// long, from the same rank, and takes its first step to no higher rank.
pub open spec fn beats(b: Seq<usize>, c: Seq<usize>) -> bool {
    ||| b.len() < c.len()
    ||| b.len() == c.len() && b[0] < c[0]
    ||| b.len() == c.len() && b[0] == c[0] && b[1] <= c[1]
}

proof fn lemma_keep_or_take(best: Seq<usize>, cand: Seq<usize>, c: Seq<usize>)
    requires
        best.len() >= 2,
        cand.len() >= 2,
        c.len() >= 2,
    ensures
        walk_before(cand, best) && beats(best, c) ==> beats(cand, c),
        !walk_before(cand, best) && beats(cand, c) ==> beats(best, c),
        walk_before(cand, best) ==> beats(cand, best),
{
    if walk_before(cand, best) && cand.len() == best.len() {
        let i = choose|i: int| 0 <= i < cand.len() && cand.take(i) == best.take(i) && #[trigger] cand[i] < best[i];
        if i > 0 {
            assert(cand.take(i)[0] == cand[0]);
            assert(best.take(i)[0] == best[0]);
        }
        if i > 1 {
            assert(cand.take(i)[1] == cand[1]);
            assert(best.take(i)[1] == best[1]);
        }
    }
    if !walk_before(cand, best) && cand.len() == best.len() {
        if cand[0] < best[0] {
            assert(cand.take(0) =~= best.take(0));
        } else if cand[0] == best[0] && cand[1] < best[1] {
            assert(cand.take(1) =~= best.take(1));
        }
    }
}

/// The shortest closed walk of ranks, and among the shortest one that starts
/// at the least rank and steps first to the least rank, or nothing when there
/// is no closed walk.
fn shortest_witness(adj: &Vec<Vec<usize>>) -> (w: Vec<usize>)
    requires
        adjacency_ok(adj@, adj.len() as int),
    ensures
        w.len() == 0 ==> forall|c: Seq<usize>| !#[trigger] closed_walk(adj@, c),
        w.len() > 0 ==> closed_walk(adj@, w@) && forall|c: Seq<usize>| #[trigger] closed_walk(adj@, c) ==> beats(w@, c),
        w.len() == 0 || (is_rank_walk(adj@, w@) && w.len() >= 2 && w[0] == w[w.len() - 1]),
        (forall|r: int| 0 <= r < adj.len() ==> (#[trigger] adj[r]).len() == 0) ==> w.len() == 0,
{
    let n = adj.len();
    let mut best: Option<Vec<usize>> = None;
    let mut s: usize = 0;
    while s < n
        invariant
            s <= n,
            n == adj.len(),
            adjacency_ok(adj@, n as int),
            best matches Some(b) ==> closed_walk(adj@, b@),
            forall|c: Seq<usize>| #[trigger] closed_walk(adj@, c) && c[0] < s ==> best is Some && beats(best->0@, c),
        decreases n - s,
    {
        let row = &adj[s];
        let mut i: usize = 0;
        while i < row.len()
            invariant
                s < n,
                n == adj.len(),
                adjacency_ok(adj@, n as int),
                row == adj[s as int],
                i <= row.len(),
                best matches Some(b) ==> closed_walk(adj@, b@),
                forall|c: Seq<usize>|
                    #[trigger] closed_walk(adj@, c) && (c[0] < s || (c[0] == s && exists|j: int|
                        0 <= j < i && row[j] == c[1])) ==> best is Some && beats(best->0@, c),
            decreases row.len() - i,
        {
            let nb = row[i];
            proof {
                assert(adj[s as int][i as int] < n);
                assert(adj[s as int]@.contains(nb)) by {
                    assert(adj[s as int]@[i as int] == nb);
                }
            }
            let candidate: Option<Vec<usize>> = if nb == s {
                let mut c: Vec<usize> = Vec::new();
                c.push(s);
                c.push(s);
                proof {
                    assert forall|k: int| #![trigger c[k]] 0 <= k < c.len() - 1 implies adj[c[k] as int]@.contains(c[k + 1]) by {}
                }
                Some(c)
            } else {
                match bfs_path(adj, nb, s) {
                    None => None,
                    Some(path) => {
                        let mut c: Vec<usize> = Vec::new();
                        c.push(s);
                        let mut k: usize = 0;
                        while k < path.len()
                            invariant
                                k <= path.len(),
                                c@ == seq![s].add(path@.take(k as int)),
                            decreases path.len() - k,
                        {
                            c.push(path[k]);
                            k = k + 1;
                            assert(c@ =~= seq![s].add(path@.take(k as int)));
                        }
                        proof {
                            assert(path@.take(path.len() as int) =~= path@);
                            assert forall|k2: int| 0 <= k2 < c.len() implies #[trigger] c[k2] < adj.len() by {
                                if k2 > 0 {
                                    assert(c[k2] == path[k2 - 1]);
                                }
                            }
                            assert forall|k2: int| #![trigger c[k2]] 0 <= k2 < c.len() - 1 implies adj[c[k2] as int]@.contains(c[k2 + 1]) by {
                                if k2 == 0 {
                                    assert(c[1] == path[0]);
                                } else {
                                    assert(c[k2] == path[k2 - 1]);
                                    assert(c[k2 + 1] == path[k2]);
                                }
                            }
                            assert(c[c.len() - 1] == path[path.len() - 1]);
                        }
                        Some(c)
                    },
                }
            };
            proof {
                assert(candidate matches Some(cv) ==> closed_walk(adj@, cv@) && cv[0] == s && cv[1] == nb);
                assert forall|c: Seq<usize>| #[trigger] closed_walk(adj@, c) && c[0] == s && c[1] == nb implies candidate is Some
                    && candidate->0.len() <= c.len() by {
                    if nb != s {
                        let tail = c.subrange(1, c.len() as int);
                        assert forall|k: int| 0 <= k < tail.len() implies #[trigger] tail[k] < adj.len() by {
                            assert(tail[k] == c[k + 1]);
                        }
                        assert forall|k: int| #![trigger tail[k]] 0 <= k < tail.len() - 1 implies adj[tail[k] as int]@.contains(tail[k + 1]) by {
                            assert(tail[k] == c[k + 1]);
                            assert(tail[k + 1] == c[k + 2]);
                            assert(c[k + 1] == c[k + 1]);
                        }
                        assert(rank_path(adj@, tail, nb, s));
                    }
                }
            }
            let ghost before = best;
            match candidate {
                None => {},
                Some(c) => {
                    let better = match &best {
                        None => true,
                        Some(b) => walk_less(&c, b),
                    };
                    if better {
                        best = Some(c);
                    }
                },
            }
            proof {
                assert forall|c: Seq<usize>|
                    #[trigger] closed_walk(adj@, c) && (c[0] < s || (c[0] == s && exists|j: int|
                        0 <= j < i + 1 && row[j] == c[1])) implies best is Some && beats(best->0@, c) by {
                    if c[0] == s && c[1] == nb {
                        let cv = candidate->0;
                        assert(beats(cv@, c));
                        if before is Some {
                            let b = before->0;
                            lemma_keep_or_take(b@, cv@, c);
                            lemma_keep_or_take(b@, cv@, cv@);
                        }
                    } else {
                        if !(c[0] < s) {
                            let j = choose|j: int| 0 <= j < i + 1 && row[j] == c[1];
                            assert(j < i);
                        }
                        assert(before is Some && beats(before->0@, c));
                        if candidate is Some {
                            lemma_keep_or_take(before->0@, candidate->0@, c);
                        }
                    }
                }
            }
            i = i + 1;
        }
        proof {
            assert forall|c: Seq<usize>| #[trigger] closed_walk(adj@, c) && c[0] < s + 1 implies best is Some && beats(
                best->0@,
                c,
            ) by {
                if c[0] == s {
                    assert(adj[s as int]@.contains(c[1]));
                    let j = choose|j: int| 0 <= j < row.len() && row@[j] == c[1];
                    assert(row[j] == c[1]);
                }
            }
        }
        s = s + 1;
    }
    proof {
        assert forall|c: Seq<usize>| #[trigger] closed_walk(adj@, c) implies best is Some && beats(best->0@, c) by {
            assert(c[0] < adj.len());
        }
        assert((forall|r: int| 0 <= r < adj.len() ==> (#[trigger] adj[r]).len() == 0) ==> best is None) by {
            if best is Some {
                let b = best->0;
                assert(adj[b[0] as int]@.contains(b[1]));
            }
        }
    }
    match best {
        None => Vec::new(),
        Some(b) => b,
    }
}

/// `j` is the first internal relation from `a` to `b`.
pub open spec fn is_first_internal(
    members: Seq<DependencyNode>,
    rels: Seq<DependencyRelation>,
    a: Seq<AtomView>,
    b: Seq<AtomView>,
    j: int,
) -> bool {
    &&& 0 <= j < rels.len()
    &&& is_internal(members, rels[j]) && node_key(rels[j].source) == a && node_key(rels[j].target) == b
    &&& forall|j2: int|
        0 <= j2 < j ==> !(is_internal(members, #[trigger] rels[j2]) && node_key(rels[j2].source) == a && node_key(
            rels[j2].target,
        ) == b)
}

pub open spec fn first_internal(
    members: Seq<DependencyNode>,
    rels: Seq<DependencyRelation>,
    a: Seq<AtomView>,
    b: Seq<AtomView>,
) -> int {
    choose|j: int| is_first_internal(members, rels, a, b, j)
}

/// What an explanation of component `members`, numbered `number`, holds.
pub open spec fn is_explanation(
    e: DependencyCycleExplanation,
    number: usize,
    members: Seq<DependencyNode>,
    rels: Seq<DependencyRelation>,
) -> bool {
    let wn = e.witness_nodes@.map_values(|n: DependencyNode| node_key(n));
    &&& e.component_number == number
    &&& e.members.len() == members.len()
    &&& forall|m: int| 0 <= m < members.len() ==> node_key(#[trigger] e.members[m]) == node_key(members[m])
    &&& wn.len() == 0 || (is_key_walk(internal_edge_fn(members, rels), wn) && wn[0] == wn[wn.len() - 1])
    &&& !has_internal(members, rels) ==> wn.len() == 0
    &&& wn.len() == 0 ==> forall|c: Seq<Seq<AtomView>>| !#[trigger] closed_key_walk(internal_edge_fn(members, rels), c)
    &&& wn.len() > 0 ==> forall|c: Seq<Seq<AtomView>>| #[trigger] closed_key_walk(internal_edge_fn(members, rels), c)
        ==> key_walk_beats(wn, c)
    &&& e.witness_relations.len() == if wn.len() == 0 { 0 } else { wn.len() - 1 }
    &&& forall|k: int|
        0 <= k < e.witness_relations.len() ==> relation_view(#[trigger] e.witness_relations[k]) == relation_view(
            rels[first_internal(members, rels, wn[k], wn[k + 1])],
        )
    &&& e.recommended_cuts@.map_values(|c: DependencyRelation| relation_view(c)) == kept_views(
        rels,
        cut_pred(members, feedback_order(members, rels)),
    )
}

/// A closed walk of member keys along internal relations.
pub open spec fn closed_key_walk(edge: spec_fn(Seq<AtomView>, Seq<AtomView>) -> bool, c: Seq<Seq<AtomView>>) -> bool {
    &&& is_key_walk(edge, c)
    &&& c[0] == c[c.len() - 1]
}

/// `w` is shorter than `c`; or as long and starts at a smaller key; or as
/// long, from the same key, and steps first to a key no greater.
pub open spec fn key_walk_beats(w: Seq<Seq<AtomView>>, c: Seq<Seq<AtomView>>) -> bool {
    ||| w.len() < c.len()
    ||| w.len() == c.len() && key_compare(w[0], c[0]) == -1
    ||| w.len() == c.len() && w[0] == c[0] && key_compare(w[1], c[1]) != 1
}

/// The ranks of a closed walk of keys form a closed walk of ranks.
proof fn lemma_rank_walk(
    members: Seq<DependencyNode>,
    rels: Seq<DependencyRelation>,
    uk: Seq<Vec<KeyAtom>>,
    adj: Seq<Vec<usize>>,
    c: Seq<Seq<AtomView>>,
) -> (cr: Seq<usize>)
    requires
        ranks_of(members, uk),
        uk.len() <= usize::MAX,
        adjacency_ok(adj, uk.len() as int),
        forall|a: int, b: usize|
            0 <= a < uk.len() && b < uk.len() ==> (#[trigger] adj[a]@.contains(b) <==> internal_edge(
                members,
                rels,
                key_view(uk[a]@),
                key_view(uk[b as int]@),
            )),
        closed_key_walk(internal_edge_fn(members, rels), c),
    ensures
        closed_walk(adj, cr),
        cr.len() == c.len(),
        forall|k: int| 0 <= k < c.len() ==> key_view(uk[#[trigger] cr[k] as int]@) == c[k],
{
    assert forall|k: int| 0 <= k < c.len() implies is_member_key(members, #[trigger] c[k]) by {
        let k2 = if k == c.len() - 1 { 0 } else { k };
        assert(internal_edge_fn(members, rels)(c[k2], c[k2 + 1]));
        let j = choose|j: int|
            0 <= j < rels.len() && is_internal(members, #[trigger] rels[j]) && node_key(rels[j].source) == c[k2]
                && node_key(rels[j].target) == c[k2 + 1];
    }
    let cr = Seq::new(c.len(), |k: int| (choose|r: int| 0 <= r < uk.len() && key_view(#[trigger] uk[r]@) == c[k]) as usize);
    assert forall|k: int| 0 <= k < c.len() implies #[trigger] cr[k] < uk.len() && key_view(uk[cr[k] as int]@) == c[k] by {
        assert(is_member_key(members, c[k]));
        let r = choose|r: int| 0 <= r < uk.len() && key_view(#[trigger] uk[r]@) == c[k];
        assert(cr[k] == r as usize);
        assert(r as usize as int == r);
    }
    assert forall|k: int| #![trigger cr[k]] 0 <= k < cr.len() - 1 implies adj[cr[k] as int]@.contains(cr[k + 1]) by {
        assert(internal_edge_fn(members, rels)(c[k], c[k + 1]));
        assert(key_view(uk[cr[k] as int]@) == c[k]);
        assert(key_view(uk[cr[k + 1] as int]@) == c[k + 1]);
    }
    assert(cr[0] == cr[cr.len() - 1]) by {
        assert(key_view(uk[cr[0] as int]@) == c[0]);
        assert(key_view(uk[cr[cr.len() - 1] as int]@) == c[c.len() - 1]);
        lemma_rank_unique(uk, cr[0] as int, cr[cr.len() - 1] as int);
    }
    cr
}

/// What the shortest closed walk of ranks says of its keys: none when no
/// closed walk of keys exists, else one that beats every closed walk of keys.
proof fn lemma_witness_keys(
    members: Seq<DependencyNode>,
    rels: Seq<DependencyRelation>,
    uk: Seq<Vec<KeyAtom>>,
    adj: Seq<Vec<usize>>,
    w: Seq<usize>,
)
    requires
        ranks_of(members, uk),
        uk.len() <= usize::MAX,
        adjacency_ok(adj, uk.len() as int),
        forall|a: int, b: usize|
            0 <= a < uk.len() && b < uk.len() ==> (#[trigger] adj[a]@.contains(b) <==> internal_edge(
                members,
                rels,
                key_view(uk[a]@),
                key_view(uk[b as int]@),
            )),
        w.len() == 0 ==> forall|c: Seq<usize>| !#[trigger] closed_walk(adj, c),
        w.len() > 0 ==> closed_walk(adj, w) && forall|c: Seq<usize>| #[trigger] closed_walk(adj, c) ==> beats(w, c),
    ensures
        w.len() == 0 ==> forall|c: Seq<Seq<AtomView>>| !#[trigger] closed_key_walk(internal_edge_fn(members, rels), c),
        w.len() > 0 ==> forall|c: Seq<Seq<AtomView>>| #[trigger] closed_key_walk(internal_edge_fn(members, rels), c)
            ==> key_walk_beats(rank_keys(uk, w), c),
{
    assert forall|c: Seq<Seq<AtomView>>| #[trigger] closed_key_walk(internal_edge_fn(members, rels), c) implies w.len() > 0
        && key_walk_beats(rank_keys(uk, w), c) by {
        let cr = lemma_rank_walk(members, rels, uk, adj, c);
        assert(closed_walk(adj, cr));
        assert(beats(w, cr));
        if w.len() == cr.len() {
            let a = w[0] as int;
            let b = cr[0] as int;
            assert(key_view(uk[b]@) == c[0]);
            crate::order::lemma_key_facts(key_view(uk[a]@), key_view(uk[b]@));
            let a1 = w[1] as int;
            let b1 = cr[1] as int;
            assert(key_view(uk[b1]@) == c[1]);
            crate::order::lemma_key_facts(key_view(uk[a1]@), key_view(uk[b1]@));
            assert(rank_keys(uk, w)[0] == key_view(uk[a]@));
            assert(rank_keys(uk, w)[1] == key_view(uk[a1]@));
        }
    }
}

/// The node of each rank.
fn rank_nodes(members: &Vec<DependencyNode>, uk: &Vec<Vec<KeyAtom>>, w: &Vec<usize>) -> (nodes: Vec<DependencyNode>)
    requires
        ranks_of(members@, uk@),
        forall|k: int| 0 <= k < w.len() ==> #[trigger] w[k] < uk.len(),
    ensures
        nodes.len() == w.len(),
        forall|k: int| 0 <= k < w.len() ==> node_key(#[trigger] nodes[k]) == key_view(uk[w[k] as int]@),
{
    let mut nodes: Vec<DependencyNode> = Vec::new();
    let mut k: usize = 0;
    while k < w.len()
        invariant
            k <= w.len(),
            ranks_of(members@, uk@),
            forall|x: int| 0 <= x < w.len() ==> #[trigger] w[x] < uk.len(),
            nodes.len() == k,
            forall|x: int| 0 <= x < k ==> node_key(#[trigger] nodes[x]) == key_view(uk[w[x] as int]@),
        decreases w.len() - k,
    {
        let want = &uk[w[k]];
        proof {
            assert(is_member_key(members@, key_view(uk[w[k as int] as int]@)));
        }
        let mut m: usize = 0;
        let mut found: Option<usize> = None;
        while m < members.len()
            invariant
                m <= members.len(),
                found matches Some(x) ==> x < members.len() && node_key(members[x as int]) == key_view(want@),
                found is None ==> forall|x: int| 0 <= x < m ==> node_key(#[trigger] members[x]) != key_view(want@),
            decreases members.len() - m,
        {
            if found.is_none() {
                let c = crate::order::compare_keys(&members[m].key(), want);
                proof {
                    crate::order::lemma_key_facts(node_key(members[m as int]), key_view(want@));
                }
                if c == 0 {
                    found = Some(m);
                }
            }
            m = m + 1;
        }
        match found {
            Some(x) => {
                nodes.push(members[x].copy());
            },
            None => {
                proof {
                    let x = choose|x: int| 0 <= x < members.len() && node_key(members[x]) == key_view(want@);
                    assert(node_key(members[x]) != key_view(want@));
                }
                nodes.push(members[0].copy());
            },
        }
        k = k + 1;
    }
    nodes
}

/// Explains one cyclic component: a shortest closed walk through it, the
/// relations along the walk, and the relations to cut to leave it acyclic.
pub fn explain_dependency_cycle(
    component_number: usize,
    component: &DependencyScc,
    all_relations: &Vec<DependencyRelation>,
) -> (e: DependencyCycleExplanation)
    requires
        total_weight(all_relations@) <= isize::MAX,
    ensures
        is_explanation(e, component_number, component.members@, all_relations@),
{
    let members = &component.members;
    let rels = all_relations;
    let uk = member_ranks(members);
    let (sr, tr) = relation_ranks(&uk, rels);
    let adj = adjacency(members, &uk, rels, &sr, &tr);
    let w = shortest_witness(&adj);
    let witness_nodes = rank_nodes(members, &uk, &w);
    // The relation along each step of the walk.
    let mut witness_relations: Vec<DependencyRelation> = Vec::new();
    let steps: usize = if w.len() == 0 { 0 } else { w.len() - 1 };
    let mut k: usize = 0;
    while k < steps
        invariant
            k <= steps,
            steps == if w.len() == 0 { 0 } else { w.len() - 1 },
            ranks_of(members@, uk@),
            adjacency_ok(adj@, uk.len() as int),
            sr.len() == rels.len(),
            tr.len() == rels.len(),
            forall|j: int| 0 <= j < rels.len() ==> rank_is(uk@, #[trigger] sr[j], node_key(rels[j].source)),
            forall|j: int| 0 <= j < rels.len() ==> rank_is(uk@, #[trigger] tr[j], node_key(rels[j].target)),
            forall|a: int, b: usize|
                0 <= a < uk.len() && b < uk.len() ==> (#[trigger] adj[a]@.contains(b) <==> internal_edge(
                    members@,
                    rels@,
                    key_view(uk[a]@),
                    key_view(uk[b as int]@),
                )),
            w.len() == 0 || (is_rank_walk(adj@, w@) && w.len() >= 2 && w[0] == w[w.len() - 1]),
            witness_relations.len() == k,
            forall|x: int|
                0 <= x < k ==> relation_view(#[trigger] witness_relations[x]) == relation_view(
                    rels[first_internal(members@, rels@, key_view(uk[w[x] as int]@), key_view(uk[w[x + 1] as int]@))],
                ),
        decreases steps - k,
    {
        let a = w[k];
        let b = w[k + 1];
        let ghost ka = key_view(uk[a as int]@);
        let ghost kb = key_view(uk[b as int]@);
        proof {
            assert(adj[w[k as int] as int]@.contains(w[k + 1]));
            assert(internal_edge(members@, rels@, ka, kb));
        }
        let mut j: usize = 0;
        let mut found: Option<usize> = None;
        while j < rels.len()
            invariant
                j <= rels.len(),
                a < uk.len(),
                b < uk.len(),
                ka == key_view(uk[a as int]@),
                kb == key_view(uk[b as int]@),
                ranks_of(members@, uk@),
                sr.len() == rels.len(),
                tr.len() == rels.len(),
                forall|x: int| 0 <= x < rels.len() ==> rank_is(uk@, #[trigger] sr[x], node_key(rels[x].source)),
                forall|x: int| 0 <= x < rels.len() ==> rank_is(uk@, #[trigger] tr[x], node_key(rels[x].target)),
                found matches Some(x) ==> is_first_internal(members@, rels@, ka, kb, x as int),
                found is None ==> forall|x: int|
                    0 <= x < j ==> !(is_internal(members@, #[trigger] rels[x]) && node_key(rels[x].source) == ka
                        && node_key(rels[x].target) == kb),
            decreases rels.len() - j,
        {
            if found.is_none() && rels[j].kind == DependencyRelationKind::Exact {
                proof {
                    lemma_member_rank(members@, uk@, sr[j as int], node_key(rels[j as int].source));
                    lemma_member_rank(members@, uk@, tr[j as int], node_key(rels[j as int].target));
                }
                match (sr[j], tr[j]) {
                    (Some(x), Some(y)) => {
                        if x == a && y == b {
                            found = Some(j);
                        } else {
                            proof {
                                if node_key(rels[j as int].source) == ka {
                                    lemma_rank_unique(uk@, x as int, a as int);
                                }
                                if node_key(rels[j as int].target) == kb {
                                    lemma_rank_unique(uk@, y as int, b as int);
                                }
                            }
                        }
                    },
                    _ => {},
                }
            } else if found.is_none() {
                proof {
                    assert(!is_internal(members@, rels[j as int]));
                }
            }
            j = j + 1;
        }
        match found {
            Some(x) => {
                proof {
                    assert(is_first_internal(members@, rels@, ka, kb, x as int));
                    let y = first_internal(members@, rels@, ka, kb);
                    assert(is_first_internal(members@, rels@, ka, kb, y));
                    if y < x as int {
                        assert(!(is_internal(members@, rels[y]) && node_key(rels[y].source) == ka && node_key(rels[y].target) == kb));
                    } else if (x as int) < y {
                        assert(!(is_internal(members@, rels[x as int]) && node_key(rels[x as int].source) == ka
                            && node_key(rels[x as int].target) == kb));
                    }
                }
                witness_relations.push(copy_relation(&rels[x]));
            },
            None => {
                proof {
                    let x = choose|x: int|
                        0 <= x < rels.len() && is_internal(members@, #[trigger] rels[x]) && node_key(rels[x].source)
                            == ka && node_key(rels[x].target) == kb;
                    assert(false);
                }
                witness_relations.push(copy_relation(&rels[0]));
            },
        }
        k = k + 1;
    }
    let order = feedback_ranks(members, &uk, rels, &sr, &tr);
    let recommended_cuts = cut_relations(members, &uk, rels, &sr, &tr, &order);
    let mut member_copies: Vec<DependencyNode> = Vec::new();
    let mut m: usize = 0;
    while m < members.len()
        invariant
            m <= members.len(),
            member_copies.len() == m,
            forall|x: int| 0 <= x < m ==> node_key(#[trigger] member_copies[x]) == node_key(members[x]),
        decreases members.len() - m,
    {
        member_copies.push(members[m].copy());
        m = m + 1;
    }
    let e = DependencyCycleExplanation {
        component_number,
        members: member_copies,
        witness_nodes,
        witness_relations,
        recommended_cuts,
    };
    proof {
        let wn = e.witness_nodes@.map_values(|n: DependencyNode| node_key(n));
        assert(wn =~= rank_keys(uk@, w@));
        lemma_witness_keys(members@, rels@, uk@, adj@, w@);
        if w.len() > 0 {
            assert forall|x: int| #![trigger wn[x]] 0 <= x < wn.len() - 1 implies internal_edge_fn(members@, rels@)(wn[x], wn[x + 1]) by {
                assert(adj[w[x] as int]@.contains(w[x + 1]));
            }
        }
        if !has_internal(members@, rels@) {
            assert forall|r: int| 0 <= r < adj.len() implies (#[trigger] adj[r]).len() == 0 by {
                if adj[r].len() > 0 {
                    let b = adj[r][0];
                    assert(adj[r]@.contains(b));
                    let x = choose|x: int|
                        0 <= x < rels.len() && is_internal(members@, #[trigger] rels[x]) && node_key(rels[x].source)
                            == key_view(uk[r]@) && node_key(rels[x].target) == key_view(uk[b as int]@);
                }
            }
        }
    }
    e
}

/// Explains every cycle of an analysis, numbered from one in the order of
/// the analysis.
pub fn explain_dependency_cycles(analysis: &DependencyGraphAnalysis) -> (r: Vec<DependencyCycleExplanation>)
    requires
        total_weight(analysis.relations@) <= isize::MAX,
    ensures
        r.len() == analysis.cycles.len(),
        forall|i: int|
            0 <= i < r.len() ==> is_explanation(
                #[trigger] r[i],
                (i + 1) as usize,
                analysis.cycles[i].members@,
                analysis.relations@,
            ),
{
    let mut out: Vec<DependencyCycleExplanation> = Vec::new();
    let mut i: usize = 0;
    while i < analysis.cycles.len()
        invariant
            i <= analysis.cycles.len(),
            total_weight(analysis.relations@) <= isize::MAX,
            out.len() == i,
            forall|x: int|
                0 <= x < i ==> is_explanation(
                    #[trigger] out[x],
                    (x + 1) as usize,
                    analysis.cycles[x].members@,
                    analysis.relations@,
                ),
        decreases analysis.cycles.len() - i,
    {
        out.push(explain_dependency_cycle(i + 1, &analysis.cycles[i], &analysis.relations));
        i = i + 1;
    }
    out
}


/// An internal relation from `a` to `b` whose view is not among `cuts`.
pub open spec fn uncut_edge(
    members: Seq<DependencyNode>,
    rels: Seq<DependencyRelation>,
    cuts: Seq<(Seq<AtomView>, Seq<AtomView>, DependencyRelationKind, Seq<(Seq<char>, crate::analyzer::ReferenceView)>)>,
    a: Seq<AtomView>,
    b: Seq<AtomView>,
) -> bool {
    exists|j: int|
        0 <= j < rels.len() && is_internal(members, #[trigger] rels[j]) && !cuts.contains(relation_view(rels[j]))
            && node_key(rels[j].source) == a && node_key(rels[j].target) == b
}

proof fn lemma_kept_views_has(rels: Seq<DependencyRelation>, keep: spec_fn(DependencyRelation) -> bool, j: int)
    requires
        0 <= j < rels.len(),
        keep(rels[j]),
    ensures
        kept_views(rels, keep).contains(relation_view(rels[j])),
    decreases rels.len(),
{
    let k = kept_views(rels.drop_last(), keep);
    if j == rels.len() - 1 {
        assert(kept_views(rels, keep) == k.push(relation_view(rels.last())));
        assert(kept_views(rels, keep)[k.len() as int] == relation_view(rels[j]));
    } else {
        lemma_kept_views_has(rels.drop_last(), keep, j);
        assert(rels.drop_last()[j] == rels[j]);
        let i = choose|i: int| 0 <= i < k.len() && k[i] == relation_view(rels[j]);
        if keep(rels.last()) {
            assert(kept_views(rels, keep)[i] == relation_view(rels[j]));
        }
    }
}

/// Removing the recommended cuts of an explanation breaks every cycle among
/// its members: no walk along the internal relations that are not cut
/// returns to where it started.
pub proof fn lemma_recommended_cuts_leave_no_cycle(
    e: DependencyCycleExplanation,
    number: usize,
    members: Seq<DependencyNode>,
    rels: Seq<DependencyRelation>,
    w: Seq<Seq<AtomView>>,
)
    requires
        is_explanation(e, number, members, rels),
        is_key_walk(
            |a: Seq<AtomView>, b: Seq<AtomView>|
                uncut_edge(members, rels, e.recommended_cuts@.map_values(|c: DependencyRelation| relation_view(c)), a, b),
            w,
        ),
    ensures
        w[0] != w[w.len() - 1],
{
    let cuts = e.recommended_cuts@.map_values(|c: DependencyRelation| relation_view(c));
    let order = feedback_order(members, rels);
    let uncut = |a: Seq<AtomView>, b: Seq<AtomView>| uncut_edge(members, rels, cuts, a, b);
    let kept = |a: Seq<AtomView>, b: Seq<AtomView>| kept_edge(members, rels, order, a, b);
    assert forall|k: int| #![trigger w[k]] 0 <= k < w.len() - 1 implies kept(w[k], w[k + 1]) by {
        assert(uncut(w[k], w[k + 1]));
        let j = choose|j: int|
            0 <= j < rels.len() && is_internal(members, #[trigger] rels[j]) && !cuts.contains(relation_view(rels[j]))
                && node_key(rels[j].source) == w[k] && node_key(rels[j].target) == w[k + 1];
        if is_cut(members, order, rels[j]) {
            lemma_kept_views_has(rels, cut_pred(members, order), j);
        }
        assert(!is_cut(members, order, rels[j]));
    }
    lemma_cuts_leave_no_cycle(members, rels, order, w);
}

} // verus!
