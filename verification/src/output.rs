//! Focused views of a dependency graph: which nodes and relations a filter
//! keeps around its focus modules, and how a view is drawn as Mermaid or
//! Graphviz text.

use vstd::prelude::*;

use crate::cycles::relation_view;
use crate::graph::{
    node_key, node_kind, DependencyGraphAnalysis, DependencyNode, DependencyNodeKind,
    DependencyNodeMetrics, DependencyRelation, DependencyRelationKind, DependencyScc,
};
use crate::order::{compare_keys, key_compare, key_view, keys_view, lemma_key_facts, AtomView, KeyAtom};
use crate::cycles::is_member_key;
use crate::query::{edit_distance, is_local_name, levenshtein, local_name, names_fit};
use crate::text::{copy_string, decimal, push_char, push_text};

verus! {

pub const DEPENDENCY_REPORT_SCHEMA_VERSION: &'static str = "0.5.0";

/// Which way a focused view follows relations.
#[derive(Debug, Clone, Copy, PartialEq, Eq, Structural)]
pub enum DependencyDirection {
    Dependencies,
    Dependents,
    Both,
}

impl DependencyDirection {
    /// The stable name.
    pub fn as_str(self) -> (r: &'static str)
        ensures
            r@ == match self {
                DependencyDirection::Dependencies => "dependencies"@,
                DependencyDirection::Dependents => "dependents"@,
                DependencyDirection::Both => "both"@,
            },
    {
        match self {
            DependencyDirection::Dependencies => "dependencies",
            DependencyDirection::Dependents => "dependents",
            DependencyDirection::Both => "both",
        }
    }
}

/// What a focused view keeps.
#[derive(Debug)]
pub struct DependencyGraphFilter {
    pub focus_modules: Vec<String>,
    pub direction: DependencyDirection,
    pub depth: usize,
    pub exact_only: bool,
    pub local_only: bool,
    pub cycles_only: bool,
}

impl Default for DependencyGraphFilter {
    fn default() -> (r: DependencyGraphFilter)
        ensures
            r.focus_modules.len() == 0,
            r.direction == DependencyDirection::Both,
            r.depth == 1,
            !r.exact_only,
            !r.local_only,
            !r.cycles_only,
    {
        DependencyGraphFilter {
            focus_modules: Vec::new(),
            direction: DependencyDirection::Both,
            depth: 1,
            exact_only: false,
            local_only: false,
            cycles_only: false,
        }
    }
}

impl DependencyGraphFilter {
    pub fn copy(&self) -> (r: DependencyGraphFilter)
        ensures
            r.focus_modules@.map_values(|s: String| s@) == self.focus_modules@.map_values(|s: String| s@),
            r.direction == self.direction,
            r.depth == self.depth,
            r.exact_only == self.exact_only,
            r.local_only == self.local_only,
            r.cycles_only == self.cycles_only,
    {
        let mut focus: Vec<String> = Vec::new();
        let mut i: usize = 0;
        while i < self.focus_modules.len()
            invariant
                i <= self.focus_modules.len(),
                focus@.map_values(|s: String| s@) == self.focus_modules@.take(i as int).map_values(|s: String| s@),
            decreases self.focus_modules.len() - i,
        {
            let ghost before = focus@;
            let c = copy_string(&self.focus_modules[i]);
            focus.push(c);
            proof {
                assert(focus@.map_values(|s: String| s@) =~= before.map_values(|s: String| s@).push(c@));
                assert(self.focus_modules@.take(i + 1) =~= self.focus_modules@.take(i as int).push(self.focus_modules@[i as int]));
                assert(self.focus_modules@.take(i + 1).map_values(|s: String| s@) =~= self.focus_modules@.take(i as int).map_values(
                    |s: String| s@).push(self.focus_modules@[i as int]@));
            }
            i = i + 1;
        }
        assert(self.focus_modules@.take(self.focus_modules.len() as int) =~= self.focus_modules@);
        DependencyGraphFilter {
            focus_modules: focus,
            direction: self.direction,
            depth: self.depth,
            exact_only: self.exact_only,
            local_only: self.local_only,
            cycles_only: self.cycles_only,
        }
    }
}

/// One node of a focused view, with its identifier, metrics and the number
/// of the cycle it belongs to.
#[derive(Debug)]
pub struct DependencyGraphViewNode {
    pub id: String,
    pub node: DependencyNode,
    pub fan_in: usize,
    pub fan_out: usize,
    pub cyclic_component: Option<usize>,
}

/// A focused view of a dependency graph.
#[derive(Debug)]
pub struct DependencyGraphView {
    pub filter: DependencyGraphFilter,
    pub nodes: Vec<DependencyGraphViewNode>,
    pub relations: Vec<DependencyRelation>,
    pub strongly_connected_components: Vec<DependencyScc>,
}

/// A focus module that is not a local module, with the nearest local
/// module names.
#[derive(Debug)]
pub struct DependencyGraphFilterError {
    pub module: String,
    pub suggestions: Vec<String>,
}

/// The names joined with `, `.
pub open spec fn join_comma(s: Seq<Seq<char>>) -> Seq<char>
    decreases s.len(),
{
    if s.len() == 0 {
        Seq::empty()
    } else if s.len() == 1 {
        s[0]
    } else {
        join_comma(s.drop_last()) + ", "@ + s.last()
    }
}

impl DependencyGraphFilterError {
    /// The error text.
    pub fn message(&self) -> (r: String)
        ensures
            r@ == "focus unit "@ + crate::dependencies::debug_text(self.module@) + " is not a local dependency unit"@
                + if self.suggestions.len() == 0 {
                Seq::<char>::empty()
            } else {
                "; did you mean "@ + join_comma(self.suggestions@.map_values(|s: String| s@)) + "?"@
            },
    {
        let mut text = String::new();
        push_text(&mut text, "focus unit ");
        let q = crate::dependencies::debug_quoted(self.module.as_str());
        push_text(&mut text, q.as_str());
        push_text(&mut text, " is not a local dependency unit");
        let ghost head = text@;
        if self.suggestions.len() > 0 {
            push_text(&mut text, "; did you mean ");
            let ghost sv = self.suggestions@.map_values(|s: String| s@);
            let ghost start = text@;
            let mut i: usize = 0;
            while i < self.suggestions.len()
                invariant
                    i <= self.suggestions.len(),
                    sv == self.suggestions@.map_values(|s: String| s@),
                    text@ == start + join_comma(sv.take(i as int)),
                decreases self.suggestions.len() - i,
            {
                proof {
                    assert(sv.take(i + 1).drop_last() =~= sv.take(i as int));
                    assert(sv.take(i + 1).last() == self.suggestions@[i as int]@);
                    if i == 0 {
                        assert(sv.take(0) =~= Seq::<Seq<char>>::empty());
                    }
                }
                if i > 0 {
                    push_text(&mut text, ", ");
                }
                push_text(&mut text, self.suggestions[i].as_str());
                proof {
                    if i == 0 {
                        assert(join_comma(sv.take(1)) == sv.take(1)[0]);
                        assert(text@ =~= start + join_comma(sv.take(1)));
                    } else {
                        assert(text@ =~= start + join_comma(sv.take(i + 1)));
                    }
                }
                i = i + 1;
            }
            push_text(&mut text, "?");
            proof {
                assert(sv.take(self.suggestions.len() as int) =~= sv);
            }
        }
        text
    }
}

/// Some key of `ks` equals `k`.
pub open spec fn key_listed(ks: Seq<Seq<AtomView>>, k: Seq<AtomView>) -> bool {
    exists|i: int| 0 <= i < ks.len() && #[trigger] ks[i] == k
}

/// Whether a list of keys holds a key.
pub fn contains_key(list: &Vec<Vec<KeyAtom>>, k: &Vec<KeyAtom>) -> (r: bool)
    ensures
        r == key_listed(keys_view(list@), key_view(k@)),
{
    let ghost kv = keys_view(list@);
    let mut i: usize = 0;
    while i < list.len()
        invariant
            i <= list.len(),
            kv == keys_view(list@),
            forall|j: int| 0 <= j < i ==> kv[j] != key_view(k@),
        decreases list.len() - i,
    {
        let c = compare_keys(&list[i], k);
        proof {
            lemma_key_facts(kv[i as int], key_view(k@));
        }
        if c == 0 {
            return true;
        }
        i = i + 1;
    }
    false
}

/// How a local module name ranks as a suggestion for `q`.
pub open spec fn suggestion_rank(q: Seq<char>, x: Seq<char>) -> Seq<AtomView> {
    seq![AtomView::Num(levenshtein(q, x) as int), AtomView::Text(x)]
}

/// The local module names of the nodes, in node order, repeats kept.
pub open spec fn local_names(nodes: Seq<DependencyNode>) -> Seq<Seq<char>>
    decreases nodes.len(),
{
    if nodes.len() == 0 {
        Seq::empty()
    } else {
        local_names(nodes.drop_last()) + match local_name(nodes.last()) {
            Some(x) => seq![x],
            None => Seq::empty(),
        }
    }
}

/// `sug` is the first three of the local names stably sorted by rank.
pub open spec fn ranked_suggestions(q: Seq<char>, nodes: Seq<DependencyNode>, sug: Seq<Seq<char>>) -> bool {
    let names = local_names(nodes);
    exists|order: Seq<usize>|
        crate::order::is_stable_order(names.map_values(|x: Seq<char>| suggestion_rank(q, x)), order) && sug.len() == (
        if order.len() < 3 {
            order.len()
        } else {
            3
        }) && forall|i: int| 0 <= i < sug.len() ==> #[trigger] sug[i] == names[order[i] as int]
}

fn filter_suggestions(requested: &str, nodes: &Vec<DependencyNode>) -> (r: Vec<String>)
    requires
        names_fit(nodes@, requested@),
    ensures
        ranked_suggestions(requested@, nodes@, r@.map_values(|s: String| s@)),
{
    let mut keys: Vec<Vec<KeyAtom>> = Vec::new();
    let mut names: Vec<String> = Vec::new();
    let mut i: usize = 0;
    while i < nodes.len()
        invariant
            i <= nodes.len(),
            names_fit(nodes@, requested@),
            keys.len() == names.len(),
            names@.map_values(|s: String| s@) == local_names(nodes@.take(i as int)),
            forall|x: int| 0 <= x < names.len() ==> key_view(#[trigger] keys[x]@) == suggestion_rank(requested@, names[x]@),
        decreases nodes.len() - i,
    {
        let ghost before = names@.map_values(|s: String| s@);
        proof {
            assert(nodes@.take(i + 1).drop_last() =~= nodes@.take(i as int));
            assert(nodes@.take(i + 1).last() == nodes[i as int]);
        }
        match &nodes[i] {
            DependencyNode::LocalModule(m) => {
                let name = m.id.qualified_name();
                proof {
                    assert(local_name(nodes[i as int]) == Some(name@));
                }
                let d = edit_distance(requested, name);
                let mut k: Vec<KeyAtom> = Vec::new();
                crate::dependencies::push_num_atom(&mut k, d as u64);
                crate::dependencies::push_text_atom(&mut k, name);
                proof {
                    assert(key_view(k@) =~= suggestion_rank(requested@, name@));
                }
                keys.push(k);
                names.push(name.to_owned());
                proof {
                    assert(names@.map_values(|s: String| s@) =~= before.push(name@));
                }
            },
            _ => {
                proof {
                    assert(local_name(nodes[i as int]) is None);
                }
            },
        }
        i = i + 1;
    }
    proof {
        assert(nodes@.take(nodes.len() as int) =~= nodes@);
    }
    let ghost nv = names@.map_values(|s: String| s@);
    let order = crate::order::sorted_order(&keys);
    let mut out: Vec<String> = Vec::new();
    let mut p: usize = 0;
    while p < order.len() && p < 3
        invariant
            p <= order.len(),
            p <= 3,
            out.len() == p,
            keys.len() == names.len(),
            nv == names@.map_values(|s: String| s@),
            forall|x: int| 0 <= x < order.len() ==> #[trigger] order[x] < keys.len(),
            forall|x: int| 0 <= x < p ==> (#[trigger] out[x])@ == nv[order[x] as int],
        decreases 3 - p,
    {
        out.push(copy_string(&names[order[p]]));
        p = p + 1;
    }
    proof {
        let kv = keys_view(keys@);
        assert(kv =~= nv.map_values(|x: Seq<char>| suggestion_rank(requested@, x)));
        assert(crate::order::is_stable_order(nv.map_values(|x: Seq<char>| suggestion_rank(requested@, x)), order@));
        let sug = out@.map_values(|s: String| s@);
        assert forall|i: int| 0 <= i < sug.len() implies #[trigger] sug[i] == nv[order[i] as int] by {}
    }
    out
}

/// Whether a relation may be followed and shown.
pub open spec fn relation_allowed(f: DependencyGraphFilter, r: DependencyRelation) -> bool {
    !f.exact_only || r.kind == DependencyRelationKind::Exact
}

pub open spec fn follows_forward(d: DependencyDirection) -> bool {
    d == DependencyDirection::Dependencies || d == DependencyDirection::Both
}

pub open spec fn follows_backward(d: DependencyDirection) -> bool {
    d == DependencyDirection::Dependents || d == DependencyDirection::Both
}

/// Whether a node is a local module named by a focus module.
pub open spec fn is_seed(nodes: Seq<DependencyNode>, focus: Seq<Seq<char>>, x: Seq<AtomView>) -> bool {
    exists|i: int|
        0 <= i < nodes.len() && (local_name(#[trigger] nodes[i]) matches Some(nm) && focus.contains(nm)) && node_key(
            nodes[i],
        ) == x
}

/// The nodes within `k` allowed steps of the seeds, in the filter's
/// direction.
pub open spec fn reached(
    nodes: Seq<DependencyNode>,
    rels: Seq<DependencyRelation>,
    f: DependencyGraphFilter,
    focus: Seq<Seq<char>>,
    k: nat,
    x: Seq<AtomView>,
) -> bool
    decreases k,
{
    if k == 0 {
        is_seed(nodes, focus, x)
    } else {
        reached(nodes, rels, f, focus, (k - 1) as nat, x) || exists|i: int|
            0 <= i < rels.len() && relation_allowed(f, #[trigger] rels[i]) && ((follows_forward(f.direction) && reached(
                nodes,
                rels,
                f,
                focus,
                (k - 1) as nat,
                node_key(rels[i].source),
            ) && node_key(rels[i].target) == x) || (follows_backward(f.direction) && reached(
                nodes,
                rels,
                f,
                focus,
                (k - 1) as nat,
                node_key(rels[i].target),
            ) && node_key(rels[i].source) == x))
    }
}

proof fn lemma_reached_fixpoint(
    nodes: Seq<DependencyNode>,
    rels: Seq<DependencyRelation>,
    f: DependencyGraphFilter,
    focus: Seq<Seq<char>>,
    k: nat,
    j: nat,
)
    requires
        k <= j,
        forall|x: Seq<AtomView>| reached(nodes, rels, f, focus, k + 1, x) == reached(nodes, rels, f, focus, k, x),
    ensures
        forall|x: Seq<AtomView>| reached(nodes, rels, f, focus, j, x) == reached(nodes, rels, f, focus, k, x),
    decreases j - k,
{
    if j > k {
        lemma_reached_fixpoint(nodes, rels, f, focus, k, (j - 1) as nat);
        assert forall|x: Seq<AtomView>| reached(nodes, rels, f, focus, j, x) == reached(nodes, rels, f, focus, k, x) by {
            let jm = (j - 1) as nat;
            assert(reached(nodes, rels, f, focus, jm, x) == reached(nodes, rels, f, focus, k, x));
            assert((exists|i: int|
                0 <= i < rels.len() && relation_allowed(f, #[trigger] rels[i]) && ((follows_forward(f.direction) && reached(
                    nodes, rels, f, focus, jm, node_key(rels[i].source)) && node_key(rels[i].target) == x) || (
                follows_backward(f.direction) && reached(nodes, rels, f, focus, jm, node_key(rels[i].target))
                    && node_key(rels[i].source) == x))) == (exists|i: int|
                0 <= i < rels.len() && relation_allowed(f, #[trigger] rels[i]) && ((follows_forward(f.direction) && reached(
                    nodes, rels, f, focus, k, node_key(rels[i].source)) && node_key(rels[i].target) == x) || (
                follows_backward(f.direction) && reached(nodes, rels, f, focus, k, node_key(rels[i].target))
                    && node_key(rels[i].source) == x))));
            assert(reached(nodes, rels, f, focus, k + 1, x) == reached(nodes, rels, f, focus, k, x));
        }
    }
}

/// The seed keys: the local modules named by the focus modules.
fn seed_keys(nodes: &Vec<DependencyNode>, focus: &Vec<String>) -> (r: Vec<Vec<KeyAtom>>)
    ensures
        forall|x: Seq<AtomView>| key_listed(keys_view(r@), x) == is_seed(nodes@, focus@.map_values(|s: String| s@), x),
{
    let ghost fv = focus@.map_values(|s: String| s@);
    let mut r: Vec<Vec<KeyAtom>> = Vec::new();
    let mut i: usize = 0;
    while i < nodes.len()
        invariant
            i <= nodes.len(),
            fv == focus@.map_values(|s: String| s@),
            forall|x: Seq<AtomView>| key_listed(keys_view(r@), x) == exists|j: int|
                0 <= j < i && (local_name(#[trigger] nodes@[j]) matches Some(nm) && fv.contains(nm)) && node_key(nodes@[j]) == x,
        decreases nodes.len() - i,
    {
        let ghost before = keys_view(r@);
        let mut named = false;
        match &nodes[i] {
            DependencyNode::LocalModule(m) => {
                let mut q: usize = 0;
                while q < focus.len()
                    invariant
                        q <= focus.len(),
                        fv == focus@.map_values(|s: String| s@),
                        named == exists|t: int| 0 <= t < q && fv[t] == m.id@.1,
                    decreases focus.len() - q,
                {
                    assert(fv[q as int] == focus@[q as int]@);
                    if crate::text::text_eq(focus[q].as_str(), m.id.qualified_name()) {
                        named = true;
                    }
                    q = q + 1;
                }
                proof {
                    assert(local_name(nodes@[i as int]) == Some(m.id@.1));
                    if named {
                        let t = choose|t: int| 0 <= t < focus.len() && fv[t] == m.id@.1;
                        assert(fv.contains(m.id@.1));
                    } else {
                        assert(!fv.contains(m.id@.1));
                    }
                }
            },
            _ => {
                proof {
                    assert(local_name(nodes@[i as int]) is None);
                }
            },
        }
        if named {
            let k = nodes[i].key();
            r.push(k);
            proof {
                assert(keys_view(r@) =~= before.push(key_view(k@)));
                assert forall|x: Seq<AtomView>| key_listed(keys_view(r@), x) == exists|j: int|
                    0 <= j < i + 1 && (local_name(#[trigger] nodes@[j]) matches Some(nm) && fv.contains(nm)) && node_key(nodes@[j]) == x by {
                    if key_listed(keys_view(r@), x) {
                        let t = choose|t: int| 0 <= t < keys_view(r@).len() && keys_view(r@)[t] == x;
                        if t < before.len() {
                            assert(before[t] == x);
                            assert(key_listed(before, x));
                        } else {
                            assert(node_key(nodes@[i as int]) == x);
                        }
                    }
                    assert(key_listed(before, x) == exists|j: int|
                        0 <= j < i && (local_name(#[trigger] nodes@[j]) matches Some(nm) && fv.contains(nm)) && node_key(nodes@[j]) == x);
                    if exists|j: int| 0 <= j < i + 1 && (local_name(#[trigger] nodes@[j]) matches Some(nm) && fv.contains(nm)) && node_key(nodes@[j]) == x {
                        let j = choose|j: int| 0 <= j < i + 1 && (local_name(#[trigger] nodes@[j]) matches Some(nm) && fv.contains(nm)) && node_key(nodes@[j]) == x;
                        if j < i {
                            assert(key_listed(before, x));
                            let t = choose|t: int| 0 <= t < before.len() && before[t] == x;
                            assert(keys_view(r@)[t] == x);
                        } else {
                            assert(keys_view(r@)[before.len() as int] == x);
                        }
                    }
                }
            }
        } else {
            proof {
                assert forall|x: Seq<AtomView>| key_listed(keys_view(r@), x) == exists|j: int|
                    0 <= j < i + 1 && (local_name(#[trigger] nodes@[j]) matches Some(nm) && fv.contains(nm)) && node_key(nodes@[j]) == x by {
                    if exists|j: int| 0 <= j < i + 1 && (local_name(#[trigger] nodes@[j]) matches Some(nm) && fv.contains(nm)) && node_key(nodes@[j]) == x {
                        let j = choose|j: int| 0 <= j < i + 1 && (local_name(#[trigger] nodes@[j]) matches Some(nm) && fv.contains(nm)) && node_key(nodes@[j]) == x;
                        assert(j < i);
                    }
                }
            }
        }
        i = i + 1;
    }
    r
}

/// Relation `i` leads, in one allowed step, from a node reached within `k`
/// steps to `x`.
pub open spec fn step_into(
    nodes: Seq<DependencyNode>,
    rels: Seq<DependencyRelation>,
    f: DependencyGraphFilter,
    focus: Seq<Seq<char>>,
    k: nat,
    i: int,
    x: Seq<AtomView>,
) -> bool {
    relation_allowed(f, rels[i]) && ((follows_forward(f.direction) && reached(nodes, rels, f, focus, k, node_key(rels[i].source))
        && node_key(rels[i].target) == x) || (follows_backward(f.direction) && reached(nodes, rels, f, focus, k, node_key(rels[i].target))
        && node_key(rels[i].source) == x))
}

proof fn lemma_reached_step(
    nodes: Seq<DependencyNode>,
    rels: Seq<DependencyRelation>,
    f: DependencyGraphFilter,
    focus: Seq<Seq<char>>,
    k: nat,
    x: Seq<AtomView>,
)
    ensures
        reached(nodes, rels, f, focus, k + 1, x) == (reached(nodes, rels, f, focus, k, x) || exists|i: int|
            0 <= i < rels.len() && #[trigger] step_into(nodes, rels, f, focus, k, i, x)),
{
    if reached(nodes, rels, f, focus, k + 1, x) && !reached(nodes, rels, f, focus, k, x) {
        let i = choose|i: int|
            0 <= i < rels.len() && relation_allowed(f, #[trigger] rels[i]) && ((follows_forward(f.direction) && reached(
                nodes, rels, f, focus, k, node_key(rels[i].source)) && node_key(rels[i].target) == x) || (
            follows_backward(f.direction) && reached(nodes, rels, f, focus, k, node_key(rels[i].target))
                && node_key(rels[i].source) == x));
        assert(step_into(nodes, rels, f, focus, k, i, x));
    }
    if exists|i: int| 0 <= i < rels.len() && #[trigger] step_into(nodes, rels, f, focus, k, i, x) {
        let i = choose|i: int| 0 <= i < rels.len() && #[trigger] step_into(nodes, rels, f, focus, k, i, x);
        assert(relation_allowed(f, rels[i]));
    }
}

fn copy_key(k: &Vec<KeyAtom>) -> (r: Vec<KeyAtom>)
    ensures
        key_view(r@) == key_view(k@),
{
    let mut r: Vec<KeyAtom> = Vec::new();
    let mut i: usize = 0;
    while i < k.len()
        invariant
            i <= k.len(),
            key_view(r@) == key_view(k@).take(i as int),
        decreases k.len() - i,
    {
        let a = match &k[i] {
            KeyAtom::Num(n) => KeyAtom::Num(*n),
            KeyAtom::Text(t) => KeyAtom::Text(t.clone()),
        };
        let ghost before = r@;
        r.push(a);
        proof {
            assert(key_view(r@) =~= key_view(before).push(k@[i as int]@));
            assert(key_view(k@).take(i + 1) =~= key_view(k@).take(i as int).push(k@[i as int]@));
        }
        i = i + 1;
    }
    proof {
        assert(key_view(k@).take(k.len() as int) =~= key_view(k@));
    }
    r
}

fn copy_keys(ks: &Vec<Vec<KeyAtom>>) -> (r: Vec<Vec<KeyAtom>>)
    ensures
        keys_view(r@) == keys_view(ks@),
{
    let mut r: Vec<Vec<KeyAtom>> = Vec::new();
    let mut i: usize = 0;
    while i < ks.len()
        invariant
            i <= ks.len(),
            keys_view(r@) == keys_view(ks@).take(i as int),
        decreases ks.len() - i,
    {
        let c = copy_key(&ks[i]);
        let ghost before = r@;
        r.push(c);
        proof {
            assert(keys_view(r@) =~= keys_view(before).push(key_view(c@)));
            assert(keys_view(ks@).take(i + 1) =~= keys_view(ks@).take(i as int).push(key_view(ks@[i as int]@)));
        }
        i = i + 1;
    }
    proof {
        assert(keys_view(ks@).take(ks.len() as int) =~= keys_view(ks@));
    }
    r
}

proof fn lemma_push_listed(before: Seq<Seq<AtomView>>, k: Seq<AtomView>, x: Seq<AtomView>)
    ensures
        key_listed(before.push(k), x) == (key_listed(before, x) || k == x),
{
    if key_listed(before.push(k), x) {
        let t = choose|t: int| 0 <= t < before.push(k).len() && before.push(k)[t] == x;
        if t < before.len() {
            assert(before[t] == x);
        }
    }
    if key_listed(before, x) {
        let t = choose|t: int| 0 <= t < before.len() && before[t] == x;
        assert(before.push(k)[t] == x);
    }
    if k == x {
        assert(before.push(k)[before.len() as int] == x);
    }
}

/// One level of the traversal: the keys within `k + 1` steps, from those
/// within `k` steps; and whether any key was added.
fn expand_level(
    a: &DependencyGraphAnalysis,
    f: &DependencyGraphFilter,
    sel: &Vec<Vec<KeyAtom>>,
    Ghost(k): Ghost<nat>,
) -> (r: (Vec<Vec<KeyAtom>>, bool))
    requires
        forall|x: Seq<AtomView>| key_listed(keys_view(sel@), x) == reached(a.nodes@, a.relations@, *f, f.focus_modules@.map_values(|s: String| s@), k, x),
    ensures
        forall|x: Seq<AtomView>| key_listed(keys_view(r.0@), x) == reached(a.nodes@, a.relations@, *f, f.focus_modules@.map_values(|s: String| s@), k + 1, x),
        !r.1 ==> keys_view(r.0@) == keys_view(sel@),
{
    let ghost fv = f.focus_modules@.map_values(|s: String| s@);
    let ghost nodes = a.nodes@;
    let ghost rels = a.relations@;
    let mut next = copy_keys(sel);
    let mut changed = false;
    let mut ri: usize = 0;
    while ri < a.relations.len()
        invariant
            ri <= a.relations.len(),
            fv == f.focus_modules@.map_values(|s: String| s@),
            nodes == a.nodes@,
            rels == a.relations@,
            forall|x: Seq<AtomView>| key_listed(keys_view(sel@), x) == reached(nodes, rels, *f, fv, k, x),
            forall|x: Seq<AtomView>| key_listed(keys_view(next@), x) == (reached(nodes, rels, *f, fv, k, x) || exists|i: int|
                0 <= i < ri && #[trigger] step_into(nodes, rels, *f, fv, k, i, x)),
            !changed ==> keys_view(next@) == keys_view(sel@),
        decreases a.relations.len() - ri,
    {
        let r = &a.relations[ri];
        let allowed = !f.exact_only || r.kind == DependencyRelationKind::Exact;
        let fwd = f.direction == DependencyDirection::Dependencies || f.direction == DependencyDirection::Both;
        let bwd = f.direction == DependencyDirection::Dependents || f.direction == DependencyDirection::Both;
        let sk = r.source.key();
        let tk = r.target.key();
        let src_in = contains_key(sel, &sk);
        let tgt_in = contains_key(sel, &tk);
        let ghost mid_before = keys_view(next@);
        let mut add_t = false;
        if allowed && fwd && src_in {
            if !contains_key(&next, &tk) {
                add_t = true;
            }
        }
        if add_t {
            next.push(copy_key(&tk));
            changed = true;
        }
        let ghost mid = keys_view(next@);
        let mut add_s = false;
        if allowed && bwd && tgt_in {
            if !contains_key(&next, &sk) {
                add_s = true;
            }
        }
        if add_s {
            next.push(copy_key(&sk));
            changed = true;
        }
        proof {
            assert forall|x: Seq<AtomView>| key_listed(keys_view(next@), x) == (reached(nodes, rels, *f, fv, k, x) || exists|i: int|
                0 <= i < ri + 1 && #[trigger] step_into(nodes, rels, *f, fv, k, i, x)) by {
                if add_t {
                    lemma_push_listed(mid_before, key_view(tk@), x);
                    assert(mid =~= mid_before.push(key_view(tk@)));
                }
                if add_s {
                    lemma_push_listed(mid, key_view(sk@), x);
                    assert(keys_view(next@) =~= mid.push(key_view(sk@)));
                }
                assert(step_into(nodes, rels, *f, fv, k, ri as int, x) == (allowed && ((fwd && key_listed(keys_view(sel@), key_view(sk@))
                    && key_view(tk@) == x) || (bwd && key_listed(keys_view(sel@), key_view(tk@)) && key_view(sk@) == x))));
                if exists|i: int| 0 <= i < ri + 1 && #[trigger] step_into(nodes, rels, *f, fv, k, i, x) {
                    let i = choose|i: int| 0 <= i < ri + 1 && #[trigger] step_into(nodes, rels, *f, fv, k, i, x);
                    if i < ri {
                        assert(exists|i: int| 0 <= i < ri && #[trigger] step_into(nodes, rels, *f, fv, k, i, x));
                    }
                }
            }
        }
        ri = ri + 1;
    }
    proof {
        assert forall|x: Seq<AtomView>| key_listed(keys_view(next@), x) == reached(nodes, rels, *f, fv, k + 1, x) by {
            lemma_reached_step(nodes, rels, *f, fv, k, x);
        }
    }
    (next, changed)
}

/// The keys within `depth` allowed steps of the focus modules.
fn traverse(a: &DependencyGraphAnalysis, f: &DependencyGraphFilter) -> (r: Vec<Vec<KeyAtom>>)
    ensures
        forall|x: Seq<AtomView>| key_listed(keys_view(r@), x) == reached(a.nodes@, a.relations@, *f, f.focus_modules@.map_values(|s: String| s@), f.depth as nat, x),
{
    let ghost fv = f.focus_modules@.map_values(|s: String| s@);
    let mut sel = seed_keys(&a.nodes, &f.focus_modules);
    let mut k: usize = 0;
    let mut done = false;
    while k < f.depth && !done
        invariant
            k <= f.depth,
            fv == f.focus_modules@.map_values(|s: String| s@),
            forall|x: Seq<AtomView>| key_listed(keys_view(sel@), x) == reached(a.nodes@, a.relations@, *f, fv, k as nat, x),
            done ==> forall|x: Seq<AtomView>| reached(a.nodes@, a.relations@, *f, fv, (k + 1) as nat, x) == reached(a.nodes@, a.relations@, *f, fv, k as nat, x),
        decreases f.depth - k, if done { 0int } else { 1int },
    {
        let (next, changed) = expand_level(a, f, &sel, Ghost(k as nat));
        if changed {
            sel = next;
            k = k + 1;
        } else {
            proof {
                assert forall|x: Seq<AtomView>| reached(a.nodes@, a.relations@, *f, fv, (k + 1) as nat, x) == reached(
                    a.nodes@, a.relations@, *f, fv, k as nat, x) by {
                    assert(key_listed(keys_view(next@), x) == key_listed(keys_view(sel@), x));
                }
            }
            done = true;
        }
    }
    proof {
        if done {
            lemma_reached_fixpoint(a.nodes@, a.relations@, *f, fv, k as nat, f.depth as nat);
        }
    }
    sel
}

/// The index of the first focus module, from `q` on, that names no local
/// module.
pub open spec fn missing_from(nodes: Seq<DependencyNode>, focus: Seq<Seq<char>>, q: int) -> Option<int>
    decreases focus.len() - q,
{
    if q >= focus.len() || q < 0 {
        None
    } else if !is_local_name(nodes, focus[q]) {
        Some(q)
    } else {
        missing_from(nodes, focus, q + 1)
    }
}

/// The nodes a view starts from: the cycle members when only cycles are
/// shown, else every node when nothing is focused, else those within the
/// depth of the focus modules.
pub open spec fn base_selected(a: DependencyGraphAnalysis, f: DependencyGraphFilter, x: Seq<AtomView>) -> bool {
    if f.cycles_only {
        exists|c: int| 0 <= c < a.cycles.len() && is_member_key(#[trigger] a.cycles@[c].members@, x)
    } else if f.focus_modules.len() == 0 {
        exists|i: int| 0 <= i < a.nodes.len() && node_key(#[trigger] a.nodes@[i]) == x
    } else {
        reached(a.nodes@, a.relations@, f, f.focus_modules@.map_values(|s: String| s@), f.depth as nat, x)
    }
}

/// The selection after the first `j` cycles were completed: a cycle with a
/// selected member has all its members selected.
pub open spec fn completed(a: DependencyGraphAnalysis, f: DependencyGraphFilter, j: int, x: Seq<AtomView>) -> bool
    decreases j,
{
    if j <= 0 {
        base_selected(a, f, x)
    } else {
        completed(a, f, j - 1, x) || ((exists|m: int|
            0 <= m < a.cycles@[j - 1].members.len() && completed(a, f, j - 1, node_key(#[trigger] a.cycles@[j - 1].members@[m])))
            && is_member_key(a.cycles@[j - 1].members@, x))
    }
}

/// Whether a node kind survives the kind filters.
pub open spec fn kept_kind(f: DependencyGraphFilter, k: DependencyNodeKind) -> bool {
    &&& (!f.exact_only || !(k == DependencyNodeKind::Ambiguous || k == DependencyNodeKind::Unresolved || k
        == DependencyNodeKind::ContextDependent))
    &&& (!(f.local_only || f.cycles_only) || k == DependencyNodeKind::LocalModule)
}

/// Whether a view keeps a node.
pub open spec fn kept(a: DependencyGraphAnalysis, f: DependencyGraphFilter, n: DependencyNode) -> bool {
    completed(a, f, a.cycles.len() as int, node_key(n)) && kept_kind(f, node_kind(n))
}

/// Whether a view shows a relation.
pub open spec fn shown_relation(a: DependencyGraphAnalysis, f: DependencyGraphFilter, r: DependencyRelation) -> bool {
    &&& relation_allowed(f, r)
    &&& kept(a, f, r.source)
    &&& kept(a, f, r.target)
    &&& (!f.cycles_only || r.kind == DependencyRelationKind::Exact)
}

/// Whether a view shows a component: all its members are kept.
pub open spec fn shown_component(a: DependencyGraphAnalysis, f: DependencyGraphFilter, c: DependencyScc) -> bool {
    forall|m: int| 0 <= m < c.members.len() ==> kept(a, f, #[trigger] c.members@[m])
}

/// The first focus module that names no local module, if any.
fn first_missing(nodes: &Vec<DependencyNode>, focus: &Vec<String>) -> (r: Option<usize>)
    ensures
        match r {
            Some(q) => q < focus.len() && missing_from(nodes@, focus@.map_values(|s: String| s@), 0) == Some(q as int),
            None => missing_from(nodes@, focus@.map_values(|s: String| s@), 0) is None,
        },
{
    let ghost fv = focus@.map_values(|s: String| s@);
    let mut q: usize = 0;
    while q < focus.len()
        invariant
            q <= focus.len(),
            fv == focus@.map_values(|s: String| s@),
            missing_from(nodes@, fv, 0) == missing_from(nodes@, fv, q as int),
        decreases focus.len() - q,
    {
        let mut found = false;
        let mut i: usize = 0;
        while i < nodes.len()
            invariant
                i <= nodes.len(),
                q < focus.len(),
                fv == focus@.map_values(|s: String| s@),
                found == exists|j: int| 0 <= j < i && local_name(#[trigger] nodes@[j]) == Some(fv[q as int]),
            decreases nodes.len() - i,
        {
            match &nodes[i] {
                DependencyNode::LocalModule(m) => {
                    if crate::text::text_eq(m.id.qualified_name(), focus[q].as_str()) {
                        found = true;
                    }
                    proof {
                        assert(local_name(nodes@[i as int]) == Some(m.id@.1));
                    }
                },
                _ => {
                    proof {
                        assert(local_name(nodes@[i as int]) is None);
                    }
                },
            }
            i = i + 1;
        }
        if !found {
            return Some(q);
        }
        q = q + 1;
    }
    None
}

/// Keys whose listing is the base selection.
fn base_keys(a: &DependencyGraphAnalysis, f: &DependencyGraphFilter) -> (r: Vec<Vec<KeyAtom>>)
    ensures
        forall|x: Seq<AtomView>| key_listed(keys_view(r@), x) == base_selected(*a, *f, x),
{
    let mut r: Vec<Vec<KeyAtom>> = Vec::new();
    if f.cycles_only {
        let mut c: usize = 0;
        while c < a.cycles.len()
            invariant
                c <= a.cycles.len(),
                f.cycles_only,
                forall|x: Seq<AtomView>| key_listed(keys_view(r@), x) == exists|d: int|
                    0 <= d < c && is_member_key(#[trigger] a.cycles@[d].members@, x),
            decreases a.cycles.len() - c,
        {
            let members = &a.cycles[c].members;
            let ghost start = keys_view(r@);
            let mut m: usize = 0;
            while m < members.len()
                invariant
                    m <= members.len(),
                    c < a.cycles.len(),
                    members == &a.cycles@[c as int].members,
                    forall|x: Seq<AtomView>| key_listed(keys_view(r@), x) == (key_listed(start, x) || exists|t: int|
                        0 <= t < m && node_key(#[trigger] members@[t]) == x),
                decreases members.len() - m,
            {
                let ghost before = keys_view(r@);
                let k = members[m].key();
                r.push(k);
                let ghost mo = m as int;
                m = m + 1;
                proof {
                    assert(keys_view(r@) =~= before.push(key_view(k@)));
                    assert forall|x: Seq<AtomView>| key_listed(keys_view(r@), x) == (key_listed(start, x) || exists|t: int|
                        0 <= t < m && node_key(#[trigger] members@[t]) == x) by {
                        lemma_push_listed(before, key_view(k@), x);
                        assert(key_listed(before, x) == (key_listed(start, x) || exists|t: int|
                            0 <= t < mo && node_key(#[trigger] members@[t]) == x));
                        assert(key_view(k@) == node_key(members@[mo]));
                        if exists|t: int| 0 <= t < m && node_key(#[trigger] members@[t]) == x {
                            let t = choose|t: int| 0 <= t < m && node_key(#[trigger] members@[t]) == x;
                            if t < mo {
                                assert(exists|t: int| 0 <= t < mo && node_key(#[trigger] members@[t]) == x);
                            }
                        }
                        if exists|t: int| 0 <= t < mo && node_key(#[trigger] members@[t]) == x {
                            let t = choose|t: int| 0 <= t < mo && node_key(#[trigger] members@[t]) == x;
                            assert(0 <= t < m && node_key(members@[t]) == x);
                        }
                    }
                }
            }
            proof {
                assert forall|x: Seq<AtomView>| key_listed(keys_view(r@), x) == exists|d: int|
                    0 <= d < c + 1 && is_member_key(#[trigger] a.cycles@[d].members@, x) by {
                    assert(key_listed(start, x) == exists|d: int| 0 <= d < c && is_member_key(#[trigger] a.cycles@[d].members@, x));
                    assert(key_listed(keys_view(r@), x) == (key_listed(start, x) || exists|t: int|
                        0 <= t < members.len() && node_key(#[trigger] members@[t]) == x));
                    if exists|d: int| 0 <= d < c + 1 && is_member_key(#[trigger] a.cycles@[d].members@, x) {
                        let d = choose|d: int| 0 <= d < c + 1 && is_member_key(#[trigger] a.cycles@[d].members@, x);
                        if d < c {
                            assert(exists|d: int| 0 <= d < c && is_member_key(#[trigger] a.cycles@[d].members@, x));
                        } else {
                            let t = choose|t: int| 0 <= t < members.len() && node_key(members@[t]) == x;
                            assert(node_key(members@[t]) == x);
                        }
                    }
                    if exists|d: int| 0 <= d < c && is_member_key(#[trigger] a.cycles@[d].members@, x) {
                        let d = choose|d: int| 0 <= d < c && is_member_key(#[trigger] a.cycles@[d].members@, x);
                        assert(0 <= d < c + 1 && is_member_key(a.cycles@[d].members@, x));
                    }
                    if key_listed(keys_view(r@), x) && !key_listed(start, x) {
                        let t = choose|t: int| 0 <= t < members.len() && node_key(#[trigger] members@[t]) == x;
                        assert(is_member_key(a.cycles@[c as int].members@, x));
                    }
                }
            }
            c = c + 1;
        }
    } else if f.focus_modules.len() == 0 {
        let mut i: usize = 0;
        while i < a.nodes.len()
            invariant
                i <= a.nodes.len(),
                !f.cycles_only,
                f.focus_modules.len() == 0,
                forall|x: Seq<AtomView>| key_listed(keys_view(r@), x) == exists|j: int|
                    0 <= j < i && node_key(#[trigger] a.nodes@[j]) == x,
            decreases a.nodes.len() - i,
        {
            let ghost before = keys_view(r@);
            let k = a.nodes[i].key();
            r.push(k);
            proof {
                assert(keys_view(r@) =~= before.push(key_view(k@)));
                assert forall|x: Seq<AtomView>| key_listed(keys_view(r@), x) == exists|j: int|
                    0 <= j < i + 1 && node_key(#[trigger] a.nodes@[j]) == x by {
                    lemma_push_listed(before, key_view(k@), x);
                    if exists|j: int| 0 <= j < i + 1 && node_key(#[trigger] a.nodes@[j]) == x {
                        let j = choose|j: int| 0 <= j < i + 1 && node_key(#[trigger] a.nodes@[j]) == x;
                        if j < i {
                            assert(exists|j: int| 0 <= j < i && node_key(#[trigger] a.nodes@[j]) == x);
                        }
                    }
                }
            }
            i = i + 1;
        }
    } else {
        r = traverse(a, f);
    }
    r
}

/// Completes the selection with every cycle that has a selected member.
fn complete_cycles(a: &DependencyGraphAnalysis, f: &DependencyGraphFilter, sel: Vec<Vec<KeyAtom>>) -> (r: Vec<Vec<KeyAtom>>)
    requires
        forall|x: Seq<AtomView>| key_listed(keys_view(sel@), x) == base_selected(*a, *f, x),
    ensures
        forall|x: Seq<AtomView>| key_listed(keys_view(r@), x) == completed(*a, *f, a.cycles.len() as int, x),
{
    let mut sel = sel;
    let mut c: usize = 0;
    while c < a.cycles.len()
        invariant
            c <= a.cycles.len(),
            forall|x: Seq<AtomView>| key_listed(keys_view(sel@), x) == completed(*a, *f, c as int, x),
        decreases a.cycles.len() - c,
    {
        let members = &a.cycles[c].members;
        let mut touched = false;
        let mut m: usize = 0;
        while m < members.len()
            invariant
                m <= members.len(),
                c < a.cycles.len(),
                members == &a.cycles@[c as int].members,
                forall|x: Seq<AtomView>| key_listed(keys_view(sel@), x) == completed(*a, *f, c as int, x),
                touched == exists|t: int| 0 <= t < m && completed(*a, *f, c as int, node_key(#[trigger] members@[t])),
            decreases members.len() - m,
        {
            let k = members[m].key();
            if contains_key(&sel, &k) {
                touched = true;
            }
            m = m + 1;
        }
        if touched {
            let ghost start = keys_view(sel@);
            let mut m: usize = 0;
            while m < members.len()
                invariant
                    m <= members.len(),
                    c < a.cycles.len(),
                    members == &a.cycles@[c as int].members,
                    forall|x: Seq<AtomView>| key_listed(keys_view(sel@), x) == (key_listed(start, x) || exists|t: int|
                        0 <= t < m && node_key(#[trigger] members@[t]) == x),
                decreases members.len() - m,
            {
                let ghost before = keys_view(sel@);
                let k = members[m].key();
                sel.push(k);
                let ghost mo = m as int;
                m = m + 1;
                proof {
                    assert(keys_view(sel@) =~= before.push(key_view(k@)));
                    assert forall|x: Seq<AtomView>| key_listed(keys_view(sel@), x) == (key_listed(start, x) || exists|t: int|
                        0 <= t < m && node_key(#[trigger] members@[t]) == x) by {
                        lemma_push_listed(before, key_view(k@), x);
                        assert(key_listed(before, x) == (key_listed(start, x) || exists|t: int|
                            0 <= t < mo && node_key(#[trigger] members@[t]) == x));
                        assert(key_view(k@) == node_key(members@[mo]));
                        if exists|t: int| 0 <= t < m && node_key(#[trigger] members@[t]) == x {
                            let t = choose|t: int| 0 <= t < m && node_key(#[trigger] members@[t]) == x;
                            if t < mo {
                                assert(exists|t: int| 0 <= t < mo && node_key(#[trigger] members@[t]) == x);
                            }
                        }
                        if exists|t: int| 0 <= t < mo && node_key(#[trigger] members@[t]) == x {
                            let t = choose|t: int| 0 <= t < mo && node_key(#[trigger] members@[t]) == x;
                            assert(0 <= t < m && node_key(members@[t]) == x);
                        }
                    }
                }
            }
            proof {
                assert forall|x: Seq<AtomView>| key_listed(keys_view(sel@), x) == completed(*a, *f, c + 1, x) by {
                    assert(key_listed(start, x) == completed(*a, *f, c as int, x));
                    if is_member_key(a.cycles@[c as int].members@, x) {
                        let t = choose|t: int| 0 <= t < members.len() && node_key(members@[t]) == x;
                        assert(node_key(members@[t]) == x);
                    }
                    if key_listed(keys_view(sel@), x) && !key_listed(start, x) {
                        let t = choose|t: int| 0 <= t < members.len() && node_key(#[trigger] members@[t]) == x;
                        assert(is_member_key(a.cycles@[c as int].members@, x));
                    }
                }
            }
        } else {
            proof {
                assert forall|x: Seq<AtomView>| key_listed(keys_view(sel@), x) == completed(*a, *f, c + 1, x) by {
                    if exists|t: int| 0 <= t < members.len() && completed(*a, *f, c as int, node_key(#[trigger] members@[t])) {
                        let t = choose|t: int| 0 <= t < members.len() && completed(*a, *f, c as int, node_key(#[trigger] members@[t]));
                        assert(false);
                    }
                }
            }
        }
        c = c + 1;
    }
    sel
}

/// `n{index}`, the index with at least four digits.
pub open spec fn node_id(i: nat) -> Seq<char> {
    let d = decimal(i);
    "n"@ + if d.len() < 4 {
        Seq::new((4 - d.len()) as nat, |k: int| '0')
    } else {
        Seq::empty()
    } + d
}

fn node_id_text(i: usize) -> (s: String)
    ensures
        s@ == node_id(i as nat),
{
    let mut s = String::new();
    push_char(&mut s, 'n');
    let d = crate::text::decimal_text(i as u64);
    let mut pad: usize = d.unicode_len();
    let ghost zeros: Seq<char> = if d@.len() < 4 { Seq::new((4 - d@.len()) as nat, |k: int| '0') } else { Seq::empty() };
    let mut written: usize = 0;
    while pad < 4
        invariant
            d@ == decimal(i as nat),
            pad == d@.len() + written,
            pad <= 4 || written == 0,
            s@ == seq!['n'] + Seq::new(written as nat, |k: int| '0'),
        decreases 4 - pad,
    {
        push_char(&mut s, '0');
        written = written + 1;
        pad = pad + 1;
        assert(s@ =~= seq!['n'] + Seq::new(written as nat, |k: int| '0'));
    }
    push_text(&mut s, d.as_str());
    proof {
        reveal_strlit("n");
        assert(Seq::new(written as nat, |k: int| '0') =~= zeros);
        assert(s@ =~= node_id(i as nat));
    }
    s
}

/// The index below `n` of the last node with key `k`.
pub open spec fn last_node_index(nodes: Seq<DependencyNode>, k: Seq<AtomView>, n: int) -> Option<int>
    decreases n,
{
    if n <= 0 {
        None
    } else if node_key(nodes[n - 1]) == k {
        Some(n - 1)
    } else {
        last_node_index(nodes, k, n - 1)
    }
}

/// The index below `n` of the last metric of the node with key `k`.
pub open spec fn last_metric_index(ms: Seq<DependencyNodeMetrics>, k: Seq<AtomView>, n: int) -> Option<int>
    decreases n,
{
    if n <= 0 {
        None
    } else if node_key(ms[n - 1].node) == k {
        Some(n - 1)
    } else {
        last_metric_index(ms, k, n - 1)
    }
}

/// The number of the last cycle below `n` that holds the node with key `k`.
pub open spec fn cycle_number_of(cycles: Seq<DependencyScc>, k: Seq<AtomView>, n: int) -> Option<usize>
    decreases n,
{
    if n <= 0 {
        None
    } else if is_member_key(cycles[n - 1].members@, k) {
        Some(n as usize)
    } else {
        cycle_number_of(cycles, k, n - 1)
    }
}

/// Whether a view node carries the identifier, metrics and cycle number
/// that the analysis gives its node.
pub open spec fn view_node_ok(a: DependencyGraphAnalysis, vn: DependencyGraphViewNode) -> bool {
    let k = node_key(vn.node);
    &&& last_node_index(a.nodes@, k, a.nodes.len() as int) matches Some(i) && vn.id@ == node_id(i as nat)
    &&& last_metric_index(a.metrics@, k, a.metrics.len() as int) matches Some(j) && vn.fan_in == a.metrics@[j].fan_in
        && vn.fan_out == a.metrics@[j].fan_out
    &&& vn.cyclic_component == cycle_number_of(a.cycles@, k, a.cycles.len() as int)
}

/// A component taken by value.
pub open spec fn component_view(c: DependencyScc) -> (Seq<Seq<AtomView>>, bool) {
    (c.members@.map_values(|n: DependencyNode| node_key(n)), c.cyclic)
}

/// Whether `v` is the view of `a` under `f`.
pub open spec fn view_of(a: DependencyGraphAnalysis, f: DependencyGraphFilter, v: DependencyGraphView) -> bool {
    &&& v.filter.focus_modules@.map_values(|s: String| s@) == f.focus_modules@.map_values(|s: String| s@)
    &&& v.filter.direction == f.direction
    &&& v.filter.depth == f.depth
    &&& v.filter.exact_only == f.exact_only
    &&& v.filter.local_only == f.local_only
    &&& v.filter.cycles_only == f.cycles_only
    &&& v.nodes@.map_values(|vn: DependencyGraphViewNode| node_key(vn.node)) == a.nodes@.filter(
        |n: DependencyNode| kept(a, f, n),
    ).map_values(|n: DependencyNode| node_key(n))
    &&& forall|i: int| 0 <= i < v.nodes.len() ==> view_node_ok(a, #[trigger] v.nodes@[i])
    &&& v.relations@.map_values(|r: DependencyRelation| relation_view(r)) == a.relations@.filter(
        |r: DependencyRelation| shown_relation(a, f, r),
    ).map_values(|r: DependencyRelation| relation_view(r))
    &&& v.strongly_connected_components@.map_values(|c: DependencyScc| component_view(c))
        == a.strongly_connected_components@.filter(|c: DependencyScc| shown_component(a, f, c)).map_values(
        |c: DependencyScc| component_view(c),
    )
}

proof fn lemma_last_node_index(nodes: Seq<DependencyNode>, k: Seq<AtomView>, n: int)
    requires
        0 <= n <= nodes.len(),
    ensures
        last_node_index(nodes, k, n) matches Some(i) ==> 0 <= i < n && node_key(nodes[i]) == k,
        (exists|j: int| 0 <= j < n && node_key(#[trigger] nodes[j]) == k) ==> last_node_index(nodes, k, n) is Some,
    decreases n,
{
    if n > 0 {
        lemma_last_node_index(nodes, k, n - 1);
        if exists|j: int| 0 <= j < n && node_key(#[trigger] nodes[j]) == k {
            let j = choose|j: int| 0 <= j < n && node_key(#[trigger] nodes[j]) == k;
            if j < n - 1 {
                assert(exists|j: int| 0 <= j < n - 1 && node_key(#[trigger] nodes[j]) == k);
            }
        }
    }
}

proof fn lemma_last_metric_index(ms: Seq<DependencyNodeMetrics>, k: Seq<AtomView>, n: int)
    requires
        0 <= n <= ms.len(),
    ensures
        last_metric_index(ms, k, n) matches Some(i) ==> 0 <= i < n,
    decreases n,
{
    if n > 0 {
        lemma_last_metric_index(ms, k, n - 1);
    }
}

fn find_last_node(nodes: &Vec<DependencyNode>, k: &Vec<KeyAtom>) -> (r: Option<usize>)
    ensures
        match r {
            Some(i) => last_node_index(nodes@, key_view(k@), nodes.len() as int) == Some(i as int),
            None => last_node_index(nodes@, key_view(k@), nodes.len() as int) is None,
        },
{
    let mut n: usize = nodes.len();
    while n > 0
        invariant
            n <= nodes.len(),
            last_node_index(nodes@, key_view(k@), nodes.len() as int) == last_node_index(nodes@, key_view(k@), n as int),
        decreases n,
    {
        let nk = nodes[n - 1].key();
        let c = compare_keys(&nk, k);
        proof {
            lemma_key_facts(key_view(nk@), key_view(k@));
        }
        if c == 0 {
            return Some(n - 1);
        }
        n = n - 1;
    }
    None
}

fn find_last_metric(ms: &Vec<DependencyNodeMetrics>, k: &Vec<KeyAtom>) -> (r: Option<usize>)
    ensures
        match r {
            Some(i) => i < ms.len() && last_metric_index(ms@, key_view(k@), ms.len() as int) == Some(i as int),
            None => last_metric_index(ms@, key_view(k@), ms.len() as int) is None,
        },
{
    let mut n: usize = ms.len();
    while n > 0
        invariant
            n <= ms.len(),
            last_metric_index(ms@, key_view(k@), ms.len() as int) == last_metric_index(ms@, key_view(k@), n as int),
        decreases n,
    {
        let nk = ms[n - 1].node.key();
        let c = compare_keys(&nk, k);
        proof {
            lemma_key_facts(key_view(nk@), key_view(k@));
        }
        if c == 0 {
            return Some(n - 1);
        }
        n = n - 1;
    }
    None
}

fn members_contain(members: &Vec<DependencyNode>, k: &Vec<KeyAtom>) -> (r: bool)
    ensures
        r == is_member_key(members@, key_view(k@)),
{
    let mut i: usize = 0;
    while i < members.len()
        invariant
            i <= members.len(),
            forall|j: int| 0 <= j < i ==> node_key(#[trigger] members@[j]) != key_view(k@),
        decreases members.len() - i,
    {
        let mk = members[i].key();
        let c = compare_keys(&mk, k);
        proof {
            lemma_key_facts(key_view(mk@), key_view(k@));
        }
        if c == 0 {
            return true;
        }
        i = i + 1;
    }
    false
}

fn cycle_number_exec(cycles: &Vec<DependencyScc>, k: &Vec<KeyAtom>) -> (r: Option<usize>)
    ensures
        r == cycle_number_of(cycles@, key_view(k@), cycles.len() as int),
{
    let mut n: usize = cycles.len();
    while n > 0
        invariant
            n <= cycles.len(),
            cycle_number_of(cycles@, key_view(k@), cycles.len() as int) == cycle_number_of(cycles@, key_view(k@), n as int),
        decreases n,
    {
        if members_contain(&cycles[n - 1].members, k) {
            return Some(n);
        }
        n = n - 1;
    }
    None
}

fn kept_exec(a: &DependencyGraphAnalysis, f: &DependencyGraphFilter, sel: &Vec<Vec<KeyAtom>>, n: &DependencyNode) -> (r: bool)
    requires
        forall|x: Seq<AtomView>| key_listed(keys_view(sel@), x) == completed(*a, *f, a.cycles.len() as int, x),
    ensures
        r == kept(*a, *f, *n),
{
    let k = n.key();
    let kind = n.kind();
    let kind_ok = (!f.exact_only || !(kind == DependencyNodeKind::Ambiguous || kind == DependencyNodeKind::Unresolved
        || kind == DependencyNodeKind::ContextDependent)) && (!(f.local_only || f.cycles_only) || kind
        == DependencyNodeKind::LocalModule);
    kind_ok && contains_key(sel, &k)
}

fn shown_component_exec(a: &DependencyGraphAnalysis, f: &DependencyGraphFilter, sel: &Vec<Vec<KeyAtom>>, c: &DependencyScc) -> (r: bool)
    requires
        forall|x: Seq<AtomView>| key_listed(keys_view(sel@), x) == completed(*a, *f, a.cycles.len() as int, x),
    ensures
        r == shown_component(*a, *f, *c),
{
    let mut m: usize = 0;
    while m < c.members.len()
        invariant
            m <= c.members.len(),
            forall|x: Seq<AtomView>| key_listed(keys_view(sel@), x) == completed(*a, *f, a.cycles.len() as int, x),
            forall|t: int| 0 <= t < m ==> kept(*a, *f, #[trigger] c.members@[t]),
        decreases c.members.len() - m,
    {
        if !kept_exec(a, f, sel, &c.members[m]) {
            return false;
        }
        m = m + 1;
    }
    true
}

/// The view of a dependency graph under a filter: the nodes the filter
/// selects (every node, the focus modules with what lies within the depth in
/// the chosen direction, or the cycle members), completed with whole cycles
/// and narrowed by the kind filters; the relations among them; and the
/// components all of whose members are shown. A focus module that names no
/// local module is an error with the three nearest local module names.
#[verifier::rlimit(40)]
pub fn filter_dependency_graph(
    analysis: &DependencyGraphAnalysis,
    filter: &DependencyGraphFilter,
) -> (r: Result<DependencyGraphView, DependencyGraphFilterError>)
    requires
        forall|q: int| 0 <= q < filter.focus_modules.len() ==> names_fit(analysis.nodes@, #[trigger] filter.focus_modules@[q]@),
        forall|i: int|
            0 <= i < analysis.nodes.len() && kept(*analysis, *filter, #[trigger] analysis.nodes@[i]) ==> last_metric_index(
                analysis.metrics@,
                node_key(analysis.nodes@[i]),
                analysis.metrics.len() as int,
            ) is Some,
    ensures
        match r {
            Err(e) => !filter.cycles_only && filter.focus_modules.len() > 0 && (missing_from(
                analysis.nodes@,
                filter.focus_modules@.map_values(|s: String| s@),
                0,
            ) matches Some(q) && e.module@ == filter.focus_modules@[q]@ && ranked_suggestions(
                e.module@,
                analysis.nodes@,
                e.suggestions@.map_values(|s: String| s@),
            )),
            Ok(v) => (filter.cycles_only || filter.focus_modules.len() == 0 || missing_from(
                analysis.nodes@,
                filter.focus_modules@.map_values(|s: String| s@),
                0,
            ) is None) && view_of(*analysis, *filter, v),
        },
{
    let a = analysis;
    let f = filter;
    if !f.cycles_only && f.focus_modules.len() > 0 {
        match first_missing(&a.nodes, &f.focus_modules) {
            Some(q) => {
                let requested = f.focus_modules[q].as_str();
                let suggestions = filter_suggestions(requested, &a.nodes);
                return Err(DependencyGraphFilterError { module: copy_string(&f.focus_modules[q]), suggestions });
            },
            None => {},
        }
    }
    let base = base_keys(a, f);
    let sel = complete_cycles(a, f, base);
    let mut nodes: Vec<DependencyGraphViewNode> = Vec::new();
    let mut i: usize = 0;
    while i < a.nodes.len()
        invariant
            i <= a.nodes.len(),
            forall|x: Seq<AtomView>| key_listed(keys_view(sel@), x) == completed(*a, *f, a.cycles.len() as int, x),
            forall|t: int|
                0 <= t < a.nodes.len() && kept(*a, *f, #[trigger] a.nodes@[t]) ==> last_metric_index(
                    a.metrics@,
                    node_key(a.nodes@[t]),
                    a.metrics.len() as int,
                ) is Some,
            nodes@.map_values(|vn: DependencyGraphViewNode| node_key(vn.node)) == a.nodes@.take(i as int).filter(
                |n: DependencyNode| kept(*a, *f, n),
            ).map_values(|n: DependencyNode| node_key(n)),
            forall|j: int| 0 <= j < nodes.len() ==> view_node_ok(*a, #[trigger] nodes@[j]),
        decreases a.nodes.len() - i,
    {
        let ghost before = nodes@;
        proof {
            assert(a.nodes@.take(i + 1) =~= a.nodes@.take(i as int).push(a.nodes@[i as int]));
            crate::documentation::lemma_filter_push_pub(a.nodes@.take(i as int), a.nodes@[i as int], |n: DependencyNode| kept(*a, *f, n));
        }
        let n = &a.nodes[i];
        if kept_exec(a, f, &sel, n) {
            let k = n.key();
            proof {
                lemma_last_node_index(a.nodes@, key_view(k@), a.nodes.len() as int);
                assert(node_key(a.nodes@[i as int]) == key_view(k@));
                lemma_last_metric_index(a.metrics@, key_view(k@), a.metrics.len() as int);
            }
            let idx = match find_last_node(&a.nodes, &k) {
                Some(x) => x,
                None => {
                    proof {
                        assert(false);
                    }
                    0
                },
            };
            let mi = match find_last_metric(&a.metrics, &k) {
                Some(x) => x,
                None => {
                    proof {
                        assert(false);
                    }
                    0
                },
            };
            let cyc = cycle_number_exec(&a.cycles, &k);
            let copy = n.copy();
            let vn = DependencyGraphViewNode {
                id: node_id_text(idx),
                node: copy,
                fan_in: a.metrics[mi].fan_in,
                fan_out: a.metrics[mi].fan_out,
                cyclic_component: cyc,
            };
            nodes.push(vn);
            proof {
                assert(nodes@.map_values(|vn: DependencyGraphViewNode| node_key(vn.node)) =~= before.map_values(
                    |vn: DependencyGraphViewNode| node_key(vn.node)).push(node_key(a.nodes@[i as int])));
                assert forall|j: int| 0 <= j < nodes.len() implies view_node_ok(*a, #[trigger] nodes@[j]) by {
                    if j < before.len() {
                        assert(nodes@[j] == before[j]);
                    }
                }
            }
        } else {
            proof {
                assert(nodes@ == before);
            }
        }
        i = i + 1;
    }
    proof {
        assert(a.nodes@.take(a.nodes.len() as int) =~= a.nodes@);
    }
    let mut relations: Vec<DependencyRelation> = Vec::new();
    let mut ri: usize = 0;
    while ri < a.relations.len()
        invariant
            ri <= a.relations.len(),
            forall|x: Seq<AtomView>| key_listed(keys_view(sel@), x) == completed(*a, *f, a.cycles.len() as int, x),
            relations@.map_values(|r: DependencyRelation| relation_view(r)) == a.relations@.take(ri as int).filter(
                |r: DependencyRelation| shown_relation(*a, *f, r),
            ).map_values(|r: DependencyRelation| relation_view(r)),
        decreases a.relations.len() - ri,
    {
        let ghost before = relations@;
        proof {
            assert(a.relations@.take(ri + 1) =~= a.relations@.take(ri as int).push(a.relations@[ri as int]));
            crate::documentation::lemma_filter_push_pub(a.relations@.take(ri as int), a.relations@[ri as int], |r: DependencyRelation| shown_relation(*a, *f, r));
        }
        let r = &a.relations[ri];
        let allowed = !f.exact_only || r.kind == DependencyRelationKind::Exact;
        let exact_ok = !f.cycles_only || r.kind == DependencyRelationKind::Exact;
        if allowed && exact_ok && kept_exec(a, f, &sel, &r.source) && kept_exec(a, f, &sel, &r.target) {
            let c = crate::cycles::copy_relation(r);
            relations.push(c);
            proof {
                assert(relations@.map_values(|r: DependencyRelation| relation_view(r)) =~= before.map_values(
                    |r: DependencyRelation| relation_view(r)).push(relation_view(a.relations@[ri as int])));
            }
        }
        ri = ri + 1;
    }
    proof {
        assert(a.relations@.take(a.relations.len() as int) =~= a.relations@);
    }
    let mut sccs: Vec<DependencyScc> = Vec::new();
    let mut ci: usize = 0;
    while ci < a.strongly_connected_components.len()
        invariant
            ci <= a.strongly_connected_components.len(),
            forall|x: Seq<AtomView>| key_listed(keys_view(sel@), x) == completed(*a, *f, a.cycles.len() as int, x),
            sccs@.map_values(|c: DependencyScc| component_view(c)) == a.strongly_connected_components@.take(ci as int).filter(
                |c: DependencyScc| shown_component(*a, *f, c),
            ).map_values(|c: DependencyScc| component_view(c)),
        decreases a.strongly_connected_components.len() - ci,
    {
        let ghost before = sccs@;
        proof {
            assert(a.strongly_connected_components@.take(ci + 1) =~= a.strongly_connected_components@.take(ci as int).push(
                a.strongly_connected_components@[ci as int]));
            crate::documentation::lemma_filter_push_pub(a.strongly_connected_components@.take(ci as int),
                a.strongly_connected_components@[ci as int], |c: DependencyScc| shown_component(*a, *f, c));
        }
        let c = &a.strongly_connected_components[ci];
        if shown_component_exec(a, f, &sel, c) {
            let copy = crate::graph::copy_scc(c);
            proof {
                assert(copy.members@.map_values(|n: DependencyNode| node_key(n)) =~= c.members@.map_values(|n: DependencyNode| node_key(n)));
            }
            sccs.push(copy);
            proof {
                assert(sccs@.map_values(|c: DependencyScc| component_view(c)) =~= before.map_values(
                    |c: DependencyScc| component_view(c)).push(component_view(a.strongly_connected_components@[ci as int])));
            }
        }
        ci = ci + 1;
    }
    proof {
        assert(a.strongly_connected_components@.take(a.strongly_connected_components.len() as int) =~= a.strongly_connected_components@);
    }
    Ok(DependencyGraphView { filter: f.copy(), nodes, relations, strongly_connected_components: sccs })
}

} // verus!

verus! {

/// No node belongs to two cycles of the analysis.
pub open spec fn cycles_disjoint(a: DependencyGraphAnalysis) -> bool {
    forall|c: int, d: int, x: Seq<AtomView>|
        0 <= c < a.cycles.len() && 0 <= d < a.cycles.len() && c != d && #[trigger] is_member_key(a.cycles@[c].members@, x)
            ==> !#[trigger] is_member_key(a.cycles@[d].members@, x)
}

proof fn lemma_cycle_complete_upto(
    a: DependencyGraphAnalysis,
    f: DependencyGraphFilter,
    c: int,
    j: int,
    x: Seq<AtomView>,
    y: Seq<AtomView>,
)
    requires
        cycles_disjoint(a),
        0 <= c < a.cycles.len(),
        c + 1 <= j <= a.cycles.len(),
        is_member_key(a.cycles@[c].members@, x),
        is_member_key(a.cycles@[c].members@, y),
        completed(a, f, j, x),
    ensures
        completed(a, f, j, y),
    decreases j,
{
    if j == c + 1 {
        if completed(a, f, c, x) {
            let m = choose|m: int| 0 <= m < a.cycles@[c].members.len() && node_key(a.cycles@[c].members@[m]) == x;
            assert(completed(a, f, c, node_key(a.cycles@[c].members@[m])));
        }
    } else {
        if !completed(a, f, j - 1, x) {
            assert(is_member_key(a.cycles@[j - 1].members@, x));
            assert(false);
        }
        lemma_cycle_complete_upto(a, f, c, j - 1, x, y);
    }
}

/// A view is cycle complete: when it keeps a member of a cycle of the
/// analysis, it keeps every member of that cycle that the kind filters let
/// through.
pub proof fn lemma_views_are_cycle_complete(
    a: DependencyGraphAnalysis,
    f: DependencyGraphFilter,
    c: int,
    n: DependencyNode,
    other: DependencyNode,
)
    requires
        cycles_disjoint(a),
        0 <= c < a.cycles.len(),
        is_member_key(a.cycles@[c].members@, node_key(n)),
        is_member_key(a.cycles@[c].members@, node_key(other)),
        kept(a, f, n),
        kept_kind(f, node_kind(other)),
    ensures
        kept(a, f, other),
{
    lemma_cycle_complete_upto(a, f, c, a.cycles.len() as int, node_key(n), node_key(other));
}

/// The default filter keeps every node of the analysis.
pub proof fn lemma_default_filter_keeps_every_node(a: DependencyGraphAnalysis, f: DependencyGraphFilter, i: int)
    requires
        f.focus_modules.len() == 0,
        !f.cycles_only,
        !f.exact_only,
        !f.local_only,
        0 <= i < a.nodes.len(),
    ensures
        kept(a, f, a.nodes@[i]),
{
    lemma_completed_grows(a, f, a.cycles.len() as int, node_key(a.nodes@[i]));
}

proof fn lemma_completed_grows(a: DependencyGraphAnalysis, f: DependencyGraphFilter, j: int, x: Seq<AtomView>)
    requires
        base_selected(a, f, x),
    ensures
        completed(a, f, j, x),
    decreases j,
{
    if j > 0 {
        lemma_completed_grows(a, f, j - 1, x);
    }
}

} // verus!

verus! {

proof fn lemma_filter_everything<A>(s: Seq<A>, pred: spec_fn(A) -> bool)
    requires
        forall|i: int| 0 <= i < s.len() ==> pred(#[trigger] s[i]),
    ensures
        s.filter(pred) == s,
    decreases s.len(),
{
    if s.len() == 0 {
        assert(s.filter(pred) =~= s);
    } else {
        let p = s.drop_last();
        assert forall|i: int| 0 <= i < p.len() implies pred(#[trigger] p[i]) by {
            assert(p[i] == s[i]);
        }
        lemma_filter_everything(p, pred);
        crate::documentation::lemma_filter_push_pub(p, s.last(), pred);
        assert(p.push(s.last()) =~= s);
    }
}

fn copy_view_node(vn: &DependencyGraphViewNode) -> (r: DependencyGraphViewNode)
    ensures
        r.id@ == vn.id@,
        node_key(r.node) == node_key(vn.node),
        r.fan_in == vn.fan_in,
        r.fan_out == vn.fan_out,
        r.cyclic_component == vn.cyclic_component,
{
    DependencyGraphViewNode {
        id: copy_string(&vn.id),
        node: vn.node.copy(),
        fan_in: vn.fan_in,
        fan_out: vn.fan_out,
        cyclic_component: vn.cyclic_component,
    }
}

/// Whether every member of a component is among the given nodes.
pub open spec fn all_members_in(c: DependencyScc, nodes: Seq<DependencyNode>) -> bool {
    forall|m: int| 0 <= m < c.members.len() ==> is_member_key(nodes, node_key(#[trigger] c.members@[m]))
}

fn node_keys(nodes: &Vec<DependencyNode>) -> (keys: Vec<Vec<KeyAtom>>)
    ensures
        keys.len() == nodes.len(),
        forall|j: int| 0 <= j < nodes.len() ==> key_view(#[trigger] keys@[j]@) == node_key(nodes@[j]),
{
    let mut keys: Vec<Vec<KeyAtom>> = Vec::new();
    let mut i: usize = 0;
    while i < nodes.len()
        invariant
            i <= nodes.len(),
            keys.len() == i,
            forall|j: int| 0 <= j < i ==> key_view(#[trigger] keys@[j]@) == node_key(nodes@[j]),
        decreases nodes.len() - i,
    {
        keys.push(nodes[i].key());
        i = i + 1;
    }
    keys
}

proof fn lemma_listed_is_member(nodes: Seq<DependencyNode>, keys: Seq<Vec<KeyAtom>>, k: Seq<AtomView>)
    requires
        keys.len() == nodes.len(),
        forall|j: int| 0 <= j < nodes.len() ==> key_view(#[trigger] keys[j]@) == node_key(nodes[j]),
    ensures
        key_listed(keys_view(keys), k) == is_member_key(nodes, k),
{
    if key_listed(keys_view(keys), k) {
        let i = choose|i: int| 0 <= i < keys_view(keys).len() && #[trigger] keys_view(keys)[i] == k;
        assert(node_key(nodes[i]) == k);
    }
    if is_member_key(nodes, k) {
        let m = choose|m: int| 0 <= m < nodes.len() && node_key(nodes[m]) == k;
        assert(keys_view(keys)[m] == k);
    }
}

/// The view of a query result: the nodes of the whole graph that the result
/// holds, with their identifiers and metrics, the relations of the result,
/// and, for a closure, the components all of whose members it holds.
pub fn dependency_query_view(
    analysis: &DependencyGraphAnalysis,
    result: &crate::query::DependencyGraphQueryResult,
) -> (v: DependencyGraphView)
    requires
        forall|i: int|
            0 <= i < analysis.nodes.len() ==> last_metric_index(
                analysis.metrics@,
                node_key(#[trigger] analysis.nodes@[i]),
                analysis.metrics.len() as int,
            ) is Some,
    ensures
        v.filter.focus_modules.len() == 0,
        v.filter.direction == DependencyDirection::Both,
        v.filter.depth == 1,
        !v.filter.exact_only && !v.filter.local_only && !v.filter.cycles_only,
        v.nodes@.map_values(|vn: DependencyGraphViewNode| node_key(vn.node)) == analysis.nodes@.map_values(
            |n: DependencyNode| node_key(n),
        ).filter(|k: Seq<AtomView>| is_member_key(result.nodes@, k)),
        forall|i: int| 0 <= i < v.nodes.len() ==> view_node_ok(*analysis, #[trigger] v.nodes@[i]),
        v.relations@.map_values(|r: DependencyRelation| relation_view(r)) == result.relations@.map_values(
            |r: DependencyRelation| relation_view(r),
        ),
        match result.query {
            crate::query::DependencyGraphQuery::Closure { .. } => v.strongly_connected_components@.map_values(
                |c: DependencyScc| component_view(c),
            ) == analysis.strongly_connected_components@.filter(|c: DependencyScc| all_members_in(c, result.nodes@)).map_values(
                |c: DependencyScc| component_view(c),
            ),
            crate::query::DependencyGraphQuery::ShortestPath { .. } => v.strongly_connected_components.len() == 0,
        },
{
    let default_filter = DependencyGraphFilter::default();
    let ghost a = *analysis;
    let ghost f = default_filter;
    proof {
        assert forall|i: int| 0 <= i < a.nodes.len() implies kept(a, f, #[trigger] a.nodes@[i]) by {
            lemma_default_filter_keeps_every_node(a, f, i);
        }
        assert forall|q: int| 0 <= q < f.focus_modules.len() implies names_fit(a.nodes@, #[trigger] f.focus_modules@[q]@) by {}
    }
    let full = match filter_dependency_graph(analysis, &default_filter) {
        Ok(view) => view,
        Err(_) => {
            proof {
                assert(false);
            }
            DependencyGraphView {
                filter: DependencyGraphFilter::default(),
                nodes: Vec::new(),
                relations: Vec::new(),
                strongly_connected_components: Vec::new(),
            }
        },
    };
    let ghost all_keys = a.nodes@.map_values(|n: DependencyNode| node_key(n));
    let ghost sel = |k: Seq<AtomView>| is_member_key(result.nodes@, k);
    proof {
        lemma_filter_everything(a.nodes@, |n: DependencyNode| kept(a, f, n));
        assert(full.nodes@.map_values(|vn: DependencyGraphViewNode| node_key(vn.node)) == all_keys);
    }
    let result_keys = node_keys(&result.nodes);
    let mut nodes: Vec<DependencyGraphViewNode> = Vec::new();
    let mut i: usize = 0;
    while i < full.nodes.len()
        invariant
            i <= full.nodes.len(),
            full.nodes@.map_values(|vn: DependencyGraphViewNode| node_key(vn.node)) == all_keys,
            forall|t: int| 0 <= t < full.nodes.len() ==> view_node_ok(a, #[trigger] full.nodes@[t]),
            result_keys.len() == result.nodes.len(),
            forall|j: int| 0 <= j < result.nodes.len() ==> key_view(#[trigger] result_keys@[j]@) == node_key(result.nodes@[j]),
            sel == (|k: Seq<AtomView>| is_member_key(result.nodes@, k)),
            nodes@.map_values(|vn: DependencyGraphViewNode| node_key(vn.node)) == all_keys.take(i as int).filter(sel),
            forall|t: int| 0 <= t < nodes.len() ==> view_node_ok(a, #[trigger] nodes@[t]),
        decreases full.nodes.len() - i,
    {
        let k = full.nodes[i].node.key();
        let keep = contains_key(&result_keys, &k);
        let ghost before = nodes@;
        proof {
            lemma_listed_is_member(result.nodes@, result_keys@, key_view(k@));
            assert(all_keys[i as int] == node_key(full.nodes@[i as int].node));
            assert(all_keys.take(i + 1) =~= all_keys.take(i as int).push(all_keys[i as int]));
            crate::documentation::lemma_filter_push_pub(all_keys.take(i as int), all_keys[i as int], sel);
            assert(key_view(k@) == all_keys[i as int]);
            assert(sel(all_keys[i as int]) == keep);
        }
        if keep {
            let c = copy_view_node(&full.nodes[i]);
            nodes.push(c);
            proof {
                assert(nodes@.map_values(|vn: DependencyGraphViewNode| node_key(vn.node)) =~= before.map_values(
                    |vn: DependencyGraphViewNode| node_key(vn.node),
                ).push(node_key(c.node)));
                assert(view_node_ok(a, full.nodes@[i as int]));
            }
        }
        i = i + 1;
    }
    proof {
        assert(all_keys.take(full.nodes.len() as int) =~= all_keys);
    }
    let mut relations: Vec<DependencyRelation> = Vec::new();
    let mut r: usize = 0;
    while r < result.relations.len()
        invariant
            r <= result.relations.len(),
            relations@.map_values(|x: DependencyRelation| relation_view(x)) == result.relations@.take(r as int).map_values(
                |x: DependencyRelation| relation_view(x),
            ),
        decreases result.relations.len() - r,
    {
        let ghost before = relations@;
        let c = crate::cycles::copy_relation(&result.relations[r]);
        relations.push(c);
        proof {
            assert(relations@.map_values(|x: DependencyRelation| relation_view(x)) =~= before.map_values(
                |x: DependencyRelation| relation_view(x),
            ).push(relation_view(c)));
            assert(result.relations@.take(r + 1) =~= result.relations@.take(r as int).push(result.relations@[r as int]));
            assert(result.relations@.take(r + 1).map_values(|x: DependencyRelation| relation_view(x)) =~= result.relations@.take(
                r as int,
            ).map_values(|x: DependencyRelation| relation_view(x)).push(relation_view(result.relations@[r as int])));
        }
        r = r + 1;
    }
    proof {
        assert(result.relations@.take(result.relations.len() as int) =~= result.relations@);
    }
    let mut components: Vec<DependencyScc> = Vec::new();
    match &result.query {
        crate::query::DependencyGraphQuery::Closure { .. } => {
            let cs = &analysis.strongly_connected_components;
            let ghost pick = |c: DependencyScc| all_members_in(c, result.nodes@);
            let mut ci: usize = 0;
            while ci < cs.len()
                invariant
                    ci <= cs.len(),
                    cs == &analysis.strongly_connected_components,
                    pick == (|c: DependencyScc| all_members_in(c, result.nodes@)),
                    result_keys.len() == result.nodes.len(),
                    forall|j: int| 0 <= j < result.nodes.len() ==> key_view(#[trigger] result_keys@[j]@) == node_key(result.nodes@[j]),
                    components@.map_values(|c: DependencyScc| component_view(c)) == cs@.take(ci as int).filter(pick).map_values(
                        |c: DependencyScc| component_view(c),
                    ),
                decreases cs.len() - ci,
            {
                let comp = &cs[ci];
                let mut all = true;
                let mut m: usize = 0;
                while m < comp.members.len()
                    invariant
                        m <= comp.members.len(),
                        result_keys.len() == result.nodes.len(),
                        forall|j: int| 0 <= j < result.nodes.len() ==> key_view(#[trigger] result_keys@[j]@) == node_key(result.nodes@[j]),
                        all == (forall|x: int| 0 <= x < m ==> is_member_key(result.nodes@, node_key(#[trigger] comp.members@[x]))),
                    decreases comp.members.len() - m,
                {
                    let k = comp.members[m].key();
                    let found = contains_key(&result_keys, &k);
                    proof {
                        lemma_listed_is_member(result.nodes@, result_keys@, key_view(k@));
                    }
                    if !found {
                        all = false;
                    }
                    m = m + 1;
                }
                let ghost before = components@;
                proof {
                    assert(cs@.take(ci + 1) =~= cs@.take(ci as int).push(cs@[ci as int]));
                    crate::documentation::lemma_filter_push_pub(cs@.take(ci as int), cs@[ci as int], pick);
                    assert(pick(cs@[ci as int]) == all);
                }
                if all {
                    let c = crate::graph::copy_scc(comp);
                    components.push(c);
                    proof {
                        assert(c.members@.map_values(|n: DependencyNode| node_key(n)) =~= comp.members@.map_values(
                            |n: DependencyNode| node_key(n),
                        ));
                        assert(components@.map_values(|c: DependencyScc| component_view(c)) =~= before.map_values(
                            |c: DependencyScc| component_view(c),
                        ).push(component_view(c)));
                        assert(cs@.take(ci as int).filter(pick).push(cs@[ci as int]).map_values(|c: DependencyScc| component_view(c))
                            =~= cs@.take(ci as int).filter(pick).map_values(|c: DependencyScc| component_view(c)).push(
                            component_view(cs@[ci as int]),
                        ));
                    }
                }
                ci = ci + 1;
            }
            proof {
                assert(cs@.take(cs.len() as int) =~= cs@);
            }
        },
        crate::query::DependencyGraphQuery::ShortestPath { .. } => {},
    }
    DependencyGraphView { filter: DependencyGraphFilter::default(), nodes, relations, strongly_connected_components: components }
}

} // verus!
