//! The JSON report of a dependency graph: the definitions it follows, the
//! coverage of the resolutions, the view with its nodes and relations, its
//! components, the answer to a query and the explanations of the cycles that
//! lie wholly in the view.

use vstd::prelude::*;

use crate::analyzer::{copy_opt_string, opt_text};
use crate::cycles::{explain_dependency_cycles, is_explanation, total_weight, DependencyCycleExplanation};
use crate::dependencies::DependencyGraphInputExclusions;
use crate::graph::{node_key, DependencyGraphAnalysis, DependencyGraphCoverage, DependencyNode, DependencyRelation, DependencyScc};
use crate::json_output::{
    first_view_node, is_json_node, is_json_query, is_json_relation, json_node, json_query, json_relation, view_lists,
    JsonDependencyNode, JsonDependencyQuery, JsonDependencyRelation,
};
use crate::output::{DependencyGraphView, DependencyGraphViewNode};
use crate::text::copy_string;

verus! {

/// The Python environment the resolutions came from, as the report writes it.
#[derive(Debug)]
pub struct DependencyEnvironmentReport {
    pub selection: String,
    pub implementation: String,
    pub python_version: String,
    pub virtual_environment: bool,
    pub distribution_count: usize,
}

#[derive(Debug)]
pub struct DependencyJsonTool {
    pub name: &'static str,
    pub version: String,
}

#[derive(Debug)]
pub struct DependencyDefinitionVersions {
    pub graph: &'static str,
    pub fan_in: &'static str,
    pub fan_out: &'static str,
    pub strongly_connected_components: &'static str,
    pub cycles: &'static str,
    pub cycle_explanations: &'static str,
}

#[derive(Debug)]
pub struct JsonDependencyCoverage {
    pub total_references: usize,
    pub exact_references: usize,
    pub inferred_references: usize,
    pub ambiguous_references: usize,
    pub unresolved_references: usize,
    pub context_dependent_references: usize,
}

#[derive(Debug)]
pub struct JsonDependencyInputExclusions {
    pub type_only: bool,
    pub optional: bool,
    pub callable_local: bool,
    pub conditional: bool,
}

#[derive(Debug)]
pub struct JsonDependencyView {
    pub focus: Vec<String>,
    pub direction: &'static str,
    pub depth: usize,
    pub exact_only: bool,
    pub local_only: bool,
    pub cycles_only: bool,
    pub node_count: usize,
    pub relation_count: usize,
}

#[derive(Debug)]
pub struct JsonDependencyScc {
    pub cyclic: bool,
    pub members: Vec<String>,
}

#[derive(Debug)]
pub struct JsonDependencyCycleExplanation {
    pub component: usize,
    pub members: Vec<String>,
    pub witness_nodes: Vec<String>,
    pub witness_relations: Vec<JsonDependencyRelation>,
    pub recommended_cuts: Vec<JsonDependencyRelation>,
}

/// The JSON report of a dependency graph.
#[derive(Debug)]
pub struct DependencyJsonReport {
    pub report_schema_version: &'static str,
    pub tool: DependencyJsonTool,
    pub definitions: DependencyDefinitionVersions,
    pub environment: Option<DependencyEnvironmentReport>,
    pub coverage: JsonDependencyCoverage,
    pub input_exclusions: JsonDependencyInputExclusions,
    pub view: JsonDependencyView,
    pub query: Option<JsonDependencyQuery>,
    pub nodes: Vec<JsonDependencyNode>,
    pub relations: Vec<JsonDependencyRelation>,
    pub strongly_connected_components: Vec<JsonDependencyScc>,
    pub cycle_explanations: Vec<JsonDependencyCycleExplanation>,
}

/// The ids of the view's nodes for those of `members` that the view lists,
/// in order.
pub open spec fn view_ids(nodes: Seq<DependencyGraphViewNode>, members: Seq<DependencyNode>) -> Seq<Seq<char>>
    decreases members.len(),
{
    if members.len() == 0 {
        Seq::empty()
    } else {
        view_ids(nodes, members.drop_last()) + if view_lists(nodes, members.last()) {
            seq![nodes[choose|i: int| first_view_node(nodes, members.last(), i)].id@]
        } else {
            Seq::<Seq<char>>::empty()
        }
    }
}

proof fn lemma_first_view_node_unique(nodes: Seq<DependencyGraphViewNode>, n: DependencyNode, i: int, j: int)
    requires
        first_view_node(nodes, n, i),
        first_view_node(nodes, n, j),
    ensures
        i == j,
{
    if i < j {
        assert(node_key(nodes[i].node) != node_key(n));
    } else if j < i {
        assert(node_key(nodes[j].node) != node_key(n));
    }
}

/// The id of the view's node for `n`, if the view lists it.
fn find_view_id(nodes: &Vec<DependencyGraphViewNode>, n: &DependencyNode) -> (r: Option<String>)
    ensures
        match r {
            Some(s) => view_lists(nodes@, *n) && s@ == nodes@[choose|i: int| first_view_node(nodes@, *n, i)].id@,
            None => !view_lists(nodes@, *n),
        },
{
    let key = n.key();
    let mut i: usize = 0;
    while i < nodes.len()
        invariant
            i <= nodes.len(),
            crate::order::key_view(key@) == node_key(*n),
            forall|j: int| 0 <= j < i ==> node_key((#[trigger] nodes@[j]).node) != node_key(*n),
        decreases nodes.len() - i,
    {
        let k = nodes[i].node.key();
        let c = crate::order::compare_keys(&k, &key);
        proof {
            crate::order::lemma_key_facts(node_key(nodes@[i as int].node), node_key(*n));
        }
        if c == 0 {
            let r = copy_string(&nodes[i].id);
            proof {
                assert(first_view_node(nodes@, *n, i as int));
                let c = choose|j: int| first_view_node(nodes@, *n, j);
                lemma_first_view_node_unique(nodes@, *n, i as int, c);
            }
            return Some(r);
        }
        i = i + 1;
    }
    None
}

/// The ids of the listed members, in order.
fn listed_ids(nodes: &Vec<DependencyGraphViewNode>, members: &Vec<DependencyNode>) -> (r: Vec<String>)
    ensures
        r@.map_values(|s: String| s@) == view_ids(nodes@, members@),
{
    let mut out: Vec<String> = Vec::new();
    let mut i: usize = 0;
    while i < members.len()
        invariant
            i <= members.len(),
            out@.map_values(|s: String| s@) == view_ids(nodes@, members@.take(i as int)),
        decreases members.len() - i,
    {
        let ghost before = out@;
        match find_view_id(nodes, &members[i]) {
            Some(s) => {
                out.push(s);
            },
            None => {},
        }
        proof {
            let t = members@.take(i + 1);
            assert(t.drop_last() =~= members@.take(i as int));
            assert(t.last() == members@[i as int]);
            assert(out@.map_values(|s: String| s@) =~= view_ids(nodes@, t));
        }
        i = i + 1;
    }
    proof {
        assert(members@.take(members.len() as int) =~= members@);
    }
    out
}

/// Whether the view lists every member.
pub open spec fn all_listed(nodes: Seq<DependencyGraphViewNode>, members: Seq<DependencyNode>) -> bool {
    forall|m: int| 0 <= m < members.len() ==> view_lists(nodes, #[trigger] members[m])
}

/// Whether the view lists both ends of every relation.
pub open spec fn ends_listed(nodes: Seq<DependencyGraphViewNode>, rels: Seq<DependencyRelation>) -> bool {
    forall|k: int| 0 <= k < rels.len() ==> view_lists(nodes, (#[trigger] rels[k]).source) && view_lists(nodes, rels[k].target)
}

fn all_listed_exec(nodes: &Vec<DependencyGraphViewNode>, members: &Vec<DependencyNode>) -> (r: bool)
    ensures
        r == all_listed(nodes@, members@),
{
    let mut i: usize = 0;
    while i < members.len()
        invariant
            i <= members.len(),
            forall|m: int| 0 <= m < i ==> view_lists(nodes@, #[trigger] members@[m]),
        decreases members.len() - i,
    {
        if find_view_id(nodes, &members[i]).is_none() {
            return false;
        }
        i = i + 1;
    }
    true
}

fn ends_listed_exec(nodes: &Vec<DependencyGraphViewNode>, rels: &Vec<DependencyRelation>) -> (r: bool)
    ensures
        r == ends_listed(nodes@, rels@),
{
    let mut i: usize = 0;
    while i < rels.len()
        invariant
            i <= rels.len(),
            forall|k: int| 0 <= k < i ==> view_lists(nodes@, (#[trigger] rels@[k]).source) && view_lists(nodes@, rels@[k].target),
        decreases rels.len() - i,
    {
        if find_view_id(nodes, &rels[i].source).is_none() || find_view_id(nodes, &rels[i].target).is_none() {
            return false;
        }
        i = i + 1;
    }
    true
}

fn relations_record(rels: &Vec<DependencyRelation>, nodes: &Vec<DependencyGraphViewNode>) -> (r: Vec<JsonDependencyRelation>)
    requires
        ends_listed(nodes@, rels@),
    ensures
        r.len() == rels.len(),
        forall|k: int| 0 <= k < r.len() ==> is_json_relation(#[trigger] r[k], rels@[k], nodes@),
{
    let mut out: Vec<JsonDependencyRelation> = Vec::new();
    let mut i: usize = 0;
    while i < rels.len()
        invariant
            i <= rels.len(),
            ends_listed(nodes@, rels@),
            out.len() == i,
            forall|k: int| 0 <= k < i ==> is_json_relation(#[trigger] out[k], rels@[k], nodes@),
        decreases rels.len() - i,
    {
        proof {
            assert(view_lists(nodes@, rels@[i as int].source) && view_lists(nodes@, rels@[i as int].target));
        }
        out.push(json_relation(&rels[i], nodes));
        i = i + 1;
    }
    out
}

/// Whether `r` is the record of the explanation `e` among the view's nodes.
pub open spec fn is_explanation_record(r: JsonDependencyCycleExplanation, e: DependencyCycleExplanation, nodes: Seq<DependencyGraphViewNode>) -> bool {
    &&& r.component == e.component_number
    &&& r.members@.map_values(|s: String| s@) == view_ids(nodes, e.members@)
    &&& r.witness_nodes@.map_values(|s: String| s@) == view_ids(nodes, e.witness_nodes@)
    &&& r.witness_relations.len() == e.witness_relations.len()
    &&& forall|k: int| 0 <= k < r.witness_relations.len() ==> is_json_relation(#[trigger] r.witness_relations[k], e.witness_relations@[k], nodes)
    &&& r.recommended_cuts.len() == e.recommended_cuts.len()
    &&& forall|k: int| 0 <= k < r.recommended_cuts.len() ==> is_json_relation(#[trigger] r.recommended_cuts[k], e.recommended_cuts@[k], nodes)
}

/// Whether the report keeps an explanation: the view lists all its members
/// and the ends of all its relations.
pub open spec fn keeps_explanation(e: DependencyCycleExplanation, nodes: Seq<DependencyGraphViewNode>) -> bool {
    &&& all_listed(nodes, e.members@)
    &&& ends_listed(nodes, e.witness_relations@)
    &&& ends_listed(nodes, e.recommended_cuts@)
}

/// The explanations the report keeps, in order.
pub open spec fn kept_explanations(es: Seq<DependencyCycleExplanation>, nodes: Seq<DependencyGraphViewNode>) -> Seq<DependencyCycleExplanation>
    decreases es.len(),
{
    if es.len() == 0 {
        Seq::empty()
    } else {
        kept_explanations(es.drop_last(), nodes) + if keeps_explanation(es.last(), nodes) {
            seq![es.last()]
        } else {
            Seq::<DependencyCycleExplanation>::empty()
        }
    }
}

fn explanation_records(es: &Vec<DependencyCycleExplanation>, nodes: &Vec<DependencyGraphViewNode>) -> (r: Vec<JsonDependencyCycleExplanation>)
    ensures
        r.len() == kept_explanations(es@, nodes@).len(),
        forall|k: int| 0 <= k < r.len() ==> is_explanation_record(#[trigger] r[k], kept_explanations(es@, nodes@)[k], nodes@),
{
    let mut out: Vec<JsonDependencyCycleExplanation> = Vec::new();
    let mut i: usize = 0;
    while i < es.len()
        invariant
            i <= es.len(),
            out.len() == kept_explanations(es@.take(i as int), nodes@).len(),
            forall|k: int| 0 <= k < out.len() ==> is_explanation_record(#[trigger] out[k], kept_explanations(es@.take(i as int), nodes@)[k], nodes@),
        decreases es.len() - i,
    {
        let e = &es[i];
        let ghost before = out@;
        let ghost kb = kept_explanations(es@.take(i as int), nodes@);
        let keep = all_listed_exec(nodes, &e.members) && ends_listed_exec(nodes, &e.witness_relations) && ends_listed_exec(
            nodes,
            &e.recommended_cuts,
        );
        if keep {
            let record = JsonDependencyCycleExplanation {
                component: e.component_number,
                members: listed_ids(nodes, &e.members),
                witness_nodes: listed_ids(nodes, &e.witness_nodes),
                witness_relations: relations_record(&e.witness_relations, nodes),
                recommended_cuts: relations_record(&e.recommended_cuts, nodes),
            };
            out.push(record);
        }
        proof {
            let t = es@.take(i + 1);
            assert(t.drop_last() =~= es@.take(i as int));
            assert(t.last() == es@[i as int]);
            let kn = kept_explanations(t, nodes@);
            assert forall|k: int| 0 <= k < out.len() implies is_explanation_record(#[trigger] out[k], kn[k], nodes@) by {
                if k < before.len() {
                    assert(out[k] == before[k]);
                    assert(kn[k] == kb[k]);
                }
            }
        }
        i = i + 1;
    }
    proof {
        assert(es@.take(es.len() as int) =~= es@);
    }
    out
}

} // verus!

verus! {

/// Whether `r` is the record of the component `c`.
pub open spec fn is_scc_record(r: JsonDependencyScc, c: DependencyScc, nodes: Seq<DependencyGraphViewNode>) -> bool {
    &&& r.cyclic == c.cyclic
    &&& r.members@.map_values(|s: String| s@) == view_ids(nodes, c.members@)
}

/// Whether `r` records the view `v` with its filter.
pub open spec fn is_view_record(r: JsonDependencyView, v: DependencyGraphView) -> bool {
    &&& r.focus@.map_values(|s: String| s@) == v.filter.focus_modules@.map_values(|s: String| s@)
    &&& r.direction@ == match v.filter.direction {
        crate::output::DependencyDirection::Dependencies => "dependencies"@,
        crate::output::DependencyDirection::Dependents => "dependents"@,
        crate::output::DependencyDirection::Both => "both"@,
    }
    &&& r.depth == v.filter.depth
    &&& r.exact_only == v.filter.exact_only
    &&& r.local_only == v.filter.local_only
    &&& r.cycles_only == v.filter.cycles_only
    &&& r.node_count == v.nodes.len()
    &&& r.relation_count == v.relations.len()
}

fn copy_texts(v: &Vec<String>) -> (r: Vec<String>)
    ensures
        r@.map_values(|s: String| s@) == v@.map_values(|s: String| s@),
{
    let mut out: Vec<String> = Vec::new();
    let mut i: usize = 0;
    while i < v.len()
        invariant
            i <= v.len(),
            out@.map_values(|s: String| s@) == v@.take(i as int).map_values(|s: String| s@),
        decreases v.len() - i,
    {
        let ghost before = out@;
        let c = copy_string(&v[i]);
        out.push(c);
        proof {
            assert(out@.map_values(|s: String| s@) =~= before.map_values(|s: String| s@).push(c@));
            assert(v@.take(i + 1) =~= v@.take(i as int).push(v@[i as int]));
            assert(v@.take(i + 1).map_values(|s: String| s@) =~= v@.take(i as int).map_values(|s: String| s@).push(v@[i as int]@));
        }
        i = i + 1;
    }
    assert(v@.take(v.len() as int) =~= v@);
    out
}

impl DependencyJsonReport {
    /// The report of an analysis seen through a view, with the answer to a
    /// query when there is one. The explanations kept are those of the
    /// cycles whose members, and the ends of whose witness and cut
    /// relations, the view lists.
    pub fn from_analysis_with_query_and_exclusions(
        analysis: &DependencyGraphAnalysis,
        view: &DependencyGraphView,
        environment: Option<DependencyEnvironmentReport>,
        query: Option<&crate::query::DependencyGraphQueryResult>,
        exclusions: DependencyGraphInputExclusions,
        tool_version: &str,
    ) -> (r: DependencyJsonReport)
        requires
            total_weight(analysis.relations@) <= isize::MAX,
            ends_listed(view.nodes@, view.relations@),
        ensures
            r.report_schema_version@ == crate::output::DEPENDENCY_REPORT_SCHEMA_VERSION@,
            r.tool.name@ == "codegraide"@,
            r.tool.version@ == tool_version@,
            r.definitions.graph@ == crate::dependencies::DEPENDENCY_GRAPH_DEFINITION_VERSION@,
            r.definitions.fan_in@ == crate::dependencies::DEPENDENCY_FAN_IN_DEFINITION_VERSION@,
            r.definitions.fan_out@ == crate::dependencies::DEPENDENCY_FAN_OUT_DEFINITION_VERSION@,
            r.definitions.strongly_connected_components@ == crate::dependencies::DEPENDENCY_SCC_DEFINITION_VERSION@,
            r.definitions.cycles@ == crate::dependencies::DEPENDENCY_CYCLE_DEFINITION_VERSION@,
            r.definitions.cycle_explanations@ == crate::cycles::DEPENDENCY_CYCLE_EXPLANATION_DEFINITION_VERSION@,
            r.environment == environment,
            r.coverage == (JsonDependencyCoverage {
                total_references: analysis.coverage.total_references,
                exact_references: analysis.coverage.exact_references,
                inferred_references: analysis.coverage.inferred_references,
                ambiguous_references: analysis.coverage.ambiguous_references,
                unresolved_references: analysis.coverage.unresolved_references,
                context_dependent_references: analysis.coverage.context_dependent_references,
            }),
            r.input_exclusions == (JsonDependencyInputExclusions {
                type_only: exclusions.type_only,
                optional: exclusions.optional,
                callable_local: exclusions.callable_local,
                conditional: exclusions.conditional,
            }),
            is_view_record(r.view, *view),
            match query {
                Some(q) => r.query matches Some(x) && is_json_query(x, *q),
                None => r.query is None,
            },
            r.nodes.len() == view.nodes.len(),
            forall|i: int| 0 <= i < r.nodes.len() ==> is_json_node(#[trigger] r.nodes[i], view.nodes@[i]),
            r.relations.len() == view.relations.len(),
            forall|i: int| 0 <= i < r.relations.len() ==> is_json_relation(#[trigger] r.relations[i], view.relations@[i], view.nodes@),
            r.strongly_connected_components.len() == view.strongly_connected_components.len(),
            forall|i: int|
                0 <= i < r.strongly_connected_components.len() ==> is_scc_record(
                    #[trigger] r.strongly_connected_components[i],
                    view.strongly_connected_components@[i],
                    view.nodes@,
                ),
            exists|es: Seq<DependencyCycleExplanation>|
                es.len() == analysis.cycles.len() && (forall|i: int|
                    0 <= i < es.len() ==> is_explanation(
                        #[trigger] es[i],
                        (i + 1) as usize,
                        analysis.cycles[i].members@,
                        analysis.relations@,
                    )) && r.cycle_explanations.len() == kept_explanations(es, view.nodes@).len() && forall|k: int|
                    0 <= k < r.cycle_explanations.len() ==> is_explanation_record(
                        #[trigger] r.cycle_explanations[k],
                        kept_explanations(es, view.nodes@)[k],
                        view.nodes@,
                    ),
    {
        let mut nodes: Vec<JsonDependencyNode> = Vec::new();
        let mut i: usize = 0;
        while i < view.nodes.len()
            invariant
                i <= view.nodes.len(),
                nodes.len() == i,
                forall|k: int| 0 <= k < i ==> is_json_node(#[trigger] nodes[k], view.nodes@[k]),
            decreases view.nodes.len() - i,
        {
            nodes.push(json_node(&view.nodes[i]));
            i = i + 1;
        }
        let relations = relations_record(&view.relations, &view.nodes);
        let mut sccs: Vec<JsonDependencyScc> = Vec::new();
        let mut i: usize = 0;
        while i < view.strongly_connected_components.len()
            invariant
                i <= view.strongly_connected_components.len(),
                sccs.len() == i,
                forall|k: int|
                    0 <= k < i ==> is_scc_record(#[trigger] sccs[k], view.strongly_connected_components@[k], view.nodes@),
            decreases view.strongly_connected_components.len() - i,
        {
            let c = &view.strongly_connected_components[i];
            sccs.push(JsonDependencyScc { cyclic: c.cyclic, members: listed_ids(&view.nodes, &c.members) });
            i = i + 1;
        }
        let explanations = explain_dependency_cycles(analysis);
        let records = explanation_records(&explanations, &view.nodes);
        let json_q = match query {
            Some(q) => Some(json_query(q)),
            None => None,
        };
        let v = JsonDependencyView {
            focus: copy_texts(&view.filter.focus_modules),
            direction: view.filter.direction.as_str(),
            depth: view.filter.depth,
            exact_only: view.filter.exact_only,
            local_only: view.filter.local_only,
            cycles_only: view.filter.cycles_only,
            node_count: view.nodes.len(),
            relation_count: view.relations.len(),
        };
        let c = analysis.coverage;
        DependencyJsonReport {
            report_schema_version: crate::output::DEPENDENCY_REPORT_SCHEMA_VERSION,
            tool: DependencyJsonTool { name: "codegraide", version: tool_version.to_owned() },
            definitions: DependencyDefinitionVersions {
                graph: crate::dependencies::DEPENDENCY_GRAPH_DEFINITION_VERSION,
                fan_in: crate::dependencies::DEPENDENCY_FAN_IN_DEFINITION_VERSION,
                fan_out: crate::dependencies::DEPENDENCY_FAN_OUT_DEFINITION_VERSION,
                strongly_connected_components: crate::dependencies::DEPENDENCY_SCC_DEFINITION_VERSION,
                cycles: crate::dependencies::DEPENDENCY_CYCLE_DEFINITION_VERSION,
                cycle_explanations: crate::cycles::DEPENDENCY_CYCLE_EXPLANATION_DEFINITION_VERSION,
            },
            environment,
            coverage: JsonDependencyCoverage {
                total_references: c.total_references,
                exact_references: c.exact_references,
                inferred_references: c.inferred_references,
                ambiguous_references: c.ambiguous_references,
                unresolved_references: c.unresolved_references,
                context_dependent_references: c.context_dependent_references,
            },
            input_exclusions: JsonDependencyInputExclusions {
                type_only: exclusions.type_only,
                optional: exclusions.optional,
                callable_local: exclusions.callable_local,
                conditional: exclusions.conditional,
            },
            view: v,
            query: json_q,
            nodes,
            relations,
            strongly_connected_components: sccs,
            cycle_explanations: records,
        }
    }
}

} // verus!
