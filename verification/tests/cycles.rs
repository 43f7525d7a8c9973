use std::collections::{BTreeMap, BTreeSet};

use codegraide::analyzer::{
    DependencyKind, DependencyReference, ImportContext, ResolutionLevel, SourcePosition,
    SourceSpan,
};
use codegraide::cycles::{explain_dependency_cycle, explain_dependency_cycles};
use codegraide::dependencies::{
    DependencyResolutionOutcome, DependencyTarget, LocalModule, ModuleId,
    ProjectDependencyResolution,
};
use codegraide::graph::{analyze_dependency_graph, DependencyNode, DependencyRelation};
use codegraide::report::LanguageId;

fn module(name: &str) -> LocalModule {
    LocalModule::new(ModuleId::new(LanguageId::new("python"), name), &format!("{name}.py"))
}

fn edge(source: &LocalModule, target: &LocalModule, byte: usize) -> ProjectDependencyResolution {
    ProjectDependencyResolution::new(
        &source.path,
        source.id.copy(),
        DependencyReference {
            kind: DependencyKind::Import,
            module: Some(target.id.qualified_name().to_owned()),
            imported_name: None,
            alias: None,
            relative_level: 0,
            wildcard: false,
            resolution: ResolutionLevel::Syntactic,
            enclosing_symbol: None,
            context: ImportContext::default(),
            span: SourceSpan {
                start: SourcePosition {
                    line: byte + 1,
                    column: 0,
                },
                end: SourcePosition {
                    line: byte + 1,
                    column: 1,
                },
                start_byte: byte,
                end_byte: byte + 1,
            },
        },
        DependencyResolutionOutcome::exact(DependencyTarget::LocalModule(target.copy())),
    )
}

fn key(node: &DependencyNode) -> String {
    format!("{node:?}")
}

/// Whether the relations among `members` that are not cut form no cycle.
fn is_acyclic_after_cuts(
    members: &[DependencyNode],
    relations: &[DependencyRelation],
    cuts: &[DependencyRelation],
) -> bool {
    let cut_keys = cuts
        .iter()
        .map(|relation| (key(&relation.source), key(&relation.target)))
        .collect::<BTreeSet<_>>();
    let kept = relations
        .iter()
        .filter(|relation| !cut_keys.contains(&(key(&relation.source), key(&relation.target))))
        .collect::<Vec<_>>();
    let mut adjacency: BTreeMap<String, Vec<String>> = BTreeMap::new();
    for relation in &kept {
        adjacency
            .entry(key(&relation.source))
            .or_default()
            .push(key(&relation.target));
    }
    let mut indegree = members
        .iter()
        .map(|member| (key(member), 0_usize))
        .collect::<BTreeMap<_, _>>();
    for relation in &kept {
        indegree
            .entry(key(&relation.target))
            .and_modify(|value| *value += 1);
    }
    let mut ready = indegree
        .iter()
        .filter(|(_, value)| **value == 0)
        .map(|(node, _)| node.clone())
        .collect::<BTreeSet<_>>();
    let mut visited = 0;
    while let Some(node) = ready.pop_first() {
        visited += 1;
        for target in adjacency.get(&node).into_iter().flatten() {
            if let Some(value) = indegree.get_mut(target) {
                *value -= 1;
                if *value == 0 {
                    ready.insert(target.clone());
                }
            }
        }
    }
    visited == members.len()
}

#[test]
fn chooses_a_short_witness_and_the_lower_weight_cut() {
    let a = module("a");
    let b = module("b");
    let resolutions = vec![edge(&a, &b, 0), edge(&a, &b, 1), edge(&a, &b, 2), edge(&b, &a, 3)];
    let analysis = analyze_dependency_graph(&vec![a, b], &resolutions).expect("graph");
    let explanations = explain_dependency_cycles(&analysis);

    assert_eq!(explanations.len(), 1);
    assert_eq!(explanations[0].witness_nodes.len(), 3);
    assert_eq!(explanations[0].recommended_cuts.len(), 1);
    assert_eq!(explanations[0].recommended_cuts[0].evidence.len(), 1);
    assert!(is_acyclic_after_cuts(
        &explanations[0].members,
        &analysis.relations,
        &explanations[0].recommended_cuts
    ));
}

#[test]
fn explains_self_cycles() {
    let a = module("a");
    let analysis = analyze_dependency_graph(&vec![a.copy()], &vec![edge(&a, &a, 0)]).expect("graph");
    let explanation = explain_dependency_cycles(&analysis).remove(0);
    assert_eq!(explanation.witness_nodes.len(), 2);
    assert_eq!(explanation.witness_relations.len(), 1);
    assert_eq!(explanation.recommended_cuts.len(), 1);
}

#[test]
fn overlapping_loops_are_deterministic_and_the_complete_cut_set_is_acyclic() {
    let a = module("a");
    let b = module("b");
    let c = module("c");
    let mut resolutions = vec![
        edge(&a, &b, 0),
        edge(&b, &a, 1),
        edge(&a, &c, 2),
        edge(&c, &a, 3),
        edge(&b, &c, 4),
    ];
    let analysis =
        analyze_dependency_graph(&vec![a.copy(), b.copy(), c.copy()], &resolutions).expect("graph");
    let first = explain_dependency_cycles(&analysis).remove(0);
    resolutions.reverse();
    let reordered = analyze_dependency_graph(&vec![c, b, a], &resolutions).expect("graph");
    let second = explain_dependency_cycles(&reordered).remove(0);

    assert_eq!(format!("{first:?}"), format!("{second:?}"));
    assert_eq!(
        first
            .witness_nodes
            .iter()
            .map(|node| match node {
                DependencyNode::LocalModule(module) => module.id.qualified_name(),
                _ => unreachable!(),
            })
            .collect::<Vec<_>>(),
        ["a", "b", "a"]
    );
    assert!(is_acyclic_after_cuts(
        &first.members,
        &analysis.relations,
        &first.recommended_cuts
    ));
}

#[test]
fn a_single_component_can_be_explained_by_number() {
    let a = module("a");
    let b = module("b");
    let analysis = analyze_dependency_graph(
        &vec![a.copy(), b.copy()],
        &vec![edge(&a, &b, 0), edge(&b, &a, 1)],
    )
    .expect("graph");
    let explanation = explain_dependency_cycle(7, &analysis.cycles[0], &analysis.relations);
    assert_eq!(explanation.component_number, 7);
    assert_eq!(explanation.members.len(), 2);
    assert_eq!(explanation.witness_relations.len(), explanation.witness_nodes.len() - 1);
    assert_eq!(
        key(&explanation.witness_nodes[0]),
        key(explanation.witness_nodes.last().unwrap())
    );
    assert!(is_acyclic_after_cuts(
        &explanation.members,
        &analysis.relations,
        &explanation.recommended_cuts
    ));
}

#[test]
fn witness_is_the_shortest_loop_from_the_least_member() {
    let a = module("a");
    let b = module("b");
    let c = module("c");
    let resolutions = vec![edge(&a, &b, 0), edge(&b, &c, 1), edge(&c, &a, 2), edge(&c, &b, 3)];
    let analysis = analyze_dependency_graph(&vec![a.copy(), b.copy(), c.copy()], &resolutions).expect("graph");
    let explanation = explain_dependency_cycles(&analysis).remove(0);

    assert_eq!(explanation.members.len(), 3);
    assert_eq!(explanation.witness_nodes.len(), 3);
    assert_eq!(key(&explanation.witness_nodes[0]), key(&explanation.witness_nodes[2]));
    assert_eq!(explanation.witness_relations.len(), 2);
}
