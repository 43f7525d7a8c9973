//! The records of a dependency graph's JSON report: one for each node of a
//! view, with the identity text, name, path and the candidates of an
//! ambiguous import.

use vstd::prelude::*;
use vstd::utf8::encode_utf8;

use crate::analyzer::{copy_opt_string, opt_text};
use crate::dependencies::{DependencyTarget, LocalModule, ModuleId, UnresolvedDependencyReason};
use crate::graph::DependencyNode;
use crate::output::DependencyGraphViewNode;
use crate::report::{path_text, percent_encode_path};
use crate::text::{copy_string, push_text, text_eq};

verus! {

/// A candidate target of an ambiguous import, as the report writes it.
#[derive(Debug)]
pub struct JsonDependencyCandidate {
    pub kind: &'static str,
    pub name: String,
    pub path: Option<String>,
    pub version: Option<String>,
}

/// A node of a dependency view, as the report writes it.
#[derive(Debug)]
pub struct JsonDependencyNode {
    pub id: String,
    pub kind: &'static str,
    pub identity: String,
    pub name: String,
    pub path: Option<String>,
    pub version: Option<String>,
    pub outgoing_dependencies_analyzed: Option<bool>,
    pub unresolved_reason: Option<&'static str>,
    pub candidates: Vec<JsonDependencyCandidate>,
    pub fan_in: usize,
    pub fan_out: usize,
    pub cyclic_component: Option<usize>,
}

/// The text of a path in a report: its UTF-8 bytes, losslessly encoded.
pub open spec fn json_path_text(p: Seq<char>) -> Seq<char> {
    path_text(encode_utf8(p))
}

/// Writes a path as the report does.
pub fn json_path(p: &str) -> (r: String)
    ensures
        r@ == json_path_text(p@),
{
    percent_encode_path(p.as_bytes())
}

pub open spec fn reason_name(r: UnresolvedDependencyReason) -> Seq<char> {
    match r {
        UnresolvedDependencyReason::ModuleNotFound => "module-not-found"@,
        UnresolvedDependencyReason::RelativeImportBeyondRoot => "relative-import-beyond-root"@,
        UnresolvedDependencyReason::MissingPackageContext => "missing-package-context"@,
        UnresolvedDependencyReason::EnvironmentUnavailable => "environment-unavailable"@,
        UnresolvedDependencyReason::BuildContextUnavailable => "build-context-unavailable"@,
        UnresolvedDependencyReason::HeaderNotFound => "header-not-found"@,
        UnresolvedDependencyReason::MacroInclude => "macro-include"@,
        UnresolvedDependencyReason::UnsupportedCompileCommand => "unsupported-compile-command"@,
        UnresolvedDependencyReason::ImplicitSearchPathUnavailable => "implicit-search-path-unavailable"@,
    }
}

/// The view of a candidate record: kind, name, path and version.
pub open spec fn candidate_view(c: JsonDependencyCandidate) -> (Seq<char>, Seq<char>, Option<Seq<char>>, Option<Seq<char>>) {
    (c.kind@, c.name@, opt_text(c.path), opt_text(c.version))
}

/// The record of a candidate target.
pub open spec fn candidate_of(t: DependencyTarget) -> (Seq<char>, Seq<char>, Option<Seq<char>>, Option<Seq<char>>) {
    match t {
        DependencyTarget::LocalModule(m) => ("local-module"@, m.id@.1, Some(json_path_text(m.path@)), None),
        DependencyTarget::StandardLibrary(m) => ("standard-library"@, m@.1, None, None),
        DependencyTarget::InstalledDistribution { distribution_display_name, version, .. } => (
            "installed-distribution"@,
            distribution_display_name@,
            None,
            opt_text(version),
        ),
        DependencyTarget::SystemHeader { name, .. } => ("system-header"@, name@, None, None),
        DependencyTarget::ExternalHeader { name, .. } => ("external-header"@, name@, None, None),
    }
}

/// Writes a candidate target.
pub fn json_candidate(target: &DependencyTarget) -> (r: JsonDependencyCandidate)
    ensures
        candidate_view(r) == candidate_of(*target),
{
    let kind = target.kind().as_str();
    match target {
        DependencyTarget::LocalModule(module) => JsonDependencyCandidate {
            kind,
            name: module.id.qualified_name().to_owned(),
            path: Some(json_path(module.path.as_str())),
            version: None,
        },
        DependencyTarget::StandardLibrary(module) => JsonDependencyCandidate {
            kind,
            name: module.qualified_name().to_owned(),
            path: None,
            version: None,
        },
        DependencyTarget::InstalledDistribution { distribution_display_name, version, .. } => JsonDependencyCandidate {
            kind,
            name: copy_string(distribution_display_name),
            path: None,
            version: copy_opt_string(version),
        },
        DependencyTarget::SystemHeader { name, .. } => JsonDependencyCandidate {
            kind,
            name: copy_string(name),
            path: None,
            version: None,
        },
        DependencyTarget::ExternalHeader { name, .. } => JsonDependencyCandidate {
            kind,
            name: copy_string(name),
            path: None,
            version: None,
        },
    }
}

fn json_candidates(targets: &Vec<DependencyTarget>) -> (r: Vec<JsonDependencyCandidate>)
    ensures
        r.len() == targets.len(),
        forall|i: int| 0 <= i < r.len() ==> candidate_view(#[trigger] r[i]) == candidate_of(targets[i]),
{
    let mut out: Vec<JsonDependencyCandidate> = Vec::new();
    let mut i: usize = 0;
    while i < targets.len()
        invariant
            i <= targets.len(),
            out.len() == i,
            forall|j: int| 0 <= j < i ==> candidate_view(#[trigger] out[j]) == candidate_of(targets[j]),
        decreases targets.len() - i,
    {
        out.push(json_candidate(&targets[i]));
        i = i + 1;
    }
    out
}

/// The identity text of a node.
pub open spec fn node_identity(n: DependencyNode) -> Seq<char> {
    match n {
        DependencyNode::LocalModule(m) => m.id@.0 + ":"@ + m.id@.1 + "@"@ + json_path_text(m.path@),
        DependencyNode::StandardLibrary(m) => m@.0 + ":stdlib:"@ + m@.1,
        DependencyNode::InstalledDistribution { language, distribution_name, .. } => language@ + ":distribution:"@
            + distribution_name@,
        DependencyNode::SystemHeader { language, name } => language@ + ":system-header:"@ + name@,
        DependencyNode::ExternalHeader { language, name } => language@ + ":external-header:"@ + name@,
        DependencyNode::Ambiguous { source_module, requested, .. } => source_module@.0 + ":ambiguous:"@
            + source_module@.1 + ":"@ + requested@,
        DependencyNode::Unresolved { source_module, requested, reason } => source_module@.0 + ":unresolved:"@
            + source_module@.1 + ":"@ + requested@ + ":"@ + reason_name(reason),
        DependencyNode::ContextDependent { source_module, requested, .. } => source_module@.0
            + ":context-dependent:"@ + source_module@.1 + ":"@ + requested@,
    }
}

/// The name of a node.
pub open spec fn node_name(n: DependencyNode) -> Seq<char> {
    match n {
        DependencyNode::LocalModule(m) => m.id@.1,
        DependencyNode::StandardLibrary(m) => m@.1,
        DependencyNode::InstalledDistribution { distribution_display_name, .. } => distribution_display_name@,
        DependencyNode::SystemHeader { name, .. } => name@,
        DependencyNode::ExternalHeader { name, .. } => name@,
        DependencyNode::Ambiguous { requested, .. } => requested@,
        DependencyNode::Unresolved { requested, .. } => requested@,
        DependencyNode::ContextDependent { requested, .. } => requested@,
    }
}

/// The kind of a node; a local module of C++ is a local file.
pub open spec fn node_kind_name(n: DependencyNode) -> Seq<char> {
    match n {
        DependencyNode::LocalModule(m) => if m.id@.0 == "cpp"@ {
            "local-file"@
        } else {
            "local-module"@
        },
        DependencyNode::StandardLibrary(_) => "standard-library"@,
        DependencyNode::InstalledDistribution { .. } => "installed-distribution"@,
        DependencyNode::SystemHeader { .. } => "system-header"@,
        DependencyNode::ExternalHeader { .. } => "external-header"@,
        DependencyNode::Ambiguous { .. } => "ambiguous"@,
        DependencyNode::Unresolved { .. } => "unresolved"@,
        DependencyNode::ContextDependent { .. } => "context-dependent"@,
    }
}

/// The reason a node is unresolved: its own, or the first of a
/// context-dependent node's.
pub open spec fn node_reason(n: DependencyNode) -> Option<Seq<char>> {
    match n {
        DependencyNode::Unresolved { reason, .. } => Some(reason_name(reason)),
        DependencyNode::ContextDependent { unresolved_reasons, .. } => if unresolved_reasons.len() > 0 {
            Some(reason_name(unresolved_reasons[0]))
        } else {
            None
        },
        _ => None,
    }
}

/// The candidate targets of a node.
pub open spec fn node_candidates(n: DependencyNode) -> Seq<DependencyTarget> {
    match n {
        DependencyNode::Ambiguous { candidates, .. } => candidates@,
        DependencyNode::ContextDependent { candidates, .. } => candidates@,
        _ => Seq::empty(),
    }
}

pub open spec fn opt_static(o: Option<&'static str>) -> Option<Seq<char>> {
    match o {
        Some(s) => Some(s@),
        None => None,
    }
}

/// Whether `r` is the record of the view node `v`.
pub open spec fn is_json_node(r: JsonDependencyNode, v: DependencyGraphViewNode) -> bool {
    &&& r.id@ == v.id@
    &&& r.kind@ == node_kind_name(v.node)
    &&& r.identity@ == node_identity(v.node)
    &&& r.name@ == node_name(v.node)
    &&& opt_text(r.path) == match v.node {
        DependencyNode::LocalModule(m) => Some(json_path_text(m.path@)),
        _ => None,
    }
    &&& opt_text(r.version) == match v.node {
        DependencyNode::InstalledDistribution { version, .. } => opt_text(version),
        _ => None,
    }
    &&& r.outgoing_dependencies_analyzed == match v.node {
        DependencyNode::LocalModule(m) => Some(m.outgoing_dependencies_analyzed),
        _ => None,
    }
    &&& opt_static(r.unresolved_reason) == node_reason(v.node)
    &&& r.candidates.len() == node_candidates(v.node).len()
    &&& forall|i: int| 0 <= i < r.candidates.len() ==> candidate_view(#[trigger] r.candidates[i]) == candidate_of(node_candidates(v.node)[i])
    &&& r.fan_in == v.fan_in
    &&& r.fan_out == v.fan_out
    &&& r.cyclic_component == v.cyclic_component
}

fn identity3(a: &str, sep: &str, b: &str) -> (r: String)
    ensures
        r@ == a@ + sep@ + b@,
{
    let mut s = String::new();
    push_text(&mut s, a);
    push_text(&mut s, sep);
    push_text(&mut s, b);
    s
}

/// Writes the record of a node of a dependency view.
pub fn json_node(node: &DependencyGraphViewNode) -> (r: JsonDependencyNode)
    ensures
        is_json_node(r, *node),
{
    proof {
        reveal_strlit("cpp");
    }
    let mut kind = node.node.kind().as_str();
    let mut path: Option<String> = None;
    let mut version: Option<String> = None;
    let mut outgoing: Option<bool> = None;
    let mut reason: Option<&'static str> = None;
    let mut candidates: Vec<JsonDependencyCandidate> = Vec::new();
    let identity: String;
    let name: String;
    match &node.node {
        DependencyNode::LocalModule(module) => {
            let p = json_path(module.path.as_str());
            let mut s = identity3(module.id.language().as_str(), ":", module.id.qualified_name());
            push_text(&mut s, "@");
            push_text(&mut s, p.as_str());
            identity = s;
            name = module.id.qualified_name().to_owned();
            path = Some(p);
            outgoing = Some(module.outgoing_dependencies_analyzed);
            if text_eq(module.id.language().as_str(), "cpp") {
                kind = "local-file";
            }
        },
        DependencyNode::StandardLibrary(module) => {
            identity = identity3(module.language().as_str(), ":stdlib:", module.qualified_name());
            name = module.qualified_name().to_owned();
        },
        DependencyNode::InstalledDistribution { language, distribution_name, distribution_display_name, version: v } => {
            identity = identity3(language.as_str(), ":distribution:", distribution_name.as_str());
            name = copy_string(distribution_display_name);
            version = copy_opt_string(v);
        },
        DependencyNode::SystemHeader { language, name: n } => {
            identity = identity3(language.as_str(), ":system-header:", n.as_str());
            name = copy_string(n);
        },
        DependencyNode::ExternalHeader { language, name: n } => {
            identity = identity3(language.as_str(), ":external-header:", n.as_str());
            name = copy_string(n);
        },
        DependencyNode::Ambiguous { source_module, requested, candidates: cs } => {
            let mut s = identity3(source_module.language().as_str(), ":ambiguous:", source_module.qualified_name());
            push_text(&mut s, ":");
            push_text(&mut s, requested.as_str());
            identity = s;
            name = copy_string(requested);
            candidates = json_candidates(cs);
        },
        DependencyNode::Unresolved { source_module, requested, reason: why } => {
            let mut s = identity3(source_module.language().as_str(), ":unresolved:", source_module.qualified_name());
            push_text(&mut s, ":");
            push_text(&mut s, requested.as_str());
            push_text(&mut s, ":");
            push_text(&mut s, why.as_str());
            identity = s;
            name = copy_string(requested);
            reason = Some(why.as_str());
        },
        DependencyNode::ContextDependent { source_module, requested, candidates: cs, unresolved_reasons } => {
            let mut s = identity3(
                source_module.language().as_str(),
                ":context-dependent:",
                source_module.qualified_name(),
            );
            push_text(&mut s, ":");
            push_text(&mut s, requested.as_str());
            identity = s;
            name = copy_string(requested);
            candidates = json_candidates(cs);
            if unresolved_reasons.len() > 0 {
                reason = Some(unresolved_reasons[0].as_str());
            }
        },
    }
    JsonDependencyNode {
        id: copy_string(&node.id),
        kind,
        identity,
        name,
        path,
        version,
        outgoing_dependencies_analyzed: outgoing,
        unresolved_reason: reason,
        candidates,
        fan_in: node.fan_in,
        fan_out: node.fan_out,
        cyclic_component: node.cyclic_component,
    }
}

} // verus!

verus! {

/// A query as the report writes it, with the local modules of its answer in
/// order.
#[derive(Debug)]
pub struct JsonDependencyQuery {
    pub kind: &'static str,
    pub from: Option<String>,
    pub to: Option<String>,
    pub unit: Option<String>,
    pub direction: Option<&'static str>,
    pub found: bool,
    pub ordered_units: Vec<String>,
}

/// The qualified names of the local modules among `nodes`, in order.
pub open spec fn local_units(nodes: Seq<DependencyNode>) -> Seq<Seq<char>>
    decreases nodes.len(),
{
    if nodes.len() == 0 {
        Seq::empty()
    } else {
        local_units(nodes.drop_last()) + match nodes.last() {
            DependencyNode::LocalModule(m) => seq![m.id@.1],
            _ => Seq::<Seq<char>>::empty(),
        }
    }
}

/// Whether `r` is the record of the query answer `q`.
pub open spec fn is_json_query(r: JsonDependencyQuery, q: crate::query::DependencyGraphQueryResult) -> bool {
    &&& r.found == q.found
    &&& r.ordered_units@.map_values(|s: String| s@) == local_units(q.nodes@)
    &&& match q.query {
        crate::query::DependencyGraphQuery::ShortestPath { from, to } => {
            &&& r.kind@ == "shortest-path"@
            &&& opt_text(r.from) == Some(from@)
            &&& opt_text(r.to) == Some(to@)
            &&& r.unit is None
            &&& r.direction is None
        },
        crate::query::DependencyGraphQuery::Closure { module, direction } => {
            &&& r.kind@ == "closure"@
            &&& r.from is None
            &&& r.to is None
            &&& opt_text(r.unit) == Some(module@)
            &&& opt_static(r.direction) == Some(match direction {
                crate::query::DependencyQueryDirection::Dependencies => "dependencies"@,
                crate::query::DependencyQueryDirection::Dependents => "dependents"@,
            })
        },
    }
}

/// Writes a query answer.
pub fn json_query(result: &crate::query::DependencyGraphQueryResult) -> (r: JsonDependencyQuery)
    ensures
        is_json_query(r, *result),
{
    let mut units: Vec<String> = Vec::new();
    let mut i: usize = 0;
    while i < result.nodes.len()
        invariant
            i <= result.nodes.len(),
            units@.map_values(|s: String| s@) == local_units(result.nodes@.take(i as int)),
        decreases result.nodes.len() - i,
    {
        let ghost before = units@;
        match &result.nodes[i] {
            DependencyNode::LocalModule(module) => {
                units.push(module.id.qualified_name().to_owned());
            },
            _ => {},
        }
        proof {
            let t = result.nodes@.take(i + 1);
            assert(t.drop_last() =~= result.nodes@.take(i as int));
            assert(t.last() == result.nodes@[i as int]);
            assert(units@.map_values(|s: String| s@) =~= local_units(t));
        }
        i = i + 1;
    }
    proof {
        assert(result.nodes@.take(result.nodes.len() as int) =~= result.nodes@);
    }
    match &result.query {
        crate::query::DependencyGraphQuery::ShortestPath { from, to } => JsonDependencyQuery {
            kind: "shortest-path",
            from: Some(copy_string(from)),
            to: Some(copy_string(to)),
            unit: None,
            direction: None,
            found: result.found,
            ordered_units: units,
        },
        crate::query::DependencyGraphQuery::Closure { module, direction } => JsonDependencyQuery {
            kind: "closure",
            from: None,
            to: None,
            unit: Some(copy_string(module)),
            direction: Some(
                match direction {
                    crate::query::DependencyQueryDirection::Dependencies => "dependencies",
                    crate::query::DependencyQueryDirection::Dependents => "dependents",
                },
            ),
            found: result.found,
            ordered_units: units,
        },
    }
}

} // verus!

verus! {

/// One import behind a relation, as the report writes it.
#[derive(Debug)]
pub struct JsonDependencyEvidence {
    pub source_path: String,
    pub module: Option<String>,
    pub imported_name: Option<String>,
    pub relative_level: usize,
    pub line: usize,
    pub column: usize,
    pub scope: &'static str,
    pub usage: &'static str,
    pub requirement: &'static str,
    pub conditional: bool,
}

/// A relation of a view, with the ids of its ends, as the report writes it.
#[derive(Debug)]
pub struct JsonDependencyRelation {
    pub source: String,
    pub target: String,
    pub kind: &'static str,
    pub inference_basis: Option<&'static str>,
    pub evidence: Vec<JsonDependencyEvidence>,
}

pub open spec fn scope_name(s: crate::analyzer::ImportScope) -> Seq<char> {
    match s {
        crate::analyzer::ImportScope::Module => "module"@,
        crate::analyzer::ImportScope::Class => "class"@,
        crate::analyzer::ImportScope::Callable => "callable"@,
    }
}

pub open spec fn usage_name(u: crate::analyzer::ImportUsage) -> Seq<char> {
    match u {
        crate::analyzer::ImportUsage::Runtime => "runtime"@,
        crate::analyzer::ImportUsage::TypeCheckingOnly => "type-checking-only"@,
    }
}

pub open spec fn requirement_name(r: crate::analyzer::ImportRequirement) -> Seq<char> {
    match r {
        crate::analyzer::ImportRequirement::Required => "required"@,
        crate::analyzer::ImportRequirement::Optional => "optional"@,
    }
}

pub open spec fn relation_kind_name(k: crate::graph::DependencyRelationKind) -> Seq<char> {
    match k {
        crate::graph::DependencyRelationKind::Exact => "exact"@,
        crate::graph::DependencyRelationKind::Inferred => "inferred"@,
        crate::graph::DependencyRelationKind::Ambiguous => "ambiguous"@,
        crate::graph::DependencyRelationKind::Unresolved => "unresolved"@,
        crate::graph::DependencyRelationKind::ContextDependent => "context-dependent"@,
    }
}

/// Whether `r` is the record of the evidence `e`.
pub open spec fn is_json_evidence(r: JsonDependencyEvidence, e: crate::graph::GraphEvidence) -> bool {
    &&& r.source_path@ == json_path_text(e.source_path@)
    &&& opt_text(r.module) == opt_text(e.reference.module)
    &&& opt_text(r.imported_name) == opt_text(e.reference.imported_name)
    &&& r.relative_level == e.reference.relative_level
    &&& r.line == e.reference.span.start.line
    &&& r.column == e.reference.span.start.column
    &&& r.scope@ == scope_name(e.reference.context.scope)
    &&& r.usage@ == usage_name(e.reference.context.usage)
    &&& r.requirement@ == requirement_name(e.reference.context.requirement)
    &&& r.conditional == e.reference.context.conditional
}

/// Writes one piece of evidence.
pub fn json_evidence(e: &crate::graph::GraphEvidence) -> (r: JsonDependencyEvidence)
    ensures
        is_json_evidence(r, *e),
{
    JsonDependencyEvidence {
        source_path: json_path(e.source_path.as_str()),
        module: copy_opt_string(&e.reference.module),
        imported_name: copy_opt_string(&e.reference.imported_name),
        relative_level: e.reference.relative_level,
        line: e.reference.span.start.line,
        column: e.reference.span.start.column,
        scope: e.reference.context.scope.as_str(),
        usage: e.reference.context.usage.as_str(),
        requirement: e.reference.context.requirement.as_str(),
        conditional: e.reference.context.conditional,
    }
}

/// `i` is the first node of the view with the key of `n`.
pub open spec fn first_view_node(nodes: Seq<DependencyGraphViewNode>, n: DependencyNode, i: int) -> bool {
    &&& 0 <= i < nodes.len()
    &&& crate::graph::node_key(nodes[i].node) == crate::graph::node_key(n)
    &&& forall|j: int| 0 <= j < i ==> crate::graph::node_key((#[trigger] nodes[j]).node) != crate::graph::node_key(n)
}

/// The view lists a node with the key of `n`.
pub open spec fn view_lists(nodes: Seq<DependencyGraphViewNode>, n: DependencyNode) -> bool {
    exists|i: int| 0 <= i < nodes.len() && crate::graph::node_key((#[trigger] nodes[i]).node) == crate::graph::node_key(n)
}

/// The id of the view's node for `n`.
fn view_id(nodes: &Vec<DependencyGraphViewNode>, n: &DependencyNode) -> (r: String)
    requires
        view_lists(nodes@, *n),
    ensures
        exists|i: int| first_view_node(nodes@, *n, i) && r@ == nodes@[i].id@,
{
    let key = n.key();
    let mut i: usize = 0;
    while i < nodes.len()
        invariant
            i <= nodes.len(),
            crate::order::key_view(key@) == crate::graph::node_key(*n),
            view_lists(nodes@, *n),
            forall|j: int| 0 <= j < i ==> crate::graph::node_key((#[trigger] nodes@[j]).node) != crate::graph::node_key(*n),
        decreases nodes.len() - i,
    {
        let k = nodes[i].node.key();
        let c = crate::order::compare_keys(&k, &key);
        proof {
            crate::order::lemma_key_facts(crate::graph::node_key(nodes@[i as int].node), crate::graph::node_key(*n));
        }
        if c == 0 {
            let r = copy_string(&nodes[i].id);
            proof {
                assert(first_view_node(nodes@, *n, i as int));
            }
            return r;
        }
        i = i + 1;
    }
    proof {
        let i = choose|i: int| 0 <= i < nodes.len() && crate::graph::node_key((#[trigger] nodes[i]).node) == crate::graph::node_key(*n);
        assert(crate::graph::node_key(nodes@[i].node) != crate::graph::node_key(*n));
    }
    String::new()
}

/// Whether `r` is the record of the relation `rel` among the view's nodes.
pub open spec fn is_json_relation(r: JsonDependencyRelation, rel: crate::graph::DependencyRelation, nodes: Seq<DependencyGraphViewNode>) -> bool {
    &&& exists|i: int| first_view_node(nodes, rel.source, i) && r.source@ == nodes[i].id@
    &&& exists|i: int| first_view_node(nodes, rel.target, i) && r.target@ == nodes[i].id@
    &&& r.kind@ == relation_kind_name(rel.kind)
    &&& opt_static(r.inference_basis) == if rel.kind == crate::graph::DependencyRelationKind::Inferred {
        Some("unique-repository-suffix"@)
    } else {
        None
    }
    &&& r.evidence.len() == rel.evidence.len()
    &&& forall|i: int| 0 <= i < r.evidence.len() ==> is_json_evidence(#[trigger] r.evidence[i], rel.evidence[i])
}

/// Writes a relation of a view; both its ends must be nodes of the view.
pub fn json_relation(relation: &crate::graph::DependencyRelation, nodes: &Vec<DependencyGraphViewNode>) -> (r: JsonDependencyRelation)
    requires
        view_lists(nodes@, relation.source),
        view_lists(nodes@, relation.target),
    ensures
        is_json_relation(r, *relation, nodes@),
{
    let mut evidence: Vec<JsonDependencyEvidence> = Vec::new();
    let mut i: usize = 0;
    while i < relation.evidence.len()
        invariant
            i <= relation.evidence.len(),
            evidence.len() == i,
            forall|j: int| 0 <= j < i ==> is_json_evidence(#[trigger] evidence[j], relation.evidence[j]),
        decreases relation.evidence.len() - i,
    {
        evidence.push(json_evidence(&relation.evidence[i]));
        i = i + 1;
    }
    let inferred = match relation.kind {
        crate::graph::DependencyRelationKind::Inferred => true,
        _ => false,
    };
    JsonDependencyRelation {
        source: view_id(nodes, &relation.source),
        target: view_id(nodes, &relation.target),
        kind: relation.kind.as_str(),
        inference_basis: if inferred {
            Some("unique-repository-suffix")
        } else {
            None
        },
        evidence,
    }
}

} // verus!
