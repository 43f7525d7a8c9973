//! The module dependency graph of a repository: its nodes, its relations with
//! their evidence, fan-in and fan-out, and its strongly connected components.

use vstd::prelude::*;

use crate::analyzer::DependencyReference;
use crate::dependencies::{
    canonical_reasons, canonical_targets, copy_opt_text, local_key, module_key, opt_text_key,
    push_num_atom, push_opt_text_key, push_reasons_key, push_targets_key, push_text_atom,
    reason_rank, reasons_key, sorted_unique_reasons, sorted_unique_targets, targets_key,
    DependencyResolutionOutcome, DependencyTarget, LocalModule, ModuleId,
    ProjectDependencyResolution, UnresolvedDependencyReason,
};
use crate::order::{covers_key, key_compare, key_view, AtomView, KeyAtom};
use crate::report::LanguageId;
use crate::text::{copy_string, push_text};

verus! {

/// A node of the dependency graph.
#[derive(Debug)]
pub enum DependencyNode {
    LocalModule(LocalModule),
    StandardLibrary(ModuleId),
    InstalledDistribution {
        language: LanguageId,
        distribution_name: String,
        distribution_display_name: String,
        version: Option<String>,
    },
    SystemHeader { language: LanguageId, name: String },
    ExternalHeader { language: LanguageId, name: String },
    Ambiguous { source_module: ModuleId, requested: String, candidates: Vec<DependencyTarget> },
    Unresolved { source_module: ModuleId, requested: String, reason: UnresolvedDependencyReason },
    ContextDependent {
        source_module: ModuleId,
        requested: String,
        candidates: Vec<DependencyTarget>,
        unresolved_reasons: Vec<UnresolvedDependencyReason>,
    },
}

/// The order key of a node: variant first, then its fields in order.
pub open spec fn node_key(n: DependencyNode) -> Seq<AtomView> {
    match n {
        DependencyNode::LocalModule(m) => seq![AtomView::Num(0)] + local_key(m),
        DependencyNode::StandardLibrary(m) => seq![AtomView::Num(1)] + module_key(m@),
        DependencyNode::InstalledDistribution {
            language,
            distribution_name,
            distribution_display_name,
            version,
        } => seq![
            AtomView::Num(2),
            AtomView::Text(language@),
            AtomView::Text(distribution_name@),
            AtomView::Text(distribution_display_name@),
        ] + opt_text_key(version),
        DependencyNode::SystemHeader { language, name } => seq![
            AtomView::Num(3),
            AtomView::Text(language@),
            AtomView::Text(name@),
        ],
        DependencyNode::ExternalHeader { language, name } => seq![
            AtomView::Num(4),
            AtomView::Text(language@),
            AtomView::Text(name@),
        ],
        DependencyNode::Ambiguous { source_module, requested, candidates } => seq![AtomView::Num(5)]
            + module_key(source_module@) + seq![AtomView::Text(requested@)] + targets_key(
            candidates@,
        ),
        DependencyNode::Unresolved { source_module, requested, reason } => seq![AtomView::Num(6)]
            + module_key(source_module@) + seq![
            AtomView::Text(requested@),
            AtomView::Num(reason_rank(reason) as int),
        ],
        DependencyNode::ContextDependent {
            source_module,
            requested,
            candidates,
            unresolved_reasons,
        } => seq![AtomView::Num(7)] + module_key(source_module@) + seq![AtomView::Text(requested@)]
            + targets_key(candidates@) + reasons_key(unresolved_reasons@),
    }
}

#[derive(Debug, Clone, Copy, PartialEq, Eq, Structural, PartialOrd, Ord, Hash)]
pub enum DependencyNodeKind {
    LocalModule,
    StandardLibrary,
    InstalledDistribution,
    SystemHeader,
    ExternalHeader,
    Ambiguous,
    Unresolved,
    ContextDependent,
}

impl DependencyNodeKind {
    /// The stable name.
    pub fn as_str(self) -> (r: &'static str)
        ensures
            r@ == match self {
                DependencyNodeKind::LocalModule => "local-module"@,
                DependencyNodeKind::StandardLibrary => "standard-library"@,
                DependencyNodeKind::InstalledDistribution => "installed-distribution"@,
                DependencyNodeKind::SystemHeader => "system-header"@,
                DependencyNodeKind::ExternalHeader => "external-header"@,
                DependencyNodeKind::Ambiguous => "ambiguous"@,
                DependencyNodeKind::Unresolved => "unresolved"@,
                DependencyNodeKind::ContextDependent => "context-dependent"@,
            },
    {
        match self {
            DependencyNodeKind::LocalModule => "local-module",
            DependencyNodeKind::StandardLibrary => "standard-library",
            DependencyNodeKind::InstalledDistribution => "installed-distribution",
            DependencyNodeKind::SystemHeader => "system-header",
            DependencyNodeKind::ExternalHeader => "external-header",
            DependencyNodeKind::Ambiguous => "ambiguous",
            DependencyNodeKind::Unresolved => "unresolved",
            DependencyNodeKind::ContextDependent => "context-dependent",
        }
    }
}

pub open spec fn node_kind(n: DependencyNode) -> DependencyNodeKind {
    match n {
        DependencyNode::LocalModule(_) => DependencyNodeKind::LocalModule,
        DependencyNode::StandardLibrary(_) => DependencyNodeKind::StandardLibrary,
        DependencyNode::InstalledDistribution { .. } => DependencyNodeKind::InstalledDistribution,
        DependencyNode::SystemHeader { .. } => DependencyNodeKind::SystemHeader,
        DependencyNode::ExternalHeader { .. } => DependencyNodeKind::ExternalHeader,
        DependencyNode::Ambiguous { .. } => DependencyNodeKind::Ambiguous,
        DependencyNode::Unresolved { .. } => DependencyNodeKind::Unresolved,
        DependencyNode::ContextDependent { .. } => DependencyNodeKind::ContextDependent,
    }
}

impl DependencyNode {
    pub fn kind(&self) -> (r: DependencyNodeKind)
        ensures
            r == node_kind(*self),
    {
        match self {
            DependencyNode::LocalModule(_) => DependencyNodeKind::LocalModule,
            DependencyNode::StandardLibrary(_) => DependencyNodeKind::StandardLibrary,
            DependencyNode::InstalledDistribution { .. } => DependencyNodeKind::InstalledDistribution,
            DependencyNode::SystemHeader { .. } => DependencyNodeKind::SystemHeader,
            DependencyNode::ExternalHeader { .. } => DependencyNodeKind::ExternalHeader,
            DependencyNode::Ambiguous { .. } => DependencyNodeKind::Ambiguous,
            DependencyNode::Unresolved { .. } => DependencyNodeKind::Unresolved,
            DependencyNode::ContextDependent { .. } => DependencyNodeKind::ContextDependent,
        }
    }

    /// A copy with the same key.
    pub fn copy(&self) -> (r: DependencyNode)
        ensures
            node_key(r) == node_key(*self),
            node_kind(r) == node_kind(*self),
    {
        match self {
            DependencyNode::LocalModule(m) => DependencyNode::LocalModule(m.copy()),
            DependencyNode::StandardLibrary(m) => DependencyNode::StandardLibrary(m.copy()),
            DependencyNode::InstalledDistribution {
                language,
                distribution_name,
                distribution_display_name,
                version,
            } => DependencyNode::InstalledDistribution {
                language: language.copy(),
                distribution_name: copy_string(distribution_name),
                distribution_display_name: copy_string(distribution_display_name),
                version: copy_opt_text(version),
            },
            DependencyNode::SystemHeader { language, name } => DependencyNode::SystemHeader {
                language: language.copy(),
                name: copy_string(name),
            },
            DependencyNode::ExternalHeader { language, name } => DependencyNode::ExternalHeader {
                language: language.copy(),
                name: copy_string(name),
            },
            DependencyNode::Ambiguous { source_module, requested, candidates } => {
                let c = copy_targets(candidates);
                DependencyNode::Ambiguous {
                    source_module: source_module.copy(),
                    requested: copy_string(requested),
                    candidates: c,
                }
            },
            DependencyNode::Unresolved { source_module, requested, reason } => DependencyNode::Unresolved {
                source_module: source_module.copy(),
                requested: copy_string(requested),
                reason: *reason,
            },
            DependencyNode::ContextDependent {
                source_module,
                requested,
                candidates,
                unresolved_reasons,
            } => {
                let c = copy_targets(candidates);
                let u = copy_reasons(unresolved_reasons);
                DependencyNode::ContextDependent {
                    source_module: source_module.copy(),
                    requested: copy_string(requested),
                    candidates: c,
                    unresolved_reasons: u,
                }
            },
        }
    }

    pub fn push_key(&self, out: &mut Vec<KeyAtom>)
        ensures
            key_view(final(out)@) == key_view(old(out)@) + node_key(*self),
    {
        let ghost before = key_view(out@);
        match self {
            DependencyNode::LocalModule(m) => {
                push_num_atom(out, 0);
                m.push_key(out);
            },
            DependencyNode::StandardLibrary(m) => {
                push_num_atom(out, 1);
                m.push_key(out);
            },
            DependencyNode::InstalledDistribution {
                language,
                distribution_name,
                distribution_display_name,
                version,
            } => {
                push_num_atom(out, 2);
                push_text_atom(out, language.as_str());
                push_text_atom(out, distribution_name.as_str());
                push_text_atom(out, distribution_display_name.as_str());
                push_opt_text_key(out, version);
            },
            DependencyNode::SystemHeader { language, name } => {
                push_num_atom(out, 3);
                push_text_atom(out, language.as_str());
                push_text_atom(out, name.as_str());
            },
            DependencyNode::ExternalHeader { language, name } => {
                push_num_atom(out, 4);
                push_text_atom(out, language.as_str());
                push_text_atom(out, name.as_str());
            },
            DependencyNode::Ambiguous { source_module, requested, candidates } => {
                push_num_atom(out, 5);
                source_module.push_key(out);
                push_text_atom(out, requested.as_str());
                push_targets_key(out, candidates);
            },
            DependencyNode::Unresolved { source_module, requested, reason } => {
                push_num_atom(out, 6);
                source_module.push_key(out);
                push_text_atom(out, requested.as_str());
                push_num_atom(out, reason.rank());
            },
            DependencyNode::ContextDependent {
                source_module,
                requested,
                candidates,
                unresolved_reasons,
            } => {
                push_num_atom(out, 7);
                source_module.push_key(out);
                push_text_atom(out, requested.as_str());
                push_targets_key(out, candidates);
                push_reasons_key(out, unresolved_reasons);
            },
        }
        assert(key_view(out@) =~= before + node_key(*self));
    }

    /// The key of this node alone.
    pub fn key(&self) -> (k: Vec<KeyAtom>)
        ensures
            key_view(k@) == node_key(*self),
    {
        let mut k: Vec<KeyAtom> = Vec::new();
        self.push_key(&mut k);
        assert(key_view(k@) =~= Seq::<AtomView>::empty() + node_key(*self));
        k
    }
}

fn copy_targets(ts: &Vec<DependencyTarget>) -> (r: Vec<DependencyTarget>)
    ensures
        targets_key(r@) == targets_key(ts@),
        r.len() == ts.len(),
        forall|i: int| 0 <= i < r.len() ==> crate::dependencies::target_key(#[trigger] r[i])
            == crate::dependencies::target_key(ts[i]),
{
    let mut r: Vec<DependencyTarget> = Vec::new();
    let mut i: usize = 0;
    while i < ts.len()
        invariant
            i <= ts.len(),
            r.len() == i,
            forall|j: int| 0 <= j < i ==> crate::dependencies::target_key(#[trigger] r[j])
                == crate::dependencies::target_key(ts[j]),
        decreases ts.len() - i,
    {
        r.push(ts[i].copy());
        i = i + 1;
    }
    proof {
        lemma_targets_key_congruent(r@, ts@);
    }
    r
}

proof fn lemma_targets_key_congruent(a: Seq<DependencyTarget>, b: Seq<DependencyTarget>)
    requires
        a.len() == b.len(),
        forall|i: int| 0 <= i < a.len() ==> crate::dependencies::target_key(#[trigger] a[i])
            == crate::dependencies::target_key(b[i]),
    ensures
        crate::dependencies::targets_body(a) == crate::dependencies::targets_body(b),
        targets_key(a) == targets_key(b),
    decreases a.len(),
{
    if a.len() > 0 {
        lemma_targets_key_congruent(a.drop_last(), b.drop_last());
        assert(crate::dependencies::target_key(a[a.len() - 1]) == crate::dependencies::target_key(
            b[b.len() - 1],
        ));
    }
}

fn copy_reasons(rs: &Vec<UnresolvedDependencyReason>) -> (r: Vec<UnresolvedDependencyReason>)
    ensures
        r@ == rs@,
{
    let mut r: Vec<UnresolvedDependencyReason> = Vec::new();
    let mut i: usize = 0;
    while i < rs.len()
        invariant
            i <= rs.len(),
            r@ == rs@.take(i as int),
        decreases rs.len() - i,
    {
        r.push(rs[i]);
        i = i + 1;
        assert(r@ =~= rs@.take(i as int));
    }
    assert(rs@.take(rs.len() as int) =~= rs@);
    r
}

#[derive(Debug, Clone, Copy, PartialEq, Eq, Structural, PartialOrd, Ord, Hash)]
pub enum DependencyRelationKind {
    Exact,
    Inferred,
    Ambiguous,
    Unresolved,
    ContextDependent,
}

pub open spec fn relation_rank(k: DependencyRelationKind) -> int {
    match k {
        DependencyRelationKind::Exact => 0,
        DependencyRelationKind::Inferred => 1,
        DependencyRelationKind::Ambiguous => 2,
        DependencyRelationKind::Unresolved => 3,
        DependencyRelationKind::ContextDependent => 4,
    }
}

impl DependencyRelationKind {
    /// The stable name.
    pub fn as_str(self) -> (r: &'static str)
        ensures
            r@ == match self {
                DependencyRelationKind::Exact => "exact"@,
                DependencyRelationKind::Inferred => "inferred"@,
                DependencyRelationKind::Ambiguous => "ambiguous"@,
                DependencyRelationKind::Unresolved => "unresolved"@,
                DependencyRelationKind::ContextDependent => "context-dependent"@,
            },
    {
        match self {
            DependencyRelationKind::Exact => "exact",
            DependencyRelationKind::Inferred => "inferred",
            DependencyRelationKind::Ambiguous => "ambiguous",
            DependencyRelationKind::Unresolved => "unresolved",
            DependencyRelationKind::ContextDependent => "context-dependent",
        }
    }

    pub fn rank(self) -> (r: u64)
        ensures
            r == relation_rank(self),
    {
        match self {
            DependencyRelationKind::Exact => 0,
            DependencyRelationKind::Inferred => 1,
            DependencyRelationKind::Ambiguous => 2,
            DependencyRelationKind::Unresolved => 3,
            DependencyRelationKind::ContextDependent => 4,
        }
    }
}

/// The relation kind that an outcome gives.
pub open spec fn outcome_relation_kind(o: DependencyResolutionOutcome) -> DependencyRelationKind {
    match o {
        DependencyResolutionOutcome::Exact(_) => DependencyRelationKind::Exact,
        DependencyResolutionOutcome::Inferred { .. } => DependencyRelationKind::Inferred,
        DependencyResolutionOutcome::Ambiguous { .. } => DependencyRelationKind::Ambiguous,
        DependencyResolutionOutcome::Unresolved { .. } => DependencyRelationKind::Unresolved,
        DependencyResolutionOutcome::ContextDependent { .. } => DependencyRelationKind::ContextDependent,
    }
}

/// Where a relation was seen: the source file and the reference in it.
#[derive(Debug)]
pub struct GraphEvidence {
    pub source_path: String,
    pub reference: DependencyReference,
}

impl View for GraphEvidence {
    type V = (Seq<char>, crate::analyzer::ReferenceView);

    open spec fn view(&self) -> (Seq<char>, crate::analyzer::ReferenceView) {
        (self.source_path@, self.reference@)
    }
}

/// The evidence of a resolution.
pub open spec fn resolution_evidence(r: ProjectDependencyResolution) -> (Seq<char>, crate::analyzer::ReferenceView) {
    (r.source_path@, r.reference@)
}

/// The order key of evidence: source path, then start byte, end byte, line
/// and column of the reference.
pub open spec fn evidence_key(path: Seq<char>, reference: DependencyReference) -> Seq<AtomView> {
    seq![
        AtomView::Text(path),
        AtomView::Num(reference.span.start_byte as int),
        AtomView::Num(reference.span.end_byte as int),
        AtomView::Num(reference.span.start.line as int),
        AtomView::Num(reference.span.start.column as int),
    ]
}

#[derive(Debug)]
pub struct DependencyRelation {
    pub source: DependencyNode,
    pub target: DependencyNode,
    pub kind: DependencyRelationKind,
    pub evidence: Vec<GraphEvidence>,
}

#[derive(Debug)]
pub struct DependencyNodeMetrics {
    pub node: DependencyNode,
    pub fan_in: usize,
    pub fan_out: usize,
}

#[derive(Debug)]
pub struct DependencyScc {
    pub members: Vec<DependencyNode>,
    pub cyclic: bool,
}

#[derive(Debug, Clone, Copy, PartialEq, Eq, Structural, Default)]
pub struct DependencyGraphCoverage {
    pub total_references: usize,
    pub exact_references: usize,
    pub inferred_references: usize,
    pub ambiguous_references: usize,
    pub unresolved_references: usize,
    pub context_dependent_references: usize,
}

#[derive(Debug)]
pub struct DependencyGraphAnalysis {
    pub nodes: Vec<DependencyNode>,
    pub relations: Vec<DependencyRelation>,
    pub metrics: Vec<DependencyNodeMetrics>,
    pub strongly_connected_components: Vec<DependencyScc>,
    pub cycles: Vec<DependencyScc>,
    pub coverage: DependencyGraphCoverage,
}

/// Why a graph could not be built.
#[derive(Debug)]
pub enum DependencyGraphError {
    AbsolutePath { context: &'static str, path: String },
    ConflictingLocalModule { module: ModuleId, first_path: String, second_path: String },
    UnknownSourceModule { module: ModuleId },
    SourcePathMismatch { module: ModuleId, expected: String, actual: String },
    UnknownExactLocalTarget { module: ModuleId, path: String },
    ExactLocalTargetPathMismatch { module: ModuleId, expected: String, actual: String },
    EmptyAmbiguousCandidates { source_module: ModuleId, requested: String },
}

/// A graph error with its text taken by value.
pub enum GraphErrorView {
    AbsolutePath { context: Seq<char>, path: Seq<char> },
    ConflictingLocalModule {
        module: (Seq<char>, Seq<char>),
        first_path: Seq<char>,
        second_path: Seq<char>,
    },
    UnknownSourceModule { module: (Seq<char>, Seq<char>) },
    SourcePathMismatch { module: (Seq<char>, Seq<char>), expected: Seq<char>, actual: Seq<char> },
    UnknownExactLocalTarget { module: (Seq<char>, Seq<char>), path: Seq<char> },
    ExactLocalTargetPathMismatch {
        module: (Seq<char>, Seq<char>),
        expected: Seq<char>,
        actual: Seq<char>,
    },
    EmptyAmbiguousCandidates { source_module: (Seq<char>, Seq<char>), requested: Seq<char> },
}

impl View for DependencyGraphError {
    type V = GraphErrorView;

    open spec fn view(&self) -> GraphErrorView {
        match self {
            DependencyGraphError::AbsolutePath { context, path } => GraphErrorView::AbsolutePath {
                context: context@,
                path: path@,
            },
            DependencyGraphError::ConflictingLocalModule { module, first_path, second_path } =>
                GraphErrorView::ConflictingLocalModule {
                module: module@,
                first_path: first_path@,
                second_path: second_path@,
            },
            DependencyGraphError::UnknownSourceModule { module } => GraphErrorView::UnknownSourceModule {
                module: module@,
            },
            DependencyGraphError::SourcePathMismatch { module, expected, actual } =>
                GraphErrorView::SourcePathMismatch {
                module: module@,
                expected: expected@,
                actual: actual@,
            },
            DependencyGraphError::UnknownExactLocalTarget { module, path } =>
                GraphErrorView::UnknownExactLocalTarget { module: module@, path: path@ },
            DependencyGraphError::ExactLocalTargetPathMismatch { module, expected, actual } =>
                GraphErrorView::ExactLocalTargetPathMismatch {
                module: module@,
                expected: expected@,
                actual: actual@,
            },
            DependencyGraphError::EmptyAmbiguousCandidates { source_module, requested } =>
                GraphErrorView::EmptyAmbiguousCandidates {
                source_module: source_module@,
                requested: requested@,
            },
        }
    }
}

/// `language:qualified.name`.
pub open spec fn module_name(m: (Seq<char>, Seq<char>)) -> Seq<char> {
    m.0 + ":"@ + m.1
}

/// The text of an error.
pub open spec fn graph_error_text(e: GraphErrorView) -> Seq<char> {
    match e {
        GraphErrorView::AbsolutePath { context, path } => context
            + " path must be repository-relative: "@ + path,
        GraphErrorView::ConflictingLocalModule { module, first_path, second_path } => "local module "@
            + module_name(module) + " has conflicting paths "@ + first_path + " and "@ + second_path,
        GraphErrorView::UnknownSourceModule { module } => "dependency source module "@ + module_name(
            module,
        ) + " is not in the local module catalog"@,
        GraphErrorView::SourcePathMismatch { module, expected, actual } => "source module "@
            + module_name(module) + " has path "@ + expected + ", but resolution reported "@ + actual,
        GraphErrorView::UnknownExactLocalTarget { module, path } => "exact local target "@
            + module_name(module) + " at "@ + path + " is not in the local module catalog"@,
        GraphErrorView::ExactLocalTargetPathMismatch { module, expected, actual } =>
            "exact local target "@ + module_name(module) + " has catalog path "@ + expected
            + ", but resolution reported "@ + actual,
        GraphErrorView::EmptyAmbiguousCandidates { source_module, requested } => "ambiguous import "@
            + requested + " from "@ + module_name(source_module) + " has no candidates"@,
    }
}

fn push_module_name(s: &mut String, m: &ModuleId)
    ensures
        final(s)@ == old(s)@ + module_name(m@),
{
    push_text(s, m.language().as_str());
    push_text(s, ":");
    push_text(s, m.qualified_name());
    proof {
        reveal_strlit(":");
    }
}

impl DependencyGraphError {
    /// The human-readable text of the error.
    pub fn message(&self) -> (r: String)
        ensures
            r@ == graph_error_text(self@),
    {
        let mut s = String::new();
        match self {
            DependencyGraphError::AbsolutePath { context, path } => {
                push_text(&mut s, context);
                push_text(&mut s, " path must be repository-relative: ");
                push_text(&mut s, path.as_str());
            },
            DependencyGraphError::ConflictingLocalModule { module, first_path, second_path } => {
                push_text(&mut s, "local module ");
                push_module_name(&mut s, module);
                push_text(&mut s, " has conflicting paths ");
                push_text(&mut s, first_path.as_str());
                push_text(&mut s, " and ");
                push_text(&mut s, second_path.as_str());
            },
            DependencyGraphError::UnknownSourceModule { module } => {
                push_text(&mut s, "dependency source module ");
                push_module_name(&mut s, module);
                push_text(&mut s, " is not in the local module catalog");
            },
            DependencyGraphError::SourcePathMismatch { module, expected, actual } => {
                push_text(&mut s, "source module ");
                push_module_name(&mut s, module);
                push_text(&mut s, " has path ");
                push_text(&mut s, expected.as_str());
                push_text(&mut s, ", but resolution reported ");
                push_text(&mut s, actual.as_str());
            },
            DependencyGraphError::UnknownExactLocalTarget { module, path } => {
                push_text(&mut s, "exact local target ");
                push_module_name(&mut s, module);
                push_text(&mut s, " at ");
                push_text(&mut s, path.as_str());
                push_text(&mut s, " is not in the local module catalog");
            },
            DependencyGraphError::ExactLocalTargetPathMismatch { module, expected, actual } => {
                push_text(&mut s, "exact local target ");
                push_module_name(&mut s, module);
                push_text(&mut s, " has catalog path ");
                push_text(&mut s, expected.as_str());
                push_text(&mut s, ", but resolution reported ");
                push_text(&mut s, actual.as_str());
            },
            DependencyGraphError::EmptyAmbiguousCandidates { source_module, requested } => {
                push_text(&mut s, "ambiguous import ");
                push_text(&mut s, requested.as_str());
                push_text(&mut s, " from ");
                push_module_name(&mut s, source_module);
                push_text(&mut s, " has no candidates");
            },
        }
        proof {
            assert(s@ =~= graph_error_text(self@));
        }
        s
    }
}


// ---------------------------------------------------------------------
// What the graph is built from, and when the inputs are refused.
// ---------------------------------------------------------------------

/// An absolute path, which the graph refuses: one that starts at the root.
pub open spec fn is_absolute(p: Seq<char>) -> bool {
    p.len() > 0 && p[0] == '/'
}

/// The first error of a sequence of checks, if any.
pub open spec fn first_some(s: Seq<Option<GraphErrorView>>) -> Option<GraphErrorView>
    decreases s.len(),
{
    if s.len() == 0 {
        None
    } else if s[0] is Some {
        s[0]
    } else {
        first_some(s.drop_first())
    }
}

proof fn lemma_first_some(s: Seq<Option<GraphErrorView>>, i: int)
    requires
        0 <= i <= s.len(),
        forall|j: int| 0 <= j < i ==> #[trigger] s[j] is None,
    ensures
        i < s.len() && s[i] is Some ==> first_some(s) == s[i],
        i == s.len() ==> first_some(s) is None,
    decreases i,
{
    if i > 0 {
        let t = s.drop_first();
        assert forall|j: int| 0 <= j < i - 1 implies #[trigger] t[j] is None by {
            assert(t[j] == s[j + 1]);
        }
        lemma_first_some(t, i - 1);
        assert(s[0] is None);
        if i < s.len() {
            assert(t[i - 1] == s[i]);
        }
    }
}

pub open spec fn local_error(m: LocalModule) -> Option<GraphErrorView> {
    if is_absolute(m.path@) {
        Some(GraphErrorView::AbsolutePath { context: "local module"@, path: m.path@ })
    } else {
        None
    }
}

pub open spec fn local_errors(lm: Seq<LocalModule>) -> Seq<Option<GraphErrorView>> {
    lm.map_values(|m: LocalModule| local_error(m))
}

/// Some catalog module has this identity.
pub open spec fn has_module_id(lm: Seq<LocalModule>, id: (Seq<char>, Seq<char>)) -> bool {
    exists|j: int| 0 <= j < lm.len() && (#[trigger] lm[j]).id@ == id
}

/// Some catalog module has this identity and path, and this flag.
pub open spec fn has_module_flag(
    lm: Seq<LocalModule>,
    id: (Seq<char>, Seq<char>),
    path: Seq<char>,
    analyzed: bool,
) -> bool {
    exists|j: int|
        0 <= j < lm.len() && (#[trigger] lm[j]).id@ == id && lm[j].path@ == path
            && lm[j].outgoing_dependencies_analyzed == analyzed
}

/// Some catalog module has this identity and path.
pub open spec fn has_module_at(lm: Seq<LocalModule>, id: (Seq<char>, Seq<char>), path: Seq<char>) -> bool {
    has_module_flag(lm, id, path, false) || has_module_flag(lm, id, path, true)
}

/// `p` is the least path among the catalog modules with this identity.
pub open spec fn is_least_path(lm: Seq<LocalModule>, id: (Seq<char>, Seq<char>), p: Seq<char>) -> bool {
    &&& exists|j: int| 0 <= j < lm.len() && (#[trigger] lm[j]).id@ == id && lm[j].path@ == p
    &&& forall|j: int|
        0 <= j < lm.len() && (#[trigger] lm[j]).id@ == id ==> crate::order::text_compare(p, lm[j].path@) <= 0
}

/// The path that the catalog gives first for an identity.
pub open spec fn least_path(lm: Seq<LocalModule>, id: (Seq<char>, Seq<char>)) -> Seq<char> {
    choose|p: Seq<char>| is_least_path(lm, id, p)
}

/// The check of one target's path; exact targets are also looked up in the
/// catalog.
pub open spec fn target_error(lm: Seq<LocalModule>, t: DependencyTarget, exact: bool) -> Option<GraphErrorView> {
    match t {
        DependencyTarget::LocalModule(m) => if is_absolute(m.path@) {
            Some(GraphErrorView::AbsolutePath { context: "local target"@, path: m.path@ })
        } else if !exact {
            None
        } else if !has_module_id(lm, m.id@) {
            Some(GraphErrorView::UnknownExactLocalTarget { module: m.id@, path: m.path@ })
        } else if !has_module_at(lm, m.id@, m.path@) {
            Some(
                GraphErrorView::ExactLocalTargetPathMismatch {
                    module: m.id@,
                    expected: least_path(lm, m.id@),
                    actual: m.path@,
                },
            )
        } else {
            None
        },
        _ => None,
    }
}

pub open spec fn candidate_errors(lm: Seq<LocalModule>, c: Seq<DependencyTarget>) -> Seq<Option<GraphErrorView>> {
    c.map_values(|t: DependencyTarget| target_error(lm, t, false))
}

/// The check of one resolution.
pub open spec fn resolution_error(lm: Seq<LocalModule>, r: ProjectDependencyResolution) -> Option<GraphErrorView> {
    if is_absolute(r.source_path@) {
        Some(GraphErrorView::AbsolutePath { context: "dependency source"@, path: r.source_path@ })
    } else if !has_module_id(lm, r.source_module@) {
        Some(GraphErrorView::UnknownSourceModule { module: r.source_module@ })
    } else if !has_module_at(lm, r.source_module@, r.source_path@) {
        Some(
            GraphErrorView::SourcePathMismatch {
                module: r.source_module@,
                expected: least_path(lm, r.source_module@),
                actual: r.source_path@,
            },
        )
    } else {
        match r.outcome {
            DependencyResolutionOutcome::Exact(t) => target_error(lm, t, true),
            DependencyResolutionOutcome::Inferred { target, .. } => target_error(lm, target, false),
            DependencyResolutionOutcome::Ambiguous { requested, candidates } => if candidates.len() == 0 {
                Some(
                    GraphErrorView::EmptyAmbiguousCandidates {
                        source_module: r.source_module@,
                        requested: requested@,
                    },
                )
            } else {
                first_some(candidate_errors(lm, candidates@))
            },
            DependencyResolutionOutcome::Unresolved { .. } => None,
            DependencyResolutionOutcome::ContextDependent { candidates, .. } => first_some(
                candidate_errors(lm, candidates@),
            ),
        }
    }
}

pub open spec fn resolution_errors(
    lm: Seq<LocalModule>,
    res: Seq<ProjectDependencyResolution>,
) -> Seq<Option<GraphErrorView>> {
    res.map_values(|r: ProjectDependencyResolution| resolution_error(lm, r))
}

/// The error that refuses the inputs: the first absolute local-module path,
/// else the first failing resolution.
pub open spec fn graph_error(lm: Seq<LocalModule>, res: Seq<ProjectDependencyResolution>) -> Option<GraphErrorView> {
    match first_some(local_errors(lm)) {
        Some(e) => Some(e),
        None => first_some(resolution_errors(lm, res)),
    }
}

/// The key of the node of the catalog module that a resolution comes from.
pub open spec fn source_key(lm: Seq<LocalModule>, r: ProjectDependencyResolution) -> Seq<AtomView> {
    seq![AtomView::Num(0)] + module_key(r.source_module@) + crate::documentation::path_order_key(r.source_path@) + seq![
        AtomView::Num(
            if has_module_flag(lm, r.source_module@, r.source_path@, false) {
                0
            } else {
                1
            },
        ),
    ]
}

/// The key of the node of an exact or inferred target.
pub open spec fn target_node_key(t: DependencyTarget) -> Seq<AtomView> {
    match t {
        DependencyTarget::LocalModule(m) => seq![AtomView::Num(0)] + local_key(m),
        DependencyTarget::StandardLibrary(m) => seq![AtomView::Num(1)] + module_key(m@),
        DependencyTarget::InstalledDistribution {
            import_module,
            distribution_name,
            distribution_display_name,
            version,
        } => seq![
            AtomView::Num(2),
            AtomView::Text(import_module@.0),
            AtomView::Text(distribution_name@),
            AtomView::Text(distribution_display_name@),
        ] + opt_text_key(version),
        DependencyTarget::SystemHeader { language, name } => seq![
            AtomView::Num(3),
            AtomView::Text(language@),
            AtomView::Text(name@),
        ],
        DependencyTarget::ExternalHeader { language, name } => seq![
            AtomView::Num(4),
            AtomView::Text(language@),
            AtomView::Text(name@),
        ],
    }
}

/// `k` is the key of the node that a resolution points at. Ambiguous and
/// context-dependent nodes hold the candidates sorted, each once.
pub open spec fn target_key_of(k: Seq<AtomView>, r: ProjectDependencyResolution) -> bool {
    match r.outcome {
        DependencyResolutionOutcome::Exact(t) => k == target_node_key(t),
        DependencyResolutionOutcome::Inferred { target, .. } => k == target_node_key(target),
        DependencyResolutionOutcome::Ambiguous { requested, candidates } => exists|c: Seq<DependencyTarget>|
            #[trigger] canonical_targets(c, candidates@) && k == seq![AtomView::Num(5)] + module_key(
                r.source_module@,
            ) + seq![AtomView::Text(requested@)] + targets_key(c),
        DependencyResolutionOutcome::Unresolved { requested, reason } => k == seq![AtomView::Num(6)]
            + module_key(r.source_module@) + seq![
            AtomView::Text(requested@),
            AtomView::Num(reason_rank(reason) as int),
        ],
        DependencyResolutionOutcome::ContextDependent { requested, candidates, unresolved_reasons } =>
            exists|c: Seq<DependencyTarget>, u: Seq<UnresolvedDependencyReason>|
            #[trigger] canonical_targets(c, candidates@) && #[trigger] canonical_reasons(u, unresolved_reasons@)
                && k == seq![AtomView::Num(7)] + module_key(r.source_module@) + seq![
                AtomView::Text(requested@),
            ] + targets_key(c) + reasons_key(u),
    }
}

/// `n` is the node that a resolution points at.
pub open spec fn node_matches(n: DependencyNode, r: ProjectDependencyResolution) -> bool {
    target_key_of(node_key(n), r)
}

/// The node key of a catalog module.
pub open spec fn catalog_node_key(m: LocalModule) -> Seq<AtomView> {
    seq![AtomView::Num(0)] + local_key(m)
}

/// `n` is the node of some catalog module.
pub open spec fn is_catalog_node(lm: Seq<LocalModule>, n: DependencyNode) -> bool {
    exists|j: int| 0 <= j < lm.len() && node_key(n) == catalog_node_key(#[trigger] lm[j])
}

// ---------------------------------------------------------------------
// Checks, one input at a time.
// ---------------------------------------------------------------------

fn is_absolute_path(p: &str) -> (r: bool)
    ensures
        r == is_absolute(p@),
{
    p.unicode_len() > 0 && p.get_char(0) == '/'
}

fn same_module(a: &ModuleId, b: &ModuleId) -> (r: bool)
    ensures
        r == (a@ == b@),
{
    crate::text::text_eq(a.language().as_str(), b.language().as_str()) && crate::text::text_eq(
        a.qualified_name(),
        b.qualified_name(),
    )
}

fn check_local_paths(lm: &Vec<LocalModule>) -> (r: Result<(), DependencyGraphError>)
    ensures
        match r {
            Ok(_) => first_some(local_errors(lm@)) is None,
            Err(e) => first_some(local_errors(lm@)) == Some(e@),
        },
{
    let ghost errs = local_errors(lm@);
    let mut i: usize = 0;
    while i < lm.len()
        invariant
            i <= lm.len(),
            errs == local_errors(lm@),
            forall|j: int| 0 <= j < i ==> #[trigger] errs[j] is None,
        decreases lm.len() - i,
    {
        if is_absolute_path(lm[i].path.as_str()) {
            proof {
                lemma_first_some(errs, i as int);
            }
            return Err(DependencyGraphError::AbsolutePath { context: "local module", path: copy_string(&lm[i].path) });
        }
        i = i + 1;
    }
    proof {
        lemma_first_some(errs, i as int);
    }
    Ok(())
}

/// The index of a catalog module with this identity whose path is least.
fn least_path_index(lm: &Vec<LocalModule>, id: &ModuleId) -> (r: Option<usize>)
    ensures
        r is None <==> !has_module_id(lm@, id@),
        r matches Some(j) ==> j < lm.len() && lm[j as int].id@ == id@ && least_path(lm@, id@)
            == lm[j as int].path@,
{
    let mut best: Option<usize> = None;
    let mut i: usize = 0;
    while i < lm.len()
        invariant
            i <= lm.len(),
            best is None <==> forall|j: int| 0 <= j < i ==> (#[trigger] lm[j]).id@ != id@,
            best matches Some(b) ==> b < i && lm[b as int].id@ == id@ && forall|j: int|
                0 <= j < i && (#[trigger] lm[j]).id@ == id@ ==> crate::order::text_compare(
                    lm[b as int].path@,
                    lm[j].path@,
                ) <= 0,
        decreases lm.len() - i,
    {
        if same_module(&lm[i].id, id) {
            match best {
                None => {
                    best = Some(i);
                    proof {
                        crate::order::lemma_text_facts(lm[i as int].path@, lm[i as int].path@);
                    }
                },
                Some(b) => {
                    let c = crate::order::compare_chars(
                        &text_chars_of(&lm[i].path),
                        &text_chars_of(&lm[b].path),
                    );
                    proof {
                        crate::order::lemma_text_facts(lm[i as int].path@, lm[b as int].path@);
                    }
                    if c < 0 {
                        proof {
                            assert forall|j: int|
                                0 <= j < i + 1 && (#[trigger] lm[j]).id@ == id@ implies crate::order::text_compare(
                                lm[i as int].path@,
                                lm[j].path@,
                            ) <= 0 by {
                                crate::order::lemma_text_facts(lm[i as int].path@, lm[j].path@);
                                if j < i {
                                    lemma_text_le_trans(lm[i as int].path@, lm[b as int].path@, lm[j].path@);
                                }
                            }
                        }
                        best = Some(i);
                    }
                },
            }
        }
        i = i + 1;
    }
    match best {
        None => {
            None
        },
        Some(b) => {
            proof {
                let p = lm[b as int].path@;
                assert(is_least_path(lm@, id@, p));
                let q = least_path(lm@, id@);
                assert(is_least_path(lm@, id@, q));
                let jq = choose|j: int| 0 <= j < lm.len() && (#[trigger] lm@[j]).id@ == id@ && lm@[j].path@ == q;
                assert(lm[jq].id@ == id@);
                crate::order::lemma_text_facts(p, q);
            }
            Some(b)
        },
    }
}

fn text_chars_of(s: &String) -> (r: Vec<char>)
    ensures
        r@ == s@,
{
    crate::order::text_chars(s.as_str())
}

proof fn lemma_text_le_trans(x: Seq<char>, y: Seq<char>, z: Seq<char>)
    requires
        crate::order::text_compare(x, y) < 0,
        crate::order::text_compare(y, z) <= 0,
    ensures
        crate::order::text_compare(x, z) <= 0,
{
    let kx = seq![AtomView::Text(x)];
    let ky = seq![AtomView::Text(y)];
    let kz = seq![AtomView::Text(z)];
    lemma_single_text_key(x, y);
    lemma_single_text_key(y, z);
    lemma_single_text_key(x, z);
    crate::order::lemma_key_trans(kx, ky, kz);
}

pub(crate) proof fn lemma_single_text_key(x: Seq<char>, y: Seq<char>)
    ensures
        crate::order::key_compare(seq![AtomView::Text(x)], seq![AtomView::Text(y)])
            == crate::order::text_compare(x, y),
{
    let kx = seq![AtomView::Text(x)];
    let ky = seq![AtomView::Text(y)];
    crate::order::lemma_text_facts(x, y);
    assert(kx.drop_first() =~= Seq::<AtomView>::empty());
    assert(ky.drop_first() =~= Seq::<AtomView>::empty());
    assert(crate::order::atom_order()(kx[0], ky[0]) == crate::order::text_compare(x, y));
    assert(crate::order::lex_compare(kx.drop_first(), ky.drop_first(), crate::order::atom_order()) == 0);
}


/// The index of the catalog module with this identity and path; one whose
/// dependencies were not analyzed is preferred, as it sorts first.
fn module_at_index(lm: &Vec<LocalModule>, id: &ModuleId, path: &String) -> (r: Option<usize>)
    ensures
        r is None <==> !has_module_at(lm@, id@, path@),
        r matches Some(j) ==> j < lm.len() && lm[j as int].id@ == id@ && lm[j as int].path@ == path@
            && lm[j as int].outgoing_dependencies_analyzed == !has_module_flag(lm@, id@, path@, false),
{
    let mut found: Option<usize> = None;
    let mut i: usize = 0;
    while i < lm.len()
        invariant
            i <= lm.len(),
            found is None ==> forall|j: int|
                0 <= j < i ==> !((#[trigger] lm[j]).id@ == id@ && lm[j].path@ == path@),
            found matches Some(b) ==> b < i && lm[b as int].id@ == id@ && lm[b as int].path@ == path@
                && (lm[b as int].outgoing_dependencies_analyzed ==> forall|j: int|
                0 <= j < i ==> !((#[trigger] lm[j]).id@ == id@ && lm[j].path@ == path@
                    && !lm[j].outgoing_dependencies_analyzed)),
        decreases lm.len() - i,
    {
        if same_module(&lm[i].id, id) && crate::text::text_eq(lm[i].path.as_str(), path.as_str()) {
            match found {
                None => {
                    found = Some(i);
                },
                Some(b) => {
                    if lm[b].outgoing_dependencies_analyzed && !lm[i].outgoing_dependencies_analyzed {
                        found = Some(i);
                    }
                },
            }
        }
        i = i + 1;
    }
    proof {
        if found is None {
            assert(!has_module_flag(lm@, id@, path@, false));
            assert(!has_module_flag(lm@, id@, path@, true));
        }
        if let Some(b) = found {
            if lm[b as int].outgoing_dependencies_analyzed {
                assert(!has_module_flag(lm@, id@, path@, false));
                assert(has_module_flag(lm@, id@, path@, true));
            } else {
                assert(has_module_flag(lm@, id@, path@, false));
            }
        }
    }
    found
}

fn check_target(lm: &Vec<LocalModule>, t: &DependencyTarget, exact: bool) -> (r: Result<(), DependencyGraphError>)
    ensures
        match r {
            Ok(_) => target_error(lm@, *t, exact) is None,
            Err(e) => target_error(lm@, *t, exact) == Some(e@),
        },
{
    match t {
        DependencyTarget::LocalModule(m) => {
            if is_absolute_path(m.path.as_str()) {
                return Err(DependencyGraphError::AbsolutePath { context: "local target", path: copy_string(&m.path) });
            }
            if !exact {
                return Ok(());
            }
            match least_path_index(lm, &m.id) {
                None => Err(DependencyGraphError::UnknownExactLocalTarget { module: m.id.copy(), path: copy_string(&m.path) }),
                Some(b) => {
                    match module_at_index(lm, &m.id, &m.path) {
                        Some(_) => Ok(()),
                        None => Err(
                            DependencyGraphError::ExactLocalTargetPathMismatch {
                                module: m.id.copy(),
                                expected: copy_string(&lm[b].path),
                                actual: copy_string(&m.path),
                            },
                        ),
                    }
                },
            }
        },
        _ => Ok(()),
    }
}

fn check_candidates(lm: &Vec<LocalModule>, c: &Vec<DependencyTarget>) -> (r: Result<(), DependencyGraphError>)
    ensures
        match r {
            Ok(_) => first_some(candidate_errors(lm@, c@)) is None,
            Err(e) => first_some(candidate_errors(lm@, c@)) == Some(e@),
        },
{
    let ghost errs = candidate_errors(lm@, c@);
    let mut i: usize = 0;
    while i < c.len()
        invariant
            i <= c.len(),
            errs == candidate_errors(lm@, c@),
            forall|j: int| 0 <= j < i ==> #[trigger] errs[j] is None,
        decreases c.len() - i,
    {
        match check_target(lm, &c[i], false) {
            Err(e) => {
                proof {
                    lemma_first_some(errs, i as int);
                }
                return Err(e);
            },
            Ok(_) => {},
        }
        i = i + 1;
    }
    proof {
        lemma_first_some(errs, i as int);
    }
    Ok(())
}

/// The node of an exact or inferred target.
fn target_node(t: &DependencyTarget) -> (n: DependencyNode)
    ensures
        node_key(n) == target_node_key(*t),
{
    match t {
        DependencyTarget::LocalModule(m) => DependencyNode::LocalModule(m.copy()),
        DependencyTarget::StandardLibrary(m) => DependencyNode::StandardLibrary(m.copy()),
        DependencyTarget::InstalledDistribution {
            import_module,
            distribution_name,
            distribution_display_name,
            version,
        } => DependencyNode::InstalledDistribution {
            language: import_module.language().copy(),
            distribution_name: copy_string(distribution_name),
            distribution_display_name: copy_string(distribution_display_name),
            version: copy_opt_text(version),
        },
        DependencyTarget::SystemHeader { language, name } => DependencyNode::SystemHeader {
            language: language.copy(),
            name: copy_string(name),
        },
        DependencyTarget::ExternalHeader { language, name } => DependencyNode::ExternalHeader {
            language: language.copy(),
            name: copy_string(name),
        },
    }
}

/// The source node, the target node and the relation kind of one
/// resolution, or why it is refused.
fn resolve_one(lm: &Vec<LocalModule>, r: &ProjectDependencyResolution) -> (out: Result<
    (DependencyNode, DependencyNode, DependencyRelationKind),
    DependencyGraphError,
>)
    ensures
        match out {
            Ok((s, t, k)) => {
                &&& resolution_error(lm@, *r) is None
                &&& node_key(s) == source_key(lm@, *r)
                &&& is_catalog_node(lm@, s)
                &&& node_matches(t, *r)
                &&& k == outcome_relation_kind(r.outcome)
            },
            Err(e) => resolution_error(lm@, *r) == Some(e@),
        },
{
    if is_absolute_path(r.source_path.as_str()) {
        return Err(
            DependencyGraphError::AbsolutePath { context: "dependency source", path: copy_string(&r.source_path) },
        );
    }
    let least = match least_path_index(lm, &r.source_module) {
        None => {
            return Err(DependencyGraphError::UnknownSourceModule { module: r.source_module.copy() });
        },
        Some(b) => b,
    };
    let at = match module_at_index(lm, &r.source_module, &r.source_path) {
        None => {
            return Err(
                DependencyGraphError::SourcePathMismatch {
                    module: r.source_module.copy(),
                    expected: copy_string(&lm[least].path),
                    actual: copy_string(&r.source_path),
                },
            );
        },
        Some(j) => j,
    };
    let source = DependencyNode::LocalModule(lm[at].copy());
    proof {
        assert(node_key(source) == catalog_node_key(lm@[at as int]));
        assert(node_key(source) =~= source_key(lm@, *r));
    }
    match &r.outcome {
        DependencyResolutionOutcome::Exact(t) => {
            match check_target(lm, t, true) {
                Err(e) => Err(e),
                Ok(_) => Ok((source, target_node(t), DependencyRelationKind::Exact)),
            }
        },
        DependencyResolutionOutcome::Inferred { target, .. } => {
            match check_target(lm, target, false) {
                Err(e) => Err(e),
                Ok(_) => Ok((source, target_node(target), DependencyRelationKind::Inferred)),
            }
        },
        DependencyResolutionOutcome::Ambiguous { requested, candidates } => {
            if candidates.len() == 0 {
                return Err(
                    DependencyGraphError::EmptyAmbiguousCandidates {
                        source_module: r.source_module.copy(),
                        requested: copy_string(requested),
                    },
                );
            }
            match check_candidates(lm, candidates) {
                Err(e) => Err(e),
                Ok(_) => {
                    let c = sorted_unique_targets(candidates);
                    let node = DependencyNode::Ambiguous {
                        source_module: r.source_module.copy(),
                        requested: copy_string(requested),
                        candidates: c,
                    };
                    proof {
                        assert(canonical_targets(c@, candidates@));
                    }
                    Ok((source, node, DependencyRelationKind::Ambiguous))
                },
            }
        },
        DependencyResolutionOutcome::Unresolved { requested, reason } => {
            let node = DependencyNode::Unresolved {
                source_module: r.source_module.copy(),
                requested: copy_string(requested),
                reason: *reason,
            };
            Ok((source, node, DependencyRelationKind::Unresolved))
        },
        DependencyResolutionOutcome::ContextDependent { requested, candidates, unresolved_reasons } => {
            match check_candidates(lm, candidates) {
                Err(e) => Err(e),
                Ok(_) => {
                    let c = sorted_unique_targets(candidates);
                    let u = sorted_unique_reasons(unresolved_reasons);
                    let node = DependencyNode::ContextDependent {
                        source_module: r.source_module.copy(),
                        requested: copy_string(requested),
                        candidates: c,
                        unresolved_reasons: u,
                    };
                    proof {
                        assert(canonical_targets(c@, candidates@));
                        assert(canonical_reasons(u@, unresolved_reasons@));
                    }
                    Ok((source, node, DependencyRelationKind::ContextDependent))
                },
            }
        },
    }
}


// ---------------------------------------------------------------------
// Nodes.
// ---------------------------------------------------------------------

/// Nodes in strictly increasing key order.
pub open spec fn nodes_sorted(nodes: Seq<DependencyNode>) -> bool {
    forall|i: int, j: int|
        0 <= i < j < nodes.len() ==> key_compare(node_key(nodes[i]), node_key(nodes[j])) == -1
}

/// Some node has this key.
pub open spec fn node_listed(nodes: Seq<DependencyNode>, k: Seq<AtomView>) -> bool {
    exists|i: int| 0 <= i < nodes.len() && node_key(nodes[i]) == k
}

/// Some resolution target has this key.
pub open spec fn is_target_key(targets: Seq<DependencyNode>, k: Seq<AtomView>) -> bool {
    exists|i: int| 0 <= i < targets.len() && node_key(targets[i]) == k
}

/// The distinct nodes of the catalog and of the targets, in key order.
fn collect_nodes(lm: &Vec<LocalModule>, targets: &Vec<DependencyNode>) -> (r: (
    Vec<DependencyNode>,
    Vec<Vec<KeyAtom>>,
))
    ensures
        r.0.len() == r.1.len(),
        forall|k: int| 0 <= k < r.0.len() ==> key_view(#[trigger] r.1[k]@) == node_key(r.0[k]),
        nodes_sorted(r.0@),
        forall|j: int| 0 <= j < lm.len() ==> #[trigger] node_listed(r.0@, catalog_node_key(lm[j])),
        forall|i: int| 0 <= i < targets.len() ==> #[trigger] node_listed(r.0@, node_key(targets[i])),
        forall|k: int|
            0 <= k < r.0.len() ==> is_catalog_node(lm@, #[trigger] r.0[k]) || is_target_key(
                targets@,
                node_key(r.0[k]),
            ),
{
    let mut all: Vec<DependencyNode> = Vec::new();
    let mut keys: Vec<Vec<KeyAtom>> = Vec::new();
    let mut j: usize = 0;
    while j < lm.len()
        invariant
            j <= lm.len(),
            all.len() == j,
            keys.len() == j,
            forall|x: int| 0 <= x < j ==> node_key(#[trigger] all[x]) == catalog_node_key(lm[x]),
            forall|x: int| 0 <= x < j ==> key_view(#[trigger] keys[x]@) == node_key(all[x]),
        decreases lm.len() - j,
    {
        let n = DependencyNode::LocalModule(lm[j].copy());
        keys.push(n.key());
        all.push(n);
        j = j + 1;
    }
    let mut i: usize = 0;
    while i < targets.len()
        invariant
            i <= targets.len(),
            all.len() == lm.len() + i,
            keys.len() == all.len(),
            forall|x: int| 0 <= x < lm.len() ==> node_key(#[trigger] all[x]) == catalog_node_key(lm[x]),
            forall|x: int|
                0 <= x < i ==> node_key(#[trigger] all[lm.len() + x]) == node_key(targets[x]),
            forall|x: int| 0 <= x < all.len() ==> key_view(#[trigger] keys[x]@) == node_key(all[x]),
        decreases targets.len() - i,
    {
        let n = targets[i].copy();
        keys.push(n.key());
        all.push(n);
        i = i + 1;
    }
    let order = crate::order::unique_sorted_order(&keys);
    let mut nodes: Vec<DependencyNode> = Vec::new();
    let mut nkeys: Vec<Vec<KeyAtom>> = Vec::new();
    let mut p: usize = 0;
    while p < order.len()
        invariant
            p <= order.len(),
            nodes.len() == p,
            nkeys.len() == p,
            keys.len() == all.len(),
            forall|x: int| 0 <= x < order.len() ==> #[trigger] order[x] < keys.len(),
            forall|x: int| 0 <= x < all.len() ==> key_view(#[trigger] keys[x]@) == node_key(all[x]),
            forall|x: int| 0 <= x < p ==> node_key(#[trigger] nodes[x]) == node_key(all[order[x] as int]),
            forall|x: int| 0 <= x < p ==> key_view(#[trigger] nkeys[x]@) == node_key(nodes[x]),
        decreases order.len() - p,
    {
        let n = all[order[p]].copy();
        nkeys.push(n.key());
        nodes.push(n);
        p = p + 1;
    }
    proof {
        let kv = crate::order::keys_view(keys@);
        assert forall|x: int| 0 <= x < keys.len() implies #[trigger] kv[x] == node_key(all[x]) by {}
        assert forall|a: int, b: int| 0 <= a < b < nodes.len() implies key_compare(
            node_key(nodes[a]),
            node_key(nodes[b]),
        ) == -1 by {
            assert(kv[order[a] as int] == node_key(all[order[a] as int]));
            assert(kv[order[b] as int] == node_key(all[order[b] as int]));
        }
        assert forall|x: int| 0 <= x < lm.len() implies #[trigger] node_listed(nodes@, catalog_node_key(lm[x])) by {
            assert(covers_key(kv, order@, x));
            let q = choose|q: int| 0 <= q < order.len() && kv[order[q] as int] == kv[x];
            assert(node_key(nodes[q]) == node_key(all[order[q] as int]));
        }
        assert forall|x: int| 0 <= x < targets.len() implies #[trigger] node_listed(nodes@, node_key(targets[x])) by {
            let y = lm.len() + x;
            assert(node_key(all[y]) == node_key(targets[x]));
            assert(covers_key(kv, order@, y));
            let q = choose|q: int| 0 <= q < order.len() && kv[order[q] as int] == kv[y];
            assert(node_key(nodes[q]) == node_key(all[order[q] as int]));
        }
        assert forall|k: int| 0 <= k < nodes.len() implies is_catalog_node(lm@, #[trigger] nodes[k]) || is_target_key(
            targets@,
            node_key(nodes[k]),
        ) by {
            let y = order[k] as int;
            if y < lm.len() {
                assert(node_key(nodes[k]) == catalog_node_key(lm[y]));
            } else {
                assert(node_key(all[lm.len() + (y - lm.len())]) == node_key(targets[y - lm.len()]));
            }
        }
    }
    (nodes, nkeys)
}

/// The position of a key in a strictly increasing list of keys that holds it.
fn find_key(keys: &Vec<Vec<KeyAtom>>, k: &Vec<KeyAtom>) -> (r: usize)
    requires
        forall|i: int, j: int|
            0 <= i < j < keys.len() ==> key_compare(key_view(keys[i]@), key_view(keys[j]@)) == -1,
        exists|i: int| 0 <= i < keys.len() && key_view(keys[i]@) == key_view(k@),
    ensures
        r < keys.len(),
        key_view(keys[r as int]@) == key_view(k@),
{
    let ghost target = choose|i: int| 0 <= i < keys.len() && key_view(keys[i]@) == key_view(k@);
    let mut lo: usize = 0;
    let mut hi: usize = keys.len();
    while lo + 1 < hi
        invariant
            lo < hi <= keys.len(),
            lo <= target < hi,
            0 <= target < keys.len(),
            key_view(keys[target]@) == key_view(k@),
            forall|i: int, j: int|
                0 <= i < j < keys.len() ==> key_compare(key_view(keys[i]@), key_view(keys[j]@)) == -1,
        decreases hi - lo,
    {
        let mid = lo + (hi - lo) / 2;
        let c = crate::order::compare_keys(&keys[mid], k);
        proof {
            crate::order::lemma_key_facts(key_view(keys[mid as int]@), key_view(k@));
            if mid as int != target {
                crate::order::lemma_key_facts(key_view(keys[mid as int]@), key_view(keys[target]@));
            }
        }
        if c <= 0 {
            proof {
                if target < mid {
                    assert(key_compare(key_view(keys[target]@), key_view(keys[mid as int]@)) == -1);
                }
            }
            lo = mid;
        } else {
            proof {
                if target > mid {
                    assert(key_compare(key_view(keys[mid as int]@), key_view(keys[target]@)) == -1);
                }
            }
            hi = mid;
        }
    }
    lo
}


// ---------------------------------------------------------------------
// Relations and their evidence.
// ---------------------------------------------------------------------

/// Source node index, target node index and kind rank of resolution `i`.
pub open spec fn rel_triple(
    res: Seq<ProjectDependencyResolution>,
    src: Seq<usize>,
    tgt: Seq<usize>,
    i: int,
) -> (int, int, int) {
    (src[i] as int, tgt[i] as int, relation_rank(outcome_relation_kind(res[i].outcome)))
}

/// The key by which resolutions are grouped into relations and their
/// evidence ordered.
pub open spec fn grouping_key(
    res: Seq<ProjectDependencyResolution>,
    src: Seq<usize>,
    tgt: Seq<usize>,
    i: int,
) -> Seq<AtomView> {
    seq![
        AtomView::Num(src[i] as int),
        AtomView::Num(tgt[i] as int),
        AtomView::Num(relation_rank(outcome_relation_kind(res[i].outcome))),
    ] + evidence_key(res[i].source_path@, res[i].reference)
}

/// `order` lists the resolutions by grouping key; equal keys keep their
/// input order.
pub open spec fn grouping_order(
    res: Seq<ProjectDependencyResolution>,
    src: Seq<usize>,
    tgt: Seq<usize>,
    order: Seq<usize>,
) -> bool {
    &&& crate::order::is_permutation(order, res.len())
    &&& forall|p: int, q: int|
        0 <= p < q < order.len() ==> key_compare(
            grouping_key(res, src, tgt, order[p] as int),
            grouping_key(res, src, tgt, order[q] as int),
        ) <= 0
    &&& forall|p: int, q: int|
        0 <= p < q < order.len() && key_compare(
            grouping_key(res, src, tgt, order[p] as int),
            grouping_key(res, src, tgt, order[q] as int),
        ) == 0 ==> order[p] < order[q]
}

/// Where the run of relation `p` ends.
pub open spec fn run_end(starts: Seq<int>, p: int, n: int) -> int {
    if p + 1 < starts.len() {
        starts[p + 1]
    } else {
        n
    }
}

/// Relation `rel` is the run of `order` from `s` to `e`.
pub open spec fn relation_is_run(
    rel: DependencyRelation,
    res: Seq<ProjectDependencyResolution>,
    nodes: Seq<DependencyNode>,
    src: Seq<usize>,
    tgt: Seq<usize>,
    order: Seq<usize>,
    s: int,
    e: int,
) -> bool {
    let i = order[s] as int;
    &&& node_key(rel.source) == node_key(nodes[src[i] as int])
    &&& node_key(rel.target) == node_key(nodes[tgt[i] as int])
    &&& rel.kind == outcome_relation_kind(res[i].outcome)
    &&& rel.evidence.len() == e - s
    &&& forall|q: int|
        0 <= q < e - s ==> (#[trigger] rel.evidence[q])@ == resolution_evidence(res[order[s + q] as int])
    &&& forall|q: int| s <= q < e ==> rel_triple(res, src, tgt, #[trigger] order[q] as int) == rel_triple(
        res,
        src,
        tgt,
        i,
    )
}

/// The relations are the maximal runs of equal source, target and kind in
/// `order`, in that order.
pub open spec fn relations_are_runs(
    rels: Seq<DependencyRelation>,
    res: Seq<ProjectDependencyResolution>,
    nodes: Seq<DependencyNode>,
    src: Seq<usize>,
    tgt: Seq<usize>,
    order: Seq<usize>,
    starts: Seq<int>,
) -> bool {
    &&& starts.len() == rels.len()
    &&& (res.len() == 0) == (rels.len() == 0)
    &&& rels.len() > 0 ==> starts[0] == 0
    &&& forall|p: int, q: int| 0 <= p < q < starts.len() ==> starts[p] < starts[q]
    &&& forall|p: int| 0 <= p < starts.len() ==> #[trigger] starts[p] < res.len()
    &&& forall|p: int|
        0 <= p < rels.len() ==> relation_is_run(
            #[trigger] rels[p],
            res,
            nodes,
            src,
            tgt,
            order,
            starts[p],
            run_end(starts, p, res.len() as int),
        )
    &&& forall|p: int|
        0 < p < starts.len() ==> rel_triple(res, src, tgt, order[#[trigger] starts[p]] as int) != rel_triple(
            res,
            src,
            tgt,
            order[starts[p] - 1] as int,
        )
}

fn resolution_evidence_of(r: &ProjectDependencyResolution) -> (e: GraphEvidence)
    ensures
        e@ == resolution_evidence(*r),
{
    GraphEvidence { source_path: copy_string(&r.source_path), reference: r.reference.copy() }
}

fn same_triple(
    src: &Vec<usize>,
    tgt: &Vec<usize>,
    kinds: &Vec<DependencyRelationKind>,
    a: usize,
    b: usize,
) -> (r: bool)
    requires
        a < src.len(),
        b < src.len(),
        src.len() == tgt.len(),
        src.len() == kinds.len(),
    ensures
        r == (src[a as int] == src[b as int] && tgt[a as int] == tgt[b as int] && kinds[a as int]
            == kinds[b as int]),
{
    src[a] == src[b] && tgt[a] == tgt[b] && kinds[a] == kinds[b]
}

/// One relation per run of `order`.
fn build_relations(
    res: &Vec<ProjectDependencyResolution>,
    nodes: &Vec<DependencyNode>,
    src: &Vec<usize>,
    tgt: &Vec<usize>,
    kinds: &Vec<DependencyRelationKind>,
    order: &Vec<usize>,
) -> (r: (Vec<DependencyRelation>, Ghost<Seq<int>>))
    requires
        src.len() == res.len(),
        tgt.len() == res.len(),
        kinds.len() == res.len(),
        forall|i: int| 0 <= i < res.len() ==> #[trigger] src[i] < nodes.len() && tgt[i] < nodes.len(),
        forall|i: int| 0 <= i < res.len() ==> #[trigger] kinds[i] == outcome_relation_kind(res[i].outcome),
        crate::order::is_permutation(order@, res.len() as nat),
    ensures
        relations_are_runs(r.0@, res@, nodes@, src@, tgt@, order@, r.1@),
{
    let n = res.len();
    let mut rels: Vec<DependencyRelation> = Vec::new();
    let ghost mut starts: Seq<int> = Seq::empty();
    let mut q: usize = 0;
    while q < n
        invariant
            n == res.len(),
            q <= n,
            order.len() == n,
            src.len() == n,
            tgt.len() == n,
            kinds.len() == n,
            forall|i: int| 0 <= i < n ==> #[trigger] src[i] < nodes.len() && tgt[i] < nodes.len(),
            forall|i: int| 0 <= i < n ==> #[trigger] kinds[i] == outcome_relation_kind(res[i].outcome),
            forall|x: int| 0 <= x < n ==> #[trigger] order[x] < n,
            starts.len() == rels.len(),
            (q == 0) == (rels.len() == 0),
            rels.len() > 0 ==> starts[0] == 0,
            rels.len() > 0 ==> starts[rels.len() - 1] < q,
            forall|p: int, p2: int| 0 <= p < p2 < starts.len() ==> starts[p] < starts[p2],
            forall|p: int| 0 <= p < starts.len() ==> #[trigger] starts[p] < n,
            forall|p: int|
                0 <= p < rels.len() ==> relation_is_run(
                    #[trigger] rels[p],
                    res@,
                    nodes@,
                    src@,
                    tgt@,
                    order@,
                    starts[p],
                    run_end(starts, p, q as int),
                ),
            forall|p: int|
                0 < p < starts.len() ==> rel_triple(res@, src@, tgt@, order[#[trigger] starts[p]] as int)
                    != rel_triple(res@, src@, tgt@, order[starts[p] - 1] as int),
            0 < q < n ==> rel_triple(res@, src@, tgt@, order[q as int] as int) != rel_triple(
                res@,
                src@,
                tgt@,
                order[q - 1] as int,
            ),
        decreases n - q,
    {
        let start = q;
        let i = order[q];
        let mut evidence: Vec<GraphEvidence> = Vec::new();
        evidence.push(resolution_evidence_of(&res[i]));
        q = q + 1;
        while q < n && same_triple(src, tgt, kinds, order[q], i)
            invariant
                n == res.len(),
                start < q <= n,
                i == order[start as int],
                i < n,
                order.len() == n,
                src.len() == n,
                tgt.len() == n,
                kinds.len() == n,
                forall|x: int| 0 <= x < n ==> #[trigger] order[x] < n,
                forall|i2: int| 0 <= i2 < n ==> #[trigger] kinds[i2] == outcome_relation_kind(res[i2].outcome),
                evidence.len() == q - start,
                forall|x: int|
                    0 <= x < q - start ==> (#[trigger] evidence[x])@ == resolution_evidence(
                        res[order[start + x] as int],
                    ),
                forall|x: int|
                    start <= x < q ==> rel_triple(res@, src@, tgt@, #[trigger] order[x] as int)
                        == rel_triple(res@, src@, tgt@, i as int),
            decreases n - q,
        {
            evidence.push(resolution_evidence_of(&res[order[q]]));
            q = q + 1;
        }
        let rel = DependencyRelation {
            source: nodes[src[i]].copy(),
            target: nodes[tgt[i]].copy(),
            kind: kinds[i],
            evidence,
        };
        let ghost old_starts = starts;
        let ghost old_rels = rels@;
        rels.push(rel);
        proof {
            starts = starts.push(start as int);
            assert forall|p: int|
                0 <= p < rels.len() implies relation_is_run(
                #[trigger] rels[p],
                res@,
                nodes@,
                src@,
                tgt@,
                order@,
                starts[p],
                run_end(starts, p, q as int),
            ) by {
                if p < old_rels.len() {
                    assert(rels[p] == old_rels[p]);
                    assert(starts[p] == old_starts[p]);
                    if p + 1 < old_starts.len() {
                        assert(run_end(starts, p, q as int) == run_end(old_starts, p, start as int));
                    } else {
                        assert(run_end(starts, p, q as int) == start);
                    }
                }
            }
            assert forall|p: int|
                0 < p < starts.len() implies rel_triple(res@, src@, tgt@, order[#[trigger] starts[p]] as int)
                != rel_triple(res@, src@, tgt@, order[starts[p] - 1] as int) by {
                if p < old_starts.len() {
                    assert(starts[p] == old_starts[p]);
                }
            }
        }
    }
    (rels, Ghost(starts))
}


// ---------------------------------------------------------------------
// Exact edges, fan-in and fan-out.
// ---------------------------------------------------------------------

/// Some exact resolution goes from node `a` to node `b`.
pub open spec fn exact_edge(
    res: Seq<ProjectDependencyResolution>,
    src: Seq<usize>,
    tgt: Seq<usize>,
    a: usize,
    b: usize,
) -> bool {
    exists|i: int| 0 <= i < res.len() && (#[trigger] res[i]).outcome is Exact && src[i] == a && tgt[i] == b
}

/// The nodes that node `a` depends on exactly.
pub open spec fn fan_out_set(
    res: Seq<ProjectDependencyResolution>,
    src: Seq<usize>,
    tgt: Seq<usize>,
    a: usize,
) -> Set<usize> {
    Set::new(|b: usize| exact_edge(res, src, tgt, a, b))
}

/// The nodes that depend exactly on node `b`.
pub open spec fn fan_in_set(
    res: Seq<ProjectDependencyResolution>,
    src: Seq<usize>,
    tgt: Seq<usize>,
    b: usize,
) -> Set<usize> {
    Set::new(|a: usize| exact_edge(res, src, tgt, a, b))
}

/// Each node's metrics, in node order.
pub open spec fn metrics_ok(
    metrics: Seq<DependencyNodeMetrics>,
    nodes: Seq<DependencyNode>,
    res: Seq<ProjectDependencyResolution>,
    src: Seq<usize>,
    tgt: Seq<usize>,
) -> bool {
    &&& metrics.len() == nodes.len()
    &&& forall|k: int|
        0 <= k < metrics.len() ==> {
            &&& node_key((#[trigger] metrics[k]).node) == node_key(nodes[k])
            &&& metrics[k].fan_out == fan_out_set(res, src, tgt, k as usize).len()
            &&& metrics[k].fan_in == fan_in_set(res, src, tgt, k as usize).len()
        }
}

pub open spec fn pairs_distinct(e: Seq<(usize, usize)>) -> bool {
    forall|i: int, j: int| 0 <= i < j < e.len() ==> e[i] != e[j]
}

pub open spec fn count_out(e: Seq<(usize, usize)>, a: usize) -> nat
    decreases e.len(),
{
    if e.len() == 0 {
        0
    } else {
        count_out(e.drop_last(), a) + if e.last().0 == a {
            1nat
        } else {
            0nat
        }
    }
}

pub open spec fn count_in(e: Seq<(usize, usize)>, b: usize) -> nat
    decreases e.len(),
{
    if e.len() == 0 {
        0
    } else {
        count_in(e.drop_last(), b) + if e.last().1 == b {
            1nat
        } else {
            0nat
        }
    }
}

proof fn lemma_count_out(e: Seq<(usize, usize)>, a: usize)
    requires
        pairs_distinct(e),
    ensures
        Set::new(|b: usize| e.contains((a, b))).finite(),
        Set::new(|b: usize| e.contains((a, b))).len() == count_out(e, a),
    decreases e.len(),
{
    let s = Set::new(|b: usize| e.contains((a, b)));
    if e.len() == 0 {
        assert(s =~= Set::<usize>::empty());
    } else {
        let f = e.drop_last();
        let x = e.last();
        assert(pairs_distinct(f));
        lemma_count_out(f, a);
        let t = Set::new(|b: usize| f.contains((a, b)));
        if x.0 == a {
            assert forall|b: usize| s.contains(b) <==> t.insert(x.1).contains(b) by {
                if e.contains((a, b)) {
                    let i = choose|i: int| 0 <= i < e.len() && e[i] == (a, b);
                    if i < f.len() {
                        assert(f[i] == (a, b));
                    }
                }
                if f.contains((a, b)) {
                    let i = choose|i: int| 0 <= i < f.len() && f[i] == (a, b);
                    assert(e[i] == (a, b));
                }
                if b == x.1 {
                    assert(e[e.len() - 1] == (a, b));
                }
            }
            assert(s =~= t.insert(x.1));
            if t.contains(x.1) {
                let i = choose|i: int| 0 <= i < f.len() && f[i] == (a, x.1);
                assert(e[i] == e[e.len() - 1]);
            }
        } else {
            assert forall|b: usize| s.contains(b) <==> t.contains(b) by {
                if e.contains((a, b)) {
                    let i = choose|i: int| 0 <= i < e.len() && e[i] == (a, b);
                    if i < f.len() {
                        assert(f[i] == (a, b));
                    }
                }
                if f.contains((a, b)) {
                    let i = choose|i: int| 0 <= i < f.len() && f[i] == (a, b);
                    assert(e[i] == (a, b));
                }
            }
            assert(s =~= t);
        }
    }
}

proof fn lemma_count_in(e: Seq<(usize, usize)>, b: usize)
    requires
        pairs_distinct(e),
    ensures
        Set::new(|a: usize| e.contains((a, b))).finite(),
        Set::new(|a: usize| e.contains((a, b))).len() == count_in(e, b),
    decreases e.len(),
{
    let s = Set::new(|a: usize| e.contains((a, b)));
    if e.len() == 0 {
        assert(s =~= Set::<usize>::empty());
    } else {
        let f = e.drop_last();
        let x = e.last();
        assert(pairs_distinct(f));
        lemma_count_in(f, b);
        let t = Set::new(|a: usize| f.contains((a, b)));
        if x.1 == b {
            assert forall|a: usize| s.contains(a) <==> t.insert(x.0).contains(a) by {
                if e.contains((a, b)) {
                    let i = choose|i: int| 0 <= i < e.len() && e[i] == (a, b);
                    if i < f.len() {
                        assert(f[i] == (a, b));
                    }
                }
                if f.contains((a, b)) {
                    let i = choose|i: int| 0 <= i < f.len() && f[i] == (a, b);
                    assert(e[i] == (a, b));
                }
                if a == x.0 {
                    assert(e[e.len() - 1] == (a, b));
                }
            }
            assert(s =~= t.insert(x.0));
            if t.contains(x.0) {
                let i = choose|i: int| 0 <= i < f.len() && f[i] == (x.0, b);
                assert(e[i] == e[e.len() - 1]);
            }
        } else {
            assert forall|a: usize| s.contains(a) <==> t.contains(a) by {
                if e.contains((a, b)) {
                    let i = choose|i: int| 0 <= i < e.len() && e[i] == (a, b);
                    if i < f.len() {
                        assert(f[i] == (a, b));
                    }
                }
                if f.contains((a, b)) {
                    let i = choose|i: int| 0 <= i < f.len() && f[i] == (a, b);
                    assert(e[i] == (a, b));
                }
            }
            assert(s =~= t);
        }
    }
}

/// The distinct exact edges, as pairs of node indices.
fn exact_edges(res: &Vec<ProjectDependencyResolution>, src: &Vec<usize>, tgt: &Vec<usize>) -> (e: Vec<(usize, usize)>)
    requires
        src.len() == res.len(),
        tgt.len() == res.len(),
    ensures
        pairs_distinct(e@),
        forall|a: usize, b: usize| #[trigger] e@.contains((a, b)) <==> exact_edge(res@, src@, tgt@, a, b),
{
    let mut keys: Vec<Vec<KeyAtom>> = Vec::new();
    let mut pairs: Vec<(usize, usize)> = Vec::new();
    let mut i: usize = 0;
    while i < res.len()
        invariant
            i <= res.len(),
            src.len() == res.len(),
            tgt.len() == res.len(),
            keys.len() == pairs.len(),
            forall|x: int|
                0 <= x < pairs.len() ==> key_view(#[trigger] keys[x]@) == seq![
                    AtomView::Num(pairs[x].0 as int),
                    AtomView::Num(pairs[x].1 as int),
                ],
            forall|x: int| 0 <= x < pairs.len() ==> exact_edge(res@, src@, tgt@, (#[trigger] pairs[x]).0, pairs[x].1),
            forall|y: int|
                0 <= y < i && (#[trigger] res[y]).outcome is Exact ==> pairs@.contains((src[y], tgt[y])),
        decreases res.len() - i,
    {
        if res[i].outcome.is_exact() {
            let mut k: Vec<KeyAtom> = Vec::new();
            crate::dependencies::push_num_atom(&mut k, src[i] as u64);
            crate::dependencies::push_num_atom(&mut k, tgt[i] as u64);
            proof {
                assert(key_view(k@) =~= seq![AtomView::Num(src[i as int] as int), AtomView::Num(tgt[i as int] as int)]);
            }
            keys.push(k);
            let ghost old_pairs = pairs@;
            pairs.push((src[i], tgt[i]));
            proof {
                assert(pairs@[pairs.len() - 1] == (src[i as int], tgt[i as int]));
                assert forall|y: int|
                    0 <= y < i && (#[trigger] res[y]).outcome is Exact implies pairs@.contains((src[y], tgt[y])) by {
                    let z = choose|z: int| 0 <= z < old_pairs.len() && old_pairs[z] == (src[y], tgt[y]);
                    assert(pairs@[z] == old_pairs[z]);
                }
                assert(exact_edge(res@, src@, tgt@, src[i as int], tgt[i as int]));
            }
        }
        i = i + 1;
    }
    let order = crate::order::unique_sorted_order(&keys);
    let mut e: Vec<(usize, usize)> = Vec::new();
    let mut p: usize = 0;
    while p < order.len()
        invariant
            p <= order.len(),
            e.len() == p,
            keys.len() == pairs.len(),
            forall|x: int| 0 <= x < order.len() ==> #[trigger] order[x] < keys.len(),
            forall|x: int| 0 <= x < p ==> #[trigger] e[x] == pairs[order[x] as int],
        decreases order.len() - p,
    {
        e.push(pairs[order[p]]);
        p = p + 1;
    }
    proof {
        let kv = crate::order::keys_view(keys@);
        assert forall|x: int| 0 <= x < keys.len() implies #[trigger] kv[x] == seq![
            AtomView::Num(pairs[x].0 as int),
            AtomView::Num(pairs[x].1 as int),
        ] by {}
        assert forall|x: int, y: int| 0 <= x < y < e.len() implies e[x] != e[y] by {
            assert(key_compare(kv[order[x] as int], kv[order[y] as int]) == -1);
            crate::order::lemma_key_facts(kv[order[x] as int], kv[order[y] as int]);
            if e[x] == e[y] {
                assert(kv[order[x] as int] =~= kv[order[y] as int]);
            }
        }
        assert forall|a: usize, b: usize| #[trigger] e@.contains((a, b)) <==> exact_edge(res@, src@, tgt@, a, b) by {
            if e@.contains((a, b)) {
                let x = choose|x: int| 0 <= x < e.len() && e[x] == (a, b);
                assert(pairs[order[x] as int] == (a, b));
            }
            if exact_edge(res@, src@, tgt@, a, b) {
                let y = choose|y: int| 0 <= y < res.len() && (#[trigger] res[y]).outcome is Exact && src[y] == a && tgt[y] == b;
                assert(pairs@.contains((src[y], tgt[y])));
                let z = choose|z: int| 0 <= z < pairs.len() && pairs[z] == (a, b);
                assert(covers_key(kv, order@, z));
                let x = choose|x: int| 0 <= x < order.len() && kv[order[x] as int] == kv[z];
                let w = order[x] as int;
                assert(kv[w] == kv[z]);
                assert(kv[w][0] == AtomView::Num(pairs[w].0 as int));
                assert(kv[w][1] == AtomView::Num(pairs[w].1 as int));
                assert(pairs[w] == pairs[z]);
                assert(e[x] == (a, b));
            }
        }
    }
    e
}

/// Fan-in and fan-out of every node.
fn build_metrics(
    nodes: &Vec<DependencyNode>,
    edges: &Vec<(usize, usize)>,
    res: Ghost<Seq<ProjectDependencyResolution>>,
    src: Ghost<Seq<usize>>,
    tgt: Ghost<Seq<usize>>,
) -> (m: Vec<DependencyNodeMetrics>)
    requires
        pairs_distinct(edges@),
        forall|a: usize, b: usize| #[trigger] edges@.contains((a, b)) <==> exact_edge(res@, src@, tgt@, a, b),
        forall|x: int| 0 <= x < edges.len() ==> (#[trigger] edges[x]).0 < nodes.len() && edges[x].1 < nodes.len(),
    ensures
        metrics_ok(m@, nodes@, res@, src@, tgt@),
{
    let n = nodes.len();
    let mut fan_out: Vec<usize> = Vec::new();
    let mut fan_in: Vec<usize> = Vec::new();
    let mut k: usize = 0;
    while k < n
        invariant
            k <= n,
            fan_out.len() == k,
            fan_in.len() == k,
            forall|x: int| 0 <= x < k ==> fan_out[x] == 0 && fan_in[x] == 0,
        decreases n - k,
    {
        fan_out.push(0);
        fan_in.push(0);
        k = k + 1;
    }
    proof {
        assert forall|x: int| 0 <= x < n implies fan_out[x] == count_out(edges@.take(0), x as usize) && fan_in[x]
            == count_in(edges@.take(0), x as usize) by {}
    }
    let mut e: usize = 0;
    while e < edges.len()
        invariant
            e <= edges.len(),
            n == nodes.len(),
            fan_out.len() == n,
            fan_in.len() == n,
            forall|x: int| 0 <= x < edges.len() ==> (#[trigger] edges[x]).0 < n && edges[x].1 < n,
            forall|x: int|
                0 <= x < n ==> #[trigger] fan_out[x] == count_out(edges@.take(e as int), x as usize)
                    && fan_in[x] == count_in(edges@.take(e as int), x as usize),
            forall|x: int| 0 <= x < n ==> #[trigger] fan_out[x] <= e,
            forall|x: int| 0 <= x < n ==> #[trigger] fan_in[x] <= e,
        decreases edges.len() - e,
    {
        let (a, b) = edges[e];
        proof {
            assert(edges@.take(e + 1).drop_last() =~= edges@.take(e as int));
            assert(edges@.take(e + 1).last() == edges[e as int]);
        }
        let ghost old_out = fan_out@;
        let ghost old_in = fan_in@;
        proof {
            assert forall|x: int| 0 <= x < n implies old_out[x] == count_out(edges@.take(e as int), x as usize)
                && old_in[x] == count_in(edges@.take(e as int), x as usize) by {
                assert(old_out[x] == fan_out[x]);
            }
        }
        let fa = fan_out[a] + 1;
        fan_out.set(a, fa);
        let fb = fan_in[b] + 1;
        fan_in.set(b, fb);
        proof {
            let t = edges@.take(e + 1);
            assert forall|x: int| 0 <= x < n implies #[trigger] fan_out[x] == count_out(t, x as usize) && fan_in[x]
                == count_in(t, x as usize) by {
                assert(t.drop_last() =~= edges@.take(e as int));
                assert(t.last() == (a, b));
            }
        }
        e = e + 1;
    }
    proof {
        assert(edges@.take(edges.len() as int) =~= edges@);
    }
    let mut m: Vec<DependencyNodeMetrics> = Vec::new();
    let mut k: usize = 0;
    while k < n
        invariant
            k <= n,
            n == nodes.len(),
            fan_out.len() == n,
            fan_in.len() == n,
            m.len() == k,
            forall|x: int|
                0 <= x < n ==> #[trigger] fan_out[x] == count_out(edges@, x as usize) && fan_in[x]
                    == count_in(edges@, x as usize),
            forall|x: int|
                0 <= x < k ==> {
                    &&& node_key((#[trigger] m[x]).node) == node_key(nodes[x])
                    &&& m[x].fan_out == fan_out_set(res@, src@, tgt@, x as usize).len()
                    &&& m[x].fan_in == fan_in_set(res@, src@, tgt@, x as usize).len()
                },
            pairs_distinct(edges@),
            forall|a: usize, b: usize| #[trigger] edges@.contains((a, b)) <==> exact_edge(res@, src@, tgt@, a, b),
        decreases n - k,
    {
        proof {
            lemma_count_out(edges@, k);
            lemma_count_in(edges@, k);
            assert(Set::new(|b: usize| edges@.contains((k, b))) =~= fan_out_set(res@, src@, tgt@, k));
            assert(Set::new(|a: usize| edges@.contains((a, k))) =~= fan_in_set(res@, src@, tgt@, k));
        }
        m.push(DependencyNodeMetrics { node: nodes[k].copy(), fan_in: fan_in[k], fan_out: fan_out[k] });
        k = k + 1;
    }
    m
}


// ---------------------------------------------------------------------
// Strongly connected components.
// ---------------------------------------------------------------------

/// A walk along `edge`: one or more vertices, each joined to the next.
pub open spec fn is_walk(edge: spec_fn(usize, usize) -> bool, p: Seq<usize>) -> bool {
    &&& p.len() >= 1
    &&& forall|k: int| #![trigger p[k]] 0 <= k < p.len() - 1 ==> edge(p[k], p[k + 1])
}

/// `b` can be reached from `a` along `edge` (every vertex reaches itself).
pub open spec fn reaches(edge: spec_fn(usize, usize) -> bool, a: usize, b: usize) -> bool {
    exists|p: Seq<usize>| #[trigger] is_walk(edge, p) && p[0] == a && p.last() == b
}

/// The edges of a list of pairs.
pub open spec fn list_edge_fn(edges: Seq<(usize, usize)>) -> spec_fn(usize, usize) -> bool {
    |a: usize, b: usize| edges.contains((a, b))
}

/// The exact edges between node indices.
pub open spec fn exact_edge_fn(
    res: Seq<ProjectDependencyResolution>,
    src: Seq<usize>,
    tgt: Seq<usize>,
) -> spec_fn(usize, usize) -> bool {
    |a: usize, b: usize| exact_edge(res, src, tgt, a, b)
}

/// Vertex `a` lies in component `x`.
pub open spec fn in_component(c: Seq<Seq<usize>>, x: int, a: usize) -> bool {
    0 <= x < c.len() && c[x].contains(a)
}

/// Vertex `a` lies in some component.
pub open spec fn has_component(c: Seq<Seq<usize>>, a: usize) -> bool {
    exists|x: int| #[trigger] in_component(c, x, a)
}

/// `c` is the partition of the vertices below `n` into the strongly
/// connected components of `edge`.
pub open spec fn is_scc_partition(c: Seq<Seq<usize>>, n: nat, edge: spec_fn(usize, usize) -> bool) -> bool {
    &&& forall|x: int| 0 <= x < c.len() ==> (#[trigger] c[x]).len() > 0
    &&& forall|x: int, m: int| 0 <= x < c.len() && 0 <= m < c[x].len() ==> #[trigger] c[x][m] < n
    &&& forall|x1: int, m1: int, x2: int, m2: int|
        0 <= x1 < c.len() && 0 <= m1 < c[x1].len() && 0 <= x2 < c.len() && 0 <= m2 < c[x2].len()
            && #[trigger] c[x1][m1] == #[trigger] c[x2][m2] ==> x1 == x2 && m1 == m2
    &&& forall|a: usize| a < n ==> #[trigger] has_component(c, a)
    &&& forall|x: int, a: usize, b: usize|
        #[trigger] in_component(c, x, a) && #[trigger] in_component(c, x, b) ==> reaches(edge, a, b)
    &&& forall|x: int, a: usize, b: usize|
        #[trigger] in_component(c, x, a) && b < n && reaches(edge, a, b) && reaches(edge, b, a)
            ==> #[trigger] in_component(c, x, b)
}

/// The strongly connected components of the directed graph on the vertices
/// below `n` with the given edges, computed by `petgraph::algo::tarjan_scc`.
/// What is claimed: each vertex lies in exactly one component, once, and
/// two vertices share a component exactly when each reaches the other; this
/// is what a strongly connected component is. The order of the components
/// and of the vertices in each is left unsaid.
#[verifier::external_body]
fn strongly_connected_components(n: usize, edges: &Vec<(usize, usize)>) -> (c: Vec<Vec<usize>>)
    requires
        forall|e: int| 0 <= e < edges.len() ==> (#[trigger] edges[e]).0 < n && edges[e].1 < n,
    ensures
        is_scc_partition(c@.map_values(|v: Vec<usize>| v@), n as nat, list_edge_fn(edges@)),
{
    let mut graph = petgraph::graph::DiGraph::<(), (), usize>::with_capacity(n, edges.len());
    for _ in 0..n {
        graph.add_node(());
    }
    for &(a, b) in edges.iter() {
        graph.add_edge(petgraph::graph::NodeIndex::new(a), petgraph::graph::NodeIndex::new(b), ());
    }
    petgraph::algo::tarjan_scc(&graph).into_iter().map(|scc| scc.into_iter().map(|v| v.index()).collect()).collect()
}


/// The components of the catalog vertices: `mem[c]` holds the node indices
/// of component `c`, ascending, and components come in the order of their
/// least member.
pub open spec fn sccs_ok(
    nodes: Seq<DependencyNode>,
    edge: spec_fn(usize, usize) -> bool,
    cat: Seq<bool>,
    sccs: Seq<DependencyScc>,
    mem: Seq<Seq<usize>>,
) -> bool {
    &&& sccs.len() == mem.len()
    &&& forall|c: int|
        0 <= c < mem.len() ==> (#[trigger] mem[c]).len() > 0 && mem[c].len() == sccs[c].members.len()
    &&& forall|c: int, m: int|
        0 <= c < mem.len() && 0 <= m < mem[c].len() ==> {
            &&& #[trigger] mem[c][m] < nodes.len()
            &&& cat[mem[c][m] as int]
            &&& node_key(sccs[c].members[m]) == node_key(nodes[mem[c][m] as int])
        }
    &&& forall|k: usize| k < nodes.len() && cat[k as int] ==> #[trigger] has_component(mem, k)
    &&& forall|c1: int, m1: int, c2: int, m2: int|
        0 <= c1 < mem.len() && 0 <= m1 < mem[c1].len() && 0 <= c2 < mem.len() && 0 <= m2 < mem[c2].len()
            && #[trigger] mem[c1][m1] == #[trigger] mem[c2][m2] ==> c1 == c2 && m1 == m2
    &&& forall|c: int, m1: int, m2: int|
        0 <= c < mem.len() && 0 <= m1 < m2 < mem[c].len() ==> #[trigger] mem[c][m1] < #[trigger] mem[c][m2]
    &&& forall|c1: int, c2: int| 0 <= c1 < c2 < mem.len() ==> #[trigger] mem[c1][0] < #[trigger] mem[c2][0]
    &&& forall|c: int, a: usize, b: usize|
        #[trigger] in_component(mem, c, a) && #[trigger] in_component(mem, c, b) ==> reaches(edge, a, b)
    &&& forall|c: int, a: usize, b: usize|
        #[trigger] in_component(mem, c, a) && b < nodes.len() && reaches(edge, a, b) && reaches(edge, b, a)
            ==> #[trigger] in_component(mem, c, b)
    &&& forall|c: int|
        0 <= c < sccs.len() ==> (#[trigger] sccs[c]).cyclic == (mem[c].len() > 1 || edge(mem[c][0], mem[c][0]))
}

/// A vertex that reaches another has an outgoing edge.
proof fn lemma_reach_leaves(edge: spec_fn(usize, usize) -> bool, a: usize, b: usize)
    requires
        reaches(edge, a, b),
        a != b,
    ensures
        exists|y: usize| #[trigger] edge(a, y),
{
    let p = choose|p: Seq<usize>| #[trigger] is_walk(edge, p) && p[0] == a && p.last() == b;
    assert(p.len() >= 2);
    assert(edge(p[0], p[1]));
}

/// A vertex of a list of pairs with an outgoing edge is a source of the list.
proof fn lemma_edge_source(edges: Seq<(usize, usize)>, cat: Seq<bool>, a: usize)
    requires
        forall|e: int| 0 <= e < edges.len() ==> cat[(#[trigger] edges[e]).0 as int],
        exists|y: usize| #[trigger] list_edge_fn(edges)(a, y),
    ensures
        cat[a as int],
{
    let y = choose|y: usize| #[trigger] list_edge_fn(edges)(a, y);
    assert(edges.contains((a, y)));
    let e = choose|e: int| 0 <= e < edges.len() && edges[e] == (a, y);
    assert(cat[edges[e].0 as int]);
}

pub(crate) fn copy_scc(s: &DependencyScc) -> (r: DependencyScc)
    ensures
        r.cyclic == s.cyclic,
        r.members.len() == s.members.len(),
        forall|m: int| 0 <= m < r.members.len() ==> node_key(#[trigger] r.members[m]) == node_key(s.members[m]),
{
    let mut members: Vec<DependencyNode> = Vec::new();
    let mut m: usize = 0;
    while m < s.members.len()
        invariant
            m <= s.members.len(),
            members.len() == m,
            forall|x: int| 0 <= x < m ==> node_key(#[trigger] members[x]) == node_key(s.members[x]),
        decreases s.members.len() - m,
    {
        members.push(s.members[m].copy());
        m = m + 1;
    }
    DependencyScc { members, cyclic: s.cyclic }
}

/// The components of the catalog vertices, from the components of the whole
/// graph.
fn build_sccs(nodes: &Vec<DependencyNode>, edges: &Vec<(usize, usize)>, cat: &Vec<bool>) -> (r: (
    Vec<DependencyScc>,
    Ghost<Seq<Seq<usize>>>,
))
    requires
        cat.len() == nodes.len(),
        forall|e: int| 0 <= e < edges.len() ==> (#[trigger] edges[e]).0 < nodes.len() && edges[e].1 < nodes.len(),
        forall|e: int| 0 <= e < edges.len() ==> cat[(#[trigger] edges[e]).0 as int],
    ensures
        sccs_ok(nodes@, list_edge_fn(edges@), cat@, r.0@, r.1@),
{
    let n = nodes.len();
    let ghost edge = list_edge_fn(edges@);
    let comps = strongly_connected_components(n, edges);
    let ghost cv = comps@.map_values(|v: Vec<usize>| v@);
    assert(is_scc_partition(cv, n as nat, edge));
    // Which component each vertex lies in.
    let mut comp_of: Vec<usize> = Vec::new();
    let mut k: usize = 0;
    while k < n
        invariant
            k <= n,
            comp_of.len() == k,
        decreases n - k,
    {
        comp_of.push(0);
        k = k + 1;
    }
    let mut x: usize = 0;
    while x < comps.len()
        invariant
            n == nodes.len(),
            x <= comps.len(),
            comp_of.len() == n,
            cv == comps@.map_values(|v: Vec<usize>| v@),
            is_scc_partition(cv, n as nat, edge),
            forall|x2: int, m: int| 0 <= x2 < x && 0 <= m < cv[x2].len() ==> comp_of[#[trigger] cv[x2][m] as int] == x2,
        decreases comps.len() - x,
    {
        let mut m: usize = 0;
        while m < comps[x].len()
            invariant
                n == nodes.len(),
                x < comps.len(),
                m <= comps[x as int].len(),
                comp_of.len() == n,
                cv == comps@.map_values(|v: Vec<usize>| v@),
                is_scc_partition(cv, n as nat, edge),
                forall|x2: int, m2: int| 0 <= x2 < x && 0 <= m2 < cv[x2].len() ==> comp_of[#[trigger] cv[x2][m2] as int] == x2,
                forall|m2: int| 0 <= m2 < m ==> comp_of[#[trigger] cv[x as int][m2] as int] == x,
            decreases comps[x as int].len() - m,
        {
            let v = comps[x][m];
            proof {
                assert(cv[x as int][m as int] == v);
                assert(v < n);
            }
            let ghost before = comp_of@;
            comp_of.set(v, x);
            proof {
                assert forall|x2: int, m2: int| 0 <= x2 < x && 0 <= m2 < cv[x2].len() implies comp_of[#[trigger] cv[x2][m2] as int] == x2 by {
                    if cv[x2][m2] == v {
                        assert(cv[x as int][m as int] == v);
                    }
                    assert(before[cv[x2][m2] as int] == x2);
                }
                assert forall|m2: int| 0 <= m2 < m + 1 implies comp_of[#[trigger] cv[x as int][m2] as int] == x by {
                    if m2 < m {
                        if cv[x as int][m2] == v {
                            assert(cv[x as int][m as int] == v);
                        }
                        assert(before[cv[x as int][m2] as int] == x);
                    }
                }
            }
            m = m + 1;
        }
        x = x + 1;
    }
    // Whether a vertex has an edge to itself.
    let mut self_loop: Vec<bool> = Vec::new();
    let mut k: usize = 0;
    while k < n
        invariant
            k <= n,
            self_loop.len() == k,
            forall|y: int| 0 <= y < k ==> !self_loop[y],
        decreases n - k,
    {
        self_loop.push(false);
        k = k + 1;
    }
    let mut e: usize = 0;
    while e < edges.len()
        invariant
            n == nodes.len(),
            e <= edges.len(),
            self_loop.len() == n,
            forall|e2: int| 0 <= e2 < edges.len() ==> (#[trigger] edges[e2]).0 < n && edges[e2].1 < n,
            forall|y: int| 0 <= y < n ==> #[trigger] self_loop[y] == edges@.take(e as int).contains((y as usize, y as usize)),
        decreases edges.len() - e,
    {
        let (a, b) = edges[e];
        let ghost before = self_loop@;
        if a == b {
            self_loop.set(a, true);
        }
        proof {
            let t = edges@.take(e + 1);
            assert forall|y: int| 0 <= y < n implies #[trigger] self_loop[y] == t.contains((y as usize, y as usize)) by {
                assert(before[y] == edges@.take(e as int).contains((y as usize, y as usize)));
                if t.contains((y as usize, y as usize)) {
                    let i = choose|i: int| 0 <= i < t.len() && t[i] == (y as usize, y as usize);
                    if i < e {
                        assert(edges@.take(e as int)[i] == t[i]);
                    }
                }
                if edges@.take(e as int).contains((y as usize, y as usize)) {
                    let i = choose|i: int| 0 <= i < e && edges@.take(e as int)[i] == (y as usize, y as usize);
                    assert(t[i] == edges@.take(e as int)[i]);
                }
                if y == a && a == b {
                    assert(t[e as int] == (a, b));
                }
            }
        }
        e = e + 1;
    }
    proof {
        assert(edges@.take(edges.len() as int) =~= edges@);
    }
    // Gather the catalog vertices by component, in increasing order.
    let mut slot: Vec<Option<usize>> = Vec::new();
    let mut x: usize = 0;
    while x < comps.len()
        invariant
            x <= comps.len(),
            slot.len() == x,
            forall|y: int| 0 <= y < x ==> slot[y] is None,
        decreases comps.len() - x,
    {
        slot.push(None);
        x = x + 1;
    }
    proof {
        assert forall|v: int| 0 <= v < n implies #[trigger] comp_of[v] < comps.len() by {
            assert(has_component(cv, v as usize));
            let x0 = choose|x0: int| #[trigger] in_component(cv, x0, v as usize);
            let m0 = choose|m0: int| 0 <= m0 < cv[x0].len() && cv[x0][m0] == v as usize;
            assert(comp_of[cv[x0][m0] as int] == x0);
        }
    }
    let mut groups: Vec<Vec<usize>> = Vec::new();
    let mut k: usize = 0;
    while k < n
        invariant
            n == nodes.len(),
            k <= n,
            forall|v: int| 0 <= v < n ==> #[trigger] comp_of[v] < comps.len(),
            cat.len() == n,
            comp_of.len() == n,
            slot.len() == comps.len(),
            cv == comps@.map_values(|v: Vec<usize>| v@),
            is_scc_partition(cv, n as nat, edge),
            forall|x2: int, m: int| 0 <= x2 < cv.len() && 0 <= m < cv[x2].len() ==> comp_of[#[trigger] cv[x2][m] as int] == x2,
            forall|y: int| 0 <= y < slot.len() ==> (#[trigger] slot[y] matches Some(q) ==> q < groups.len() && groups[q as int].len() > 0 && comp_of[groups[q as int][0] as int] == y),
            forall|q: int| 0 <= q < groups.len() ==> {
                &&& (#[trigger] groups[q]).len() > 0
                &&& comp_of[groups[q][0] as int] < comps.len()
                &&& slot[comp_of[groups[q][0] as int] as int] == Some(q as usize)
            },
            forall|q: int, m: int| 0 <= q < groups.len() && 0 <= m < groups[q].len() ==> {
                &&& #[trigger] groups[q][m] < k
                &&& cat[groups[q][m] as int]
                &&& comp_of[groups[q][m] as int] == comp_of[groups[q][0] as int]
            },
            forall|q: int, m1: int, m2: int|
                0 <= q < groups.len() && 0 <= m1 < m2 < groups[q].len() ==> #[trigger] groups[q][m1] < #[trigger] groups[q][m2],
            forall|q1: int, q2: int| 0 <= q1 < q2 < groups.len() ==> #[trigger] groups[q1][0] < #[trigger] groups[q2][0],
            forall|v: int| 0 <= v < k && cat[v] ==> {
                &&& #[trigger] slot[comp_of[v] as int] is Some
                &&& groups[slot[comp_of[v] as int]->0 as int]@.contains(v as usize)
            },
            forall|y: int| 0 <= y < slot.len() && #[trigger] slot[y] is None ==> forall|v: int|
                0 <= v < k && cat[v] ==> comp_of[v] != y,
        decreases n - k,
    {
        if cat[k] {
            let c = comp_of[k];
            proof {
                assert(has_component(cv, k));
                let x0 = choose|x0: int| #[trigger] in_component(cv, x0, k);
                let m0 = choose|m0: int| 0 <= m0 < cv[x0].len() && cv[x0][m0] == k;
                assert(comp_of[cv[x0][m0] as int] == x0);
            }
            match slot[c] {
                None => {
                    let ghost old_groups = groups@;
                    let ghost old_slot = slot@;
                    let q = groups.len();
                    let mut g: Vec<usize> = Vec::new();
                    g.push(k);
                    groups.push(g);
                    slot.set(c, Some(q));
                    proof {
                        assert forall|q2: int| 0 <= q2 < groups.len() implies {
                            &&& (#[trigger] groups[q2]).len() > 0
                            &&& comp_of[groups[q2][0] as int] < comps.len()
                            &&& slot[comp_of[groups[q2][0] as int] as int] == Some(q2 as usize)
                        } by {
                            if q2 < q {
                                assert(groups[q2] == old_groups[q2]);
                                assert(comp_of[groups[q2][0] as int] != c);
                            }
                        }
                        assert forall|q2: int, m: int| 0 <= q2 < groups.len() && 0 <= m < groups[q2].len() implies {
                            &&& #[trigger] groups[q2][m] < k + 1
                            &&& cat[groups[q2][m] as int]
                            &&& comp_of[groups[q2][m] as int] == comp_of[groups[q2][0] as int]
                        } by {
                            if q2 < q {
                                assert(groups[q2] == old_groups[q2]);
                            }
                        }
                        assert forall|v: int| 0 <= v < k + 1 && cat[v] implies {
                            &&& #[trigger] slot[comp_of[v] as int] is Some
                            &&& groups[slot[comp_of[v] as int]->0 as int]@.contains(v as usize)
                        } by {
                            if v == k {
                                assert(groups[q as int][0] == k);
                            } else {
                                assert(comp_of[v] != c);
                                assert(slot[comp_of[v] as int] == old_slot[comp_of[v] as int]);
                                let q2 = slot[comp_of[v] as int]->0 as int;
                                assert(q2 < q);
                                assert(groups[q2] == old_groups[q2]);
                            }
                        }
                    }
                },
                Some(q) => {
                    let ghost old_groups = groups@;
                    let mut g = groups[q].clone();
                    proof {
                        assert(g@ == old_groups[q as int]@);
                    }
                    g.push(k);
                    groups.set(q, g);
                    proof {
                        assert forall|q2: int| 0 <= q2 < groups.len() implies {
                            &&& (#[trigger] groups[q2]).len() > 0
                            &&& comp_of[groups[q2][0] as int] < comps.len()
                            &&& slot[comp_of[groups[q2][0] as int] as int] == Some(q2 as usize)
                        } by {
                            if q2 != q {
                                assert(groups[q2] == old_groups[q2]);
                            } else {
                                assert(groups[q2][0] == old_groups[q2][0]);
                            }
                        }
                        assert(comp_of[old_groups[q as int][0] as int] == c);
                        assert forall|q2: int, m: int| 0 <= q2 < groups.len() && 0 <= m < groups[q2].len() implies {
                            &&& #[trigger] groups[q2][m] < k + 1
                            &&& cat[groups[q2][m] as int]
                            &&& comp_of[groups[q2][m] as int] == comp_of[groups[q2][0] as int]
                        } by {
                            if q2 != q {
                                assert(groups[q2] == old_groups[q2]);
                            } else if m < old_groups[q2].len() {
                                assert(groups[q2][m] == old_groups[q2][m]);
                                assert(groups[q2][0] == old_groups[q2][0]);
                            } else {
                                assert(groups[q2][0] == old_groups[q2][0]);
                            }
                        }
                        assert forall|v: int| 0 <= v < k + 1 && cat[v] implies {
                            &&& #[trigger] slot[comp_of[v] as int] is Some
                            &&& groups[slot[comp_of[v] as int]->0 as int]@.contains(v as usize)
                        } by {
                            if v == k {
                                assert(groups[q as int][groups[q as int].len() - 1] == k);
                            } else {
                                let q2 = slot[comp_of[v] as int]->0 as int;
                                assert(old_groups[q2]@.contains(v as usize));
                                let m = choose|m: int| 0 <= m < old_groups[q2].len() && old_groups[q2][m] == v as usize;
                                if q2 != q {
                                    assert(groups[q2] == old_groups[q2]);
                                } else {
                                    assert(groups[q2][m] == old_groups[q2][m]);
                                }
                            }
                        }
                    }
                },
            }
        }
        k = k + 1;
    }
    let ghost mem = groups@.map_values(|g: Vec<usize>| g@);
    let mut sccs: Vec<DependencyScc> = Vec::new();
    let mut q: usize = 0;
    while q < groups.len()
        invariant
            n == nodes.len(),
            q <= groups.len(),
            sccs.len() == q,
            self_loop.len() == n,
            mem == groups@.map_values(|g: Vec<usize>| g@),
            forall|y: int| 0 <= y < n ==> #[trigger] self_loop[y] == edges@.contains((y as usize, y as usize)),
            forall|q2: int| 0 <= q2 < groups.len() ==> (#[trigger] groups[q2]).len() > 0,
            forall|q2: int, m: int| 0 <= q2 < groups.len() && 0 <= m < groups[q2].len() ==> #[trigger] groups[q2][m] < k,
            k == n,
            forall|q2: int| 0 <= q2 < q ==> {
                &&& (#[trigger] sccs[q2]).members.len() == groups[q2].len()
                &&& sccs[q2].cyclic == (groups[q2].len() > 1 || edges@.contains((groups[q2][0], groups[q2][0])))
                &&& forall|m: int| 0 <= m < groups[q2].len() ==> node_key(#[trigger] sccs[q2].members[m]) == node_key(nodes[groups[q2][m] as int])
            },
        decreases groups.len() - q,
    {
        let g = &groups[q];
        let mut members: Vec<DependencyNode> = Vec::new();
        let mut m: usize = 0;
        while m < g.len()
            invariant
                n == nodes.len(),
                m <= g.len(),
                members.len() == m,
                forall|m2: int| 0 <= m2 < g.len() ==> #[trigger] g[m2] < n,
                forall|m2: int| 0 <= m2 < m ==> node_key(#[trigger] members[m2]) == node_key(nodes[g[m2] as int]),
            decreases g.len() - m,
        {
            members.push(nodes[g[m]].copy());
            m = m + 1;
        }
        let cyclic = g.len() > 1 || self_loop[g[0]];
        sccs.push(DependencyScc { members, cyclic });
        q = q + 1;
    }
    proof {
        assert(sccs.len() == mem.len());
        assert forall|c: int| 0 <= c < mem.len() implies (#[trigger] mem[c]).len() > 0 && mem[c].len() == sccs[c].members.len() by {
            assert(mem[c] == groups[c]@);
        }
        assert forall|c: int, m: int| 0 <= c < mem.len() && 0 <= m < mem[c].len() implies {
            &&& #[trigger] mem[c][m] < nodes.len()
            &&& cat[mem[c][m] as int]
            &&& node_key(sccs[c].members[m]) == node_key(nodes[mem[c][m] as int])
        } by {
            assert(mem[c][m] == groups[c][m]);
        }
        assert forall|v: usize| v < nodes.len() && cat[v as int] implies #[trigger] has_component(mem, v) by {
            let q2 = slot[comp_of[v as int] as int]->0 as int;
            assert(groups[q2]@.contains(v));
            assert(mem[q2] == groups[q2]@);
            assert(in_component(mem, q2, v));
        }
        assert forall|c1: int, m1: int, c2: int, m2: int|
            0 <= c1 < mem.len() && 0 <= m1 < mem[c1].len() && 0 <= c2 < mem.len() && 0 <= m2 < mem[c2].len()
                && #[trigger] mem[c1][m1] == #[trigger] mem[c2][m2] implies c1 == c2 && m1 == m2 by {
            assert(mem[c1][m1] == groups[c1][m1]);
            assert(mem[c2][m2] == groups[c2][m2]);
            let y1 = comp_of[groups[c1][0] as int] as int;
            let y2 = comp_of[groups[c2][0] as int] as int;
            assert(slot[y1] == Some(c1 as usize));
            assert(slot[y2] == Some(c2 as usize));
            if m1 < m2 {
                assert(groups[c1][m1] < groups[c1][m2]);
            } else if m2 < m1 {
                assert(groups[c1][m2] < groups[c1][m1]);
            }
        }
        assert forall|c: int, m1: int, m2: int|
            0 <= c < mem.len() && 0 <= m1 < m2 < mem[c].len() implies #[trigger] mem[c][m1] < #[trigger] mem[c][m2] by {
            assert(mem[c][m1] == groups[c][m1]);
            assert(mem[c][m2] == groups[c][m2]);
        }
        assert forall|c1: int, c2: int| 0 <= c1 < c2 < mem.len() implies #[trigger] mem[c1][0] < #[trigger] mem[c2][0] by {
            assert(mem[c1][0] == groups[c1][0]);
            assert(mem[c2][0] == groups[c2][0]);
        }
        assert forall|c: int, a: usize, b: usize|
            #[trigger] in_component(mem, c, a) && #[trigger] in_component(mem, c, b) implies reaches(edge, a, b) by {
            assert(mem[c] == groups[c]@);
            let ma = choose|ma: int| 0 <= ma < groups[c].len() && groups[c][ma] == a;
            let mb = choose|mb: int| 0 <= mb < groups[c].len() && groups[c][mb] == b;
            let x0 = comp_of[a as int] as int;
            assert(comp_of[b as int] == x0);
            lemma_component_of(cv, comp_of@, a);
            lemma_component_of(cv, comp_of@, b);
        }
        assert forall|c: int, a: usize, b: usize|
            #[trigger] in_component(mem, c, a) && b < nodes.len() && reaches(edge, a, b) && reaches(edge, b, a)
                implies #[trigger] in_component(mem, c, b) by {
            assert(mem[c] == groups[c]@);
            let ma = choose|ma: int| 0 <= ma < groups[c].len() && groups[c][ma] == a;
            let x0 = comp_of[a as int] as int;
            lemma_component_of(cv, comp_of@, a);
            assert(in_component(cv, x0, b));
            lemma_component_of(cv, comp_of@, b);
            assert(comp_of[b as int] == x0);
            if b != a {
                lemma_reach_leaves(edge, b, a);
                lemma_edge_source(edges@, cat@, b);
            }
            assert(cat[b as int]);
            assert(slot[x0] == Some(c as usize));
            assert(groups[c]@.contains(b));
        }
        assert forall|c: int|
            0 <= c < sccs.len() implies (#[trigger] sccs[c]).cyclic == (mem[c].len() > 1 || edge(mem[c][0], mem[c][0])) by {
            assert(mem[c] == groups[c]@);
        }
    }
    (sccs, Ghost(mem))
}

/// The component that the partition gives a vertex is the one that holds it.
proof fn lemma_component_of(cv: Seq<Seq<usize>>, comp_of: Seq<usize>, a: usize)
    requires
        forall|x2: int, m: int| 0 <= x2 < cv.len() && 0 <= m < cv[x2].len() ==> comp_of[#[trigger] cv[x2][m] as int] == x2,
        has_component(cv, a),
    ensures
        in_component(cv, comp_of[a as int] as int, a),
{
    let x0 = choose|x0: int| #[trigger] in_component(cv, x0, a);
    let m0 = choose|m0: int| 0 <= m0 < cv[x0].len() && cv[x0][m0] == a;
    assert(comp_of[cv[x0][m0] as int] == x0);
}


// ---------------------------------------------------------------------
// The analysis.
// ---------------------------------------------------------------------

/// How many resolutions give relations of kind `k`.
pub open spec fn count_kind(res: Seq<ProjectDependencyResolution>, k: DependencyRelationKind) -> nat
    decreases res.len(),
{
    if res.len() == 0 {
        0
    } else {
        count_kind(res.drop_last(), k) + if outcome_relation_kind(res.last().outcome) == k {
            1nat
        } else {
            0nat
        }
    }
}

pub open spec fn coverage_ok(c: DependencyGraphCoverage, res: Seq<ProjectDependencyResolution>) -> bool {
    &&& c.total_references == res.len()
    &&& c.exact_references == count_kind(res, DependencyRelationKind::Exact)
    &&& c.inferred_references == count_kind(res, DependencyRelationKind::Inferred)
    &&& c.ambiguous_references == count_kind(res, DependencyRelationKind::Ambiguous)
    &&& c.unresolved_references == count_kind(res, DependencyRelationKind::Unresolved)
    &&& c.context_dependent_references == count_kind(res, DependencyRelationKind::ContextDependent)
}

/// Two components with the same members, in the same order, and the same
/// cyclicity.
pub open spec fn same_scc(a: DependencyScc, b: DependencyScc) -> bool {
    &&& a.cyclic == b.cyclic
    &&& a.members.len() == b.members.len()
    &&& forall|m: int| 0 <= m < a.members.len() ==> node_key(#[trigger] a.members[m]) == node_key(b.members[m])
}

/// Component `c` is listed among the cycles.
pub open spec fn cycle_listed(cyc: Seq<int>, c: int) -> bool {
    exists|q: int| 0 <= q < cyc.len() && cyc[q] == c
}

/// The cycles are the cyclic components, in order: cycle `q` is component
/// `cyc[q]`.
pub open spec fn cycles_ok(sccs: Seq<DependencyScc>, cycles: Seq<DependencyScc>, cyc: Seq<int>) -> bool {
    &&& cyc.len() == cycles.len()
    &&& forall|q1: int, q2: int| 0 <= q1 < q2 < cyc.len() ==> cyc[q1] < cyc[q2]
    &&& forall|q: int|
        0 <= q < cyc.len() ==> 0 <= #[trigger] cyc[q] < sccs.len() && sccs[cyc[q]].cyclic && same_scc(
            cycles[q],
            sccs[cyc[q]],
        )
    &&& forall|c: int| 0 <= c < sccs.len() && (#[trigger] sccs[c]).cyclic ==> cycle_listed(cyc, c)
}

/// Which nodes are catalog modules.
pub open spec fn catalog_flags(lm: Seq<LocalModule>, nodes: Seq<DependencyNode>) -> Seq<bool> {
    Seq::new(nodes.len(), |k: int| is_catalog_node(lm, nodes[k]))
}

/// Some resolution points at node `k`.
pub open spec fn targeted(tgt: Seq<usize>, k: int) -> bool {
    exists|i: int| 0 <= i < tgt.len() && tgt[i] == k
}

/// What ties an analysis to its inputs: for each resolution the indices of
/// its source and target nodes, the grouping order of the resolutions, where
/// each relation starts in it, the node indices of each component and the
/// components that are cycles.
pub struct GraphWitness {
    pub src: Seq<usize>,
    pub tgt: Seq<usize>,
    pub order: Seq<usize>,
    pub starts: Seq<int>,
    pub members: Seq<Seq<usize>>,
    pub cycles: Seq<int>,
}

/// The analysis of the inputs, as `w` lays it out.
pub open spec fn graph_layout(
    lm: Seq<LocalModule>,
    res: Seq<ProjectDependencyResolution>,
    a: DependencyGraphAnalysis,
    w: GraphWitness,
) -> bool {
    let nodes = a.nodes@;
    &&& nodes_sorted(nodes)
    &&& forall|j: int| 0 <= j < lm.len() ==> #[trigger] node_listed(nodes, catalog_node_key(lm[j]))
    &&& w.src.len() == res.len()
    &&& w.tgt.len() == res.len()
    &&& forall|i: int|
        0 <= i < res.len() ==> {
            &&& #[trigger] w.src[i] < nodes.len()
            &&& w.tgt[i] < nodes.len()
            &&& node_key(nodes[w.src[i] as int]) == source_key(lm, res[i])
            &&& node_matches(nodes[w.tgt[i] as int], res[i])
        }
    &&& forall|k: int| 0 <= k < nodes.len() ==> is_catalog_node(lm, #[trigger] nodes[k]) || targeted(w.tgt, k)
    &&& grouping_order(res, w.src, w.tgt, w.order)
    &&& relations_are_runs(a.relations@, res, nodes, w.src, w.tgt, w.order, w.starts)
    &&& metrics_ok(a.metrics@, nodes, res, w.src, w.tgt)
    &&& sccs_ok(
        nodes,
        exact_edge_fn(res, w.src, w.tgt),
        catalog_flags(lm, nodes),
        a.strongly_connected_components@,
        w.members,
    )
    &&& cycles_ok(a.strongly_connected_components@, a.cycles@, w.cycles)
    &&& coverage_ok(a.coverage, res)
}

/// `a` is the dependency graph of the inputs.
pub open spec fn is_graph_of(lm: Seq<LocalModule>, res: Seq<ProjectDependencyResolution>, a: DependencyGraphAnalysis) -> bool {
    exists|w: GraphWitness| #[trigger] graph_layout(lm, res, a, w)
}

/// Every exact local target is a catalog module, flag included.
pub open spec fn exact_local_targets_listed(lm: Seq<LocalModule>, res: Seq<ProjectDependencyResolution>) -> bool {
    forall|i: int|
        0 <= i < res.len() ==> match (#[trigger] res[i]).outcome {
            DependencyResolutionOutcome::Exact(DependencyTarget::LocalModule(m)) => exists|j: int|
                0 <= j < lm.len() && local_key(#[trigger] lm[j]) == local_key(m),
            _ => true,
        }
}

proof fn lemma_sorted_unique(nodes: Seq<DependencyNode>, a: int, b: int)
    requires
        nodes_sorted(nodes),
        0 <= a < nodes.len(),
        0 <= b < nodes.len(),
        node_key(nodes[a]) == node_key(nodes[b]),
    ensures
        a == b,
{
    if a < b {
        crate::order::lemma_key_facts(node_key(nodes[a]), node_key(nodes[b]));
    } else if b < a {
        crate::order::lemma_key_facts(node_key(nodes[b]), node_key(nodes[a]));
    }
}

fn push_grouping_key(k: &mut Vec<KeyAtom>, r: &ProjectDependencyResolution)
    ensures
        key_view(final(k)@) == key_view(old(k)@) + evidence_key(r.source_path@, r.reference),
{
    let ghost before = key_view(k@);
    push_text_atom(k, r.source_path.as_str());
    crate::dependencies::push_num_atom(k, r.reference.span.start_byte as u64);
    crate::dependencies::push_num_atom(k, r.reference.span.end_byte as u64);
    crate::dependencies::push_num_atom(k, r.reference.span.start.line as u64);
    crate::dependencies::push_num_atom(k, r.reference.span.start.column as u64);
    assert(key_view(k@) =~= before + evidence_key(r.source_path@, r.reference));
}


/// The source node, target node and kind of every resolution, and the
/// coverage counts, or the first resolution error.
fn resolve_all(lm: &Vec<LocalModule>, res: &Vec<ProjectDependencyResolution>) -> (out: Result<
    (Vec<DependencyNode>, Vec<DependencyNode>, Vec<DependencyRelationKind>, DependencyGraphCoverage),
    DependencyGraphError,
>)
    ensures
        match out {
            Ok((sources, targets, kinds, coverage)) => {
                &&& first_some(resolution_errors(lm@, res@)) is None
                &&& sources.len() == res.len()
                &&& targets.len() == res.len()
                &&& kinds.len() == res.len()
                &&& forall|j: int|
                    0 <= j < res.len() ==> {
                        &&& node_key(#[trigger] sources[j]) == source_key(lm@, res[j])
                        &&& is_catalog_node(lm@, sources[j])
                    }
                &&& forall|j: int| 0 <= j < res.len() ==> node_matches(#[trigger] targets[j], res[j])
                &&& forall|j: int| 0 <= j < res.len() ==> #[trigger] kinds[j] == outcome_relation_kind(res[j].outcome)
                &&& coverage_ok(coverage, res@)
            },
            Err(e) => first_some(resolution_errors(lm@, res@)) == Some(e@),
        },
{
    let ghost errs = resolution_errors(lm@, res@);
    let mut sources: Vec<DependencyNode> = Vec::new();
    let mut targets: Vec<DependencyNode> = Vec::new();
    let mut kinds: Vec<DependencyRelationKind> = Vec::new();
    let mut coverage = DependencyGraphCoverage {
        total_references: res.len(),
        exact_references: 0,
        inferred_references: 0,
        ambiguous_references: 0,
        unresolved_references: 0,
        context_dependent_references: 0,
    };
    let mut i: usize = 0;
    while i < res.len()
        invariant
            i <= res.len(),
            errs == resolution_errors(lm@, res@),
            sources.len() == i,
            targets.len() == i,
            kinds.len() == i,
            forall|j: int| 0 <= j < i ==> #[trigger] errs[j] is None,
            forall|j: int|
                0 <= j < i ==> {
                    &&& node_key(#[trigger] sources[j]) == source_key(lm@, res[j])
                    &&& is_catalog_node(lm@, sources[j])
                },
            forall|j: int| 0 <= j < i ==> node_matches(#[trigger] targets[j], res[j]),
            forall|j: int| 0 <= j < i ==> #[trigger] kinds[j] == outcome_relation_kind(res[j].outcome),
            coverage.total_references == res.len(),
            coverage.exact_references == count_kind(res@.take(i as int), DependencyRelationKind::Exact),
            coverage.inferred_references == count_kind(res@.take(i as int), DependencyRelationKind::Inferred),
            coverage.ambiguous_references == count_kind(res@.take(i as int), DependencyRelationKind::Ambiguous),
            coverage.unresolved_references == count_kind(res@.take(i as int), DependencyRelationKind::Unresolved),
            coverage.context_dependent_references == count_kind(
                res@.take(i as int),
                DependencyRelationKind::ContextDependent,
            ),
            coverage.exact_references <= i,
            coverage.inferred_references <= i,
            coverage.ambiguous_references <= i,
            coverage.unresolved_references <= i,
            coverage.context_dependent_references <= i,
        decreases res.len() - i,
    {
        proof {
            assert(errs[i as int] == resolution_error(lm@, res[i as int]));
        }
        match resolve_one(lm, &res[i]) {
            Err(e) => {
                proof {
                    lemma_first_some(errs, i as int);
                }
                return Err(e);
            },
            Ok((s, t, k)) => {
                proof {
                    let tk = res@.take(i + 1);
                    assert(tk.drop_last() =~= res@.take(i as int));
                    assert(tk.last() == res[i as int]);
                }
                match k {
                    DependencyRelationKind::Exact => {
                        coverage.exact_references = coverage.exact_references + 1;
                    },
                    DependencyRelationKind::Inferred => {
                        coverage.inferred_references = coverage.inferred_references + 1;
                    },
                    DependencyRelationKind::Ambiguous => {
                        coverage.ambiguous_references = coverage.ambiguous_references + 1;
                    },
                    DependencyRelationKind::Unresolved => {
                        coverage.unresolved_references = coverage.unresolved_references + 1;
                    },
                    DependencyRelationKind::ContextDependent => {
                        coverage.context_dependent_references = coverage.context_dependent_references + 1;
                    },
                }
                let ghost old_s = sources@;
                let ghost old_t = targets@;
                let ghost old_k = kinds@;
                sources.push(s);
                targets.push(t);
                kinds.push(k);
                proof {
                    assert forall|j: int|
                        0 <= j < i + 1 implies {
                        &&& node_key(#[trigger] sources[j]) == source_key(lm@, res[j])
                        &&& is_catalog_node(lm@, sources[j])
                    } by {
                        if j < i {
                            assert(sources[j] == old_s[j]);
                        }
                    }
                    assert forall|j: int| 0 <= j < i + 1 implies node_matches(#[trigger] targets[j], res[j]) by {
                        if j < i {
                            assert(targets[j] == old_t[j]);
                        }
                    }
                    assert forall|j: int| 0 <= j < i + 1 implies #[trigger] kinds[j] == outcome_relation_kind(res[j].outcome) by {
                        if j < i {
                            assert(kinds[j] == old_k[j]);
                        }
                    }
                }
            },
        }
        i = i + 1;
    }
    proof {
        lemma_first_some(errs, res.len() as int);
        assert(res@.take(res.len() as int) =~= res@);
    }
    Ok((sources, targets, kinds, coverage))
}

/// The node indices of the sources and targets.
fn node_indices(
    lm: &Vec<LocalModule>,
    nodes: &Vec<DependencyNode>,
    keys: &Vec<Vec<KeyAtom>>,
    sources: &Vec<DependencyNode>,
    targets: &Vec<DependencyNode>,
) -> (r: (Vec<usize>, Vec<usize>))
    requires
        sources.len() == targets.len(),
        nodes.len() == keys.len(),
        forall|k: int| 0 <= k < nodes.len() ==> key_view(#[trigger] keys[k]@) == node_key(nodes[k]),
        nodes_sorted(nodes@),
        forall|j: int| 0 <= j < lm.len() ==> #[trigger] node_listed(nodes@, catalog_node_key(lm[j])),
        forall|j: int| 0 <= j < targets.len() ==> #[trigger] node_listed(nodes@, node_key(targets[j])),
        forall|j: int| 0 <= j < sources.len() ==> is_catalog_node(lm@, #[trigger] sources[j]),
    ensures
        r.0.len() == sources.len(),
        r.1.len() == sources.len(),
        forall|j: int|
            0 <= j < sources.len() ==> #[trigger] r.0[j] < nodes.len() && node_key(nodes[r.0[j] as int]) == node_key(
                sources[j],
            ),
        forall|j: int|
            0 <= j < sources.len() ==> #[trigger] r.1[j] < nodes.len() && node_key(nodes[r.1[j] as int]) == node_key(
                targets[j],
            ),
{
    proof {
        assert forall|a: int, b: int| 0 <= a < b < keys.len() implies key_compare(key_view(keys[a]@), key_view(keys[b]@)) == -1 by {
            assert(key_view(keys[a]@) == node_key(nodes[a]));
            assert(key_view(keys[b]@) == node_key(nodes[b]));
        }
    }
    let mut src: Vec<usize> = Vec::new();
    let mut tgt: Vec<usize> = Vec::new();
    let mut i: usize = 0;
    while i < sources.len()
        invariant
            i <= sources.len(),
            sources.len() == targets.len(),
            nodes.len() == keys.len(),
            forall|k: int| 0 <= k < nodes.len() ==> key_view(#[trigger] keys[k]@) == node_key(nodes[k]),
            forall|a: int, b: int| 0 <= a < b < keys.len() ==> key_compare(key_view(keys[a]@), key_view(keys[b]@)) == -1,
            forall|j: int| 0 <= j < lm.len() ==> #[trigger] node_listed(nodes@, catalog_node_key(lm[j])),
            forall|j: int| 0 <= j < targets.len() ==> #[trigger] node_listed(nodes@, node_key(targets[j])),
            forall|j: int| 0 <= j < sources.len() ==> is_catalog_node(lm@, #[trigger] sources[j]),
            src.len() == i,
            tgt.len() == i,
            forall|j: int|
                0 <= j < i ==> #[trigger] src[j] < nodes.len() && node_key(nodes[src[j] as int]) == node_key(
                    sources[j],
                ),
            forall|j: int|
                0 <= j < i ==> #[trigger] tgt[j] < nodes.len() && node_key(nodes[tgt[j] as int]) == node_key(
                    targets[j],
                ),
        decreases sources.len() - i,
    {
        let sk = sources[i].key();
        let tk = targets[i].key();
        proof {
            let jj = choose|jj: int| 0 <= jj < lm.len() && node_key(sources[i as int]) == catalog_node_key(#[trigger] lm[jj]);
            assert(node_listed(nodes@, catalog_node_key(lm[jj])));
            let x = choose|x: int| 0 <= x < nodes.len() && node_key(nodes[x]) == catalog_node_key(lm[jj]);
            assert(key_view(keys[x]@) == key_view(sk@));
            assert(node_listed(nodes@, node_key(targets[i as int])));
            let y = choose|y: int| 0 <= y < nodes.len() && node_key(nodes[y]) == node_key(targets[i as int]);
            assert(key_view(keys[y]@) == key_view(tk@));
        }
        let a = find_key(keys, &sk);
        let b = find_key(keys, &tk);
        src.push(a);
        tgt.push(b);
        i = i + 1;
    }
    (src, tgt)
}

/// The order in which resolutions are grouped into relations.
fn grouping_order_of(
    res: &Vec<ProjectDependencyResolution>,
    src: &Vec<usize>,
    tgt: &Vec<usize>,
    kinds: &Vec<DependencyRelationKind>,
) -> (order: Vec<usize>)
    requires
        src.len() == res.len(),
        tgt.len() == res.len(),
        kinds.len() == res.len(),
        forall|j: int| 0 <= j < res.len() ==> #[trigger] kinds[j] == outcome_relation_kind(res[j].outcome),
    ensures
        grouping_order(res@, src@, tgt@, order@),
{
    let mut gkeys: Vec<Vec<KeyAtom>> = Vec::new();
    let mut i: usize = 0;
    while i < res.len()
        invariant
            i <= res.len(),
            src.len() == res.len(),
            tgt.len() == res.len(),
            kinds.len() == res.len(),
            forall|j: int| 0 <= j < res.len() ==> #[trigger] kinds[j] == outcome_relation_kind(res[j].outcome),
            gkeys.len() == i,
            forall|j: int| 0 <= j < i ==> key_view(#[trigger] gkeys[j]@) == grouping_key(res@, src@, tgt@, j),
        decreases res.len() - i,
    {
        let mut k: Vec<KeyAtom> = Vec::new();
        crate::dependencies::push_num_atom(&mut k, src[i] as u64);
        crate::dependencies::push_num_atom(&mut k, tgt[i] as u64);
        crate::dependencies::push_num_atom(&mut k, kinds[i].rank());
        push_grouping_key(&mut k, &res[i]);
        proof {
            assert(key_view(k@) =~= grouping_key(res@, src@, tgt@, i as int));
        }
        gkeys.push(k);
        i = i + 1;
    }
    let order = crate::order::sorted_order(&gkeys);
    proof {
        let kv = crate::order::keys_view(gkeys@);
        assert forall|j: int| 0 <= j < res.len() implies #[trigger] kv[j] == grouping_key(res@, src@, tgt@, j) by {}
        assert forall|p: int, q: int| 0 <= p < q < order.len() implies key_compare(
            grouping_key(res@, src@, tgt@, order[p] as int),
            grouping_key(res@, src@, tgt@, order[q] as int),
        ) <= 0 && (key_compare(
            grouping_key(res@, src@, tgt@, order[p] as int),
            grouping_key(res@, src@, tgt@, order[q] as int),
        ) == 0 ==> order[p] < order[q]) by {
            assert(kv[order[p] as int] == grouping_key(res@, src@, tgt@, order[p] as int));
            assert(kv[order[q] as int] == grouping_key(res@, src@, tgt@, order[q] as int));
        }
        assert(grouping_order(res@, src@, tgt@, order@));
    }
    order
}

/// Marks the nodes that are catalog modules.
fn catalog_marks(lm: &Vec<LocalModule>, nodes: &Vec<DependencyNode>, keys: &Vec<Vec<KeyAtom>>) -> (cat: Vec<bool>)
    requires
        nodes.len() == keys.len(),
        forall|k: int| 0 <= k < nodes.len() ==> key_view(#[trigger] keys[k]@) == node_key(nodes[k]),
        nodes_sorted(nodes@),
        forall|j: int| 0 <= j < lm.len() ==> #[trigger] node_listed(nodes@, catalog_node_key(lm[j])),
    ensures
        cat@ == catalog_flags(lm@, nodes@),
{
    proof {
        assert forall|a: int, b: int| 0 <= a < b < keys.len() implies key_compare(key_view(keys[a]@), key_view(keys[b]@)) == -1 by {
            assert(key_view(keys[a]@) == node_key(nodes[a]));
            assert(key_view(keys[b]@) == node_key(nodes[b]));
        }
    }
    let mut cat: Vec<bool> = Vec::new();
    let mut k: usize = 0;
    while k < nodes.len()
        invariant
            k <= nodes.len(),
            cat.len() == k,
            forall|x: int| 0 <= x < k ==> !cat[x],
        decreases nodes.len() - k,
    {
        cat.push(false);
        k = k + 1;
    }
    let mut j: usize = 0;
    while j < lm.len()
        invariant
            j <= lm.len(),
            cat.len() == nodes.len(),
            nodes.len() == keys.len(),
            forall|k2: int| 0 <= k2 < nodes.len() ==> key_view(#[trigger] keys[k2]@) == node_key(nodes[k2]),
            forall|a: int, b: int| 0 <= a < b < keys.len() ==> key_compare(key_view(keys[a]@), key_view(keys[b]@)) == -1,
            nodes_sorted(nodes@),
            forall|j2: int| 0 <= j2 < lm.len() ==> #[trigger] node_listed(nodes@, catalog_node_key(lm[j2])),
            forall|x: int| 0 <= x < nodes.len() ==> #[trigger] cat[x] ==> is_catalog_node(lm@, nodes[x]),
            forall|x: int| 0 <= x < nodes.len() && is_catalog_node(lm@, #[trigger] nodes[x]) ==> (cat[x] || exists|j2: int|
                j <= j2 < lm.len() && node_key(nodes[x]) == catalog_node_key(#[trigger] lm[j2])),
        decreases lm.len() - j,
    {
        let ck = DependencyNode::LocalModule(lm[j].copy()).key();
        proof {
            assert(node_listed(nodes@, catalog_node_key(lm[j as int])));
            let x = choose|x: int| 0 <= x < nodes.len() && node_key(nodes[x]) == catalog_node_key(lm[j as int]);
            assert(key_view(keys[x]@) == key_view(ck@));
        }
        let x = find_key(keys, &ck);
        let ghost before = cat@;
        cat.set(x, true);
        proof {
            assert(node_key(nodes[x as int]) == catalog_node_key(lm[j as int]));
            assert forall|y: int| 0 <= y < nodes.len() && is_catalog_node(lm@, #[trigger] nodes[y]) implies (cat[y] || exists|j2: int|
                j + 1 <= j2 < lm.len() && node_key(nodes[y]) == catalog_node_key(#[trigger] lm[j2])) by {
                if !before[y] {
                    let j2 = choose|j2: int| j <= j2 < lm.len() && node_key(nodes[y]) == catalog_node_key(#[trigger] lm[j2]);
                    if j2 == j {
                        lemma_sorted_unique(nodes@, x as int, y);
                    }
                }
            }
            assert forall|y: int| 0 <= y < nodes.len() && #[trigger] cat[y] implies is_catalog_node(lm@, nodes[y]) by {
                if y == x {
                    assert(node_key(nodes[y]) == catalog_node_key(lm[j as int]));
                }
            }
        }
        j = j + 1;
    }
    proof {
        assert(cat@ =~= catalog_flags(lm@, nodes@));
    }
    cat
}

/// The cyclic components, in order.
fn collect_cycles(sccs: &Vec<DependencyScc>) -> (r: (Vec<DependencyScc>, Ghost<Seq<int>>))
    ensures
        cycles_ok(sccs@, r.0@, r.1@),
{
    let mut cycles: Vec<DependencyScc> = Vec::new();
    let ghost mut cyc: Seq<int> = Seq::empty();
    let mut c: usize = 0;
    while c < sccs.len()
        invariant
            c <= sccs.len(),
            cyc.len() == cycles.len(),
            forall|q1: int, q2: int| 0 <= q1 < q2 < cyc.len() ==> cyc[q1] < cyc[q2],
            forall|q: int|
                0 <= q < cyc.len() ==> 0 <= #[trigger] cyc[q] < c && sccs[cyc[q]].cyclic && same_scc(cycles[q], sccs[cyc[q]]),
            forall|c2: int| 0 <= c2 < c && (#[trigger] sccs[c2]).cyclic ==> cycle_listed(cyc, c2),
        decreases sccs.len() - c,
    {
        if sccs[c].cyclic {
            let ghost old_cyc = cyc;
            let ghost old_cycles = cycles@;
            cycles.push(copy_scc(&sccs[c]));
            proof {
                cyc = cyc.push(c as int);
                assert forall|q: int|
                    0 <= q < cyc.len() implies 0 <= #[trigger] cyc[q] < c + 1 && sccs[cyc[q]].cyclic && same_scc(cycles[q], sccs[cyc[q]]) by {
                    if q < old_cyc.len() {
                        assert(cycles[q] == old_cycles[q]);
                    }
                }
                assert forall|c2: int| 0 <= c2 < c + 1 && (#[trigger] sccs[c2]).cyclic implies cycle_listed(cyc, c2) by {
                    if c2 < c {
                        let q = choose|q: int| 0 <= q < old_cyc.len() && old_cyc[q] == c2;
                        assert(cyc[q] == c2);
                    } else {
                        assert(cyc[cyc.len() - 1] == c2);
                    }
                }
            }
        }
        c = c + 1;
    }
    (cycles, Ghost(cyc))
}

/// Builds the dependency graph of a repository from its catalog of local
/// modules and the resolutions of their imports: the nodes, the relations
/// with their evidence, the fan-in and fan-out of each node, the strongly
/// connected components of the catalog modules under exact dependencies,
/// and which of them are cycles.
pub fn analyze_dependency_graph(
    local_modules: &Vec<LocalModule>,
    resolutions: &Vec<ProjectDependencyResolution>,
) -> (r: Result<DependencyGraphAnalysis, DependencyGraphError>)
    requires
        graph_error(local_modules@, resolutions@) is None ==> exact_local_targets_listed(
            local_modules@,
            resolutions@,
        ),
    ensures
        r is Ok <==> graph_error(local_modules@, resolutions@) is None,
        r matches Err(e) ==> graph_error(local_modules@, resolutions@) == Some(e@),
        r matches Ok(a) ==> is_graph_of(local_modules@, resolutions@, a),
{
    let lm = local_modules;
    let res = resolutions;
    match check_local_paths(lm) {
        Err(e) => {
            return Err(e);
        },
        Ok(_) => {},
    }
    let (sources, targets, kinds, coverage) = match resolve_all(lm, res) {
        Err(e) => {
            return Err(e);
        },
        Ok(x) => x,
    };
    let (nodes, keys) = collect_nodes(lm, &targets);
    let (src, tgt) = node_indices(lm, &nodes, &keys, &sources, &targets);
    let order = grouping_order_of(res, &src, &tgt, &kinds);
    let (relations, starts) = build_relations(res, &nodes, &src, &tgt, &kinds, &order);
    let edges = exact_edges(res, &src, &tgt);
    let cat = catalog_marks(lm, &nodes, &keys);
    proof {
        assert forall|e: int| 0 <= e < edges.len() implies (#[trigger] edges[e]).0 < nodes.len() && edges[e].1 < nodes.len()
            && cat[edges[e].0 as int] by {
            assert(edges@.contains(edges[e]));
            let (a, b) = edges[e];
            assert(exact_edge(res@, src@, tgt@, a, b));
            let i0 = choose|i0: int| 0 <= i0 < res.len() && (#[trigger] res[i0]).outcome is Exact && src[i0] == a && tgt[i0] == b;
            assert(src[i0] < nodes.len());
            assert(node_key(nodes[a as int]) == node_key(sources[i0]));
            let jj = choose|jj: int| 0 <= jj < lm.len() && node_key(sources[i0]) == catalog_node_key(#[trigger] lm[jj]);
            assert(is_catalog_node(lm@, nodes[a as int]));
        }
    }
    let metrics = build_metrics(&nodes, &edges, Ghost(res@), Ghost(src@), Ghost(tgt@));
    let (sccs, members) = build_sccs(&nodes, &edges, &cat);
    let (cycles, cyc) = collect_cycles(&sccs);
    let analysis = DependencyGraphAnalysis {
        nodes,
        relations,
        metrics,
        strongly_connected_components: sccs,
        cycles,
        coverage,
    };
    proof {
        let w = GraphWitness {
            src: src@,
            tgt: tgt@,
            order: order@,
            starts: starts@,
            members: members@,
            cycles: cyc@,
        };
        assert(exact_edge_fn(res@, src@, tgt@) =~= list_edge_fn(edges@));
        assert forall|x: int| 0 <= x < analysis.nodes.len() implies is_catalog_node(lm@, #[trigger] analysis.nodes[x]) || targeted(tgt@, x) by {
            if !is_catalog_node(lm@, analysis.nodes[x]) {
                assert(is_target_key(targets@, node_key(analysis.nodes[x])));
                let i0 = choose|i0: int| 0 <= i0 < targets.len() && node_key(targets[i0]) == node_key(analysis.nodes[x]);
                assert(tgt[i0] < analysis.nodes.len());
                lemma_sorted_unique(analysis.nodes@, x, tgt[i0] as int);
            }
        }
        assert forall|i0: int| 0 <= i0 < res.len() implies {
            &&& #[trigger] w.src[i0] < analysis.nodes.len()
            &&& w.tgt[i0] < analysis.nodes.len()
            &&& node_key(analysis.nodes[w.src[i0] as int]) == source_key(lm@, res[i0])
            &&& node_matches(analysis.nodes[w.tgt[i0] as int], res[i0])
        } by {
            assert(src[i0] == w.src[i0]);
            assert(tgt[i0] == w.tgt[i0]);
            assert(tgt[i0] < analysis.nodes.len());
            assert(node_key(sources[i0]) == source_key(lm@, res[i0]));
            assert(node_matches(targets[i0], res[i0]));
        }
        assert(graph_layout(lm@, res@, analysis, w));
        assert(is_graph_of(local_modules@, resolutions@, analysis));
    }
    Ok(analysis)
}

} // verus!
