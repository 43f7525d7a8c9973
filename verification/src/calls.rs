//! Project call identities: symbols across a project, how each call was
//! resolved, the nodes and relations of a call graph, how a symbol is
//! selected by text, and the escaping of names for Mermaid and DOT.

use vstd::prelude::*;

use crate::analyzer::{CallReference, SourceSpan, SymbolKind};
use crate::cycles::{adjacency_ok, is_rank_walk};
use crate::query::{bfs_search, rank_reach};
use crate::dependencies::ModuleId;
use crate::report::LanguageId;
use crate::text::{decimal, push_decimal, push_text};

verus! {

pub const CALL_GRAPH_DEFINITION_VERSION: &'static str = "call-graph-v2";

pub const CALL_FAN_IN_DEFINITION_VERSION: &'static str = "call-fan-in-v2";

pub const CALL_FAN_OUT_DEFINITION_VERSION: &'static str = "call-fan-out-v2";

pub const CALL_SCC_DEFINITION_VERSION: &'static str = "call-scc-v2";

pub const CALL_REPORT_SCHEMA_VERSION: &'static str = "0.2.0";

/// The kind of a step of structural flow evidence.
#[derive(Debug, Clone, Copy, PartialEq, Eq, Structural)]
pub enum CallFlowKind {
    Sequence,
    Call,
    Condition,
    Alternatives,
    Branch,
    Loop,
    Exit,
    Unspecified,
    Unsupported,
    Statement,
}

/// Structural possible-flow evidence of a callable (not a runtime trace).
#[derive(Debug)]
pub struct CallFlow {
    pub kind: CallFlowKind,
    pub text: String,
    pub line: usize,
    pub column: usize,
    pub children: Vec<CallFlow>,
}

/// The identity of a symbol in a project.
#[derive(Debug)]
pub struct ProjectSymbolId {
    pub language: LanguageId,
    pub module: ModuleId,
    pub qualified_name: String,
    pub kind: SymbolKind,
    pub duplicate_ordinal: usize,
}

/// The text that selects a symbol: its qualified name for C++, otherwise
/// its module's qualified name, `::` and its qualified name.
pub open spec fn base_selector_text(id: ProjectSymbolId) -> Seq<char> {
    if id.language@ == "cpp"@ {
        id.qualified_name@
    } else {
        id.module@.1 + "::"@ + id.qualified_name@
    }
}

/// The selector with the symbol's ordinal among same-named definitions.
pub open spec fn ordinal_selector_text(id: ProjectSymbolId) -> Seq<char> {
    base_selector_text(id) + "#"@ + decimal(id.duplicate_ordinal as nat)
}

impl ProjectSymbolId {
    pub fn base_selector(&self) -> (r: String)
        ensures
            r@ == base_selector_text(*self),
    {
        proof {
            reveal_strlit("cpp");
            reveal_strlit("::");
        }
        if crate::text::text_eq(self.language.as_str(), "cpp") {
            String::from_str(self.qualified_name.as_str())
        } else {
            let mut s = String::from_str(self.module.qualified_name());
            push_text(&mut s, "::");
            push_text(&mut s, self.qualified_name.as_str());
            s
        }
    }

    pub fn ordinal_selector(&self) -> (r: String)
        ensures
            r@ == ordinal_selector_text(*self),
    {
        proof {
            reveal_strlit("#");
        }
        let mut s = self.base_selector();
        push_text(&mut s, "#");
        push_decimal(&mut s, self.duplicate_ordinal as u64);
        s
    }
}

#[derive(Debug, Clone, Copy, PartialEq, Eq, Structural)]
pub enum SymbolLinkStatus {
    Linked,
    DeclarationOnly,
    DefinitionOnly,
    Ambiguous,
    Unavailable,
}

impl SymbolLinkStatus {
    pub fn as_str(self) -> (r: &'static str)
        ensures
            r@ == match self {
                SymbolLinkStatus::Linked => "linked"@,
                SymbolLinkStatus::DeclarationOnly => "declaration-only"@,
                SymbolLinkStatus::DefinitionOnly => "definition-only"@,
                SymbolLinkStatus::Ambiguous => "ambiguous"@,
                SymbolLinkStatus::Unavailable => "unavailable"@,
            },
    {
        proof {
            reveal_strlit("linked");
            reveal_strlit("declaration-only");
            reveal_strlit("definition-only");
            reveal_strlit("ambiguous");
            reveal_strlit("unavailable");
        }
        match self {
            SymbolLinkStatus::Linked => "linked",
            SymbolLinkStatus::DeclarationOnly => "declaration-only",
            SymbolLinkStatus::DefinitionOnly => "definition-only",
            SymbolLinkStatus::Ambiguous => "ambiguous",
            SymbolLinkStatus::Unavailable => "unavailable",
        }
    }
}

#[derive(Debug)]
pub struct ProjectSymbolLocation {
    pub path: String,
    pub span: SourceSpan,
}

/// A symbol of a project, with where it is declared and defined.
#[derive(Debug)]
pub struct ProjectSymbol {
    pub call_flow: Option<CallFlow>,
    pub id: ProjectSymbolId,
    pub path: String,
    pub span: SourceSpan,
    pub declarations: Vec<ProjectSymbolLocation>,
    pub definition: Option<ProjectSymbolLocation>,
    pub link_status: SymbolLinkStatus,
    pub language_module: Option<String>,
    pub architecture_groups: Vec<String>,
    pub primary_architecture_group: Option<String>,
}

/// A node of a call graph: a project symbol, or what a call from a symbol
/// reached when no single project symbol was found.
#[derive(Debug)]
pub enum CallNode {
    LocalSymbol(Box<ProjectSymbol>),
    External { source: ProjectSymbolId, name: String },
    Ambiguous { source: ProjectSymbolId, spelling: String, candidates: Vec<ProjectSymbol> },
    Unresolved { source: ProjectSymbolId, spelling: String },
    Unavailable { source: ProjectSymbolId, spelling: String },
}

pub open spec fn call_node_kind(n: CallNode) -> Seq<char> {
    match n {
        CallNode::LocalSymbol(_) => "local-symbol"@,
        CallNode::External { .. } => "external"@,
        CallNode::Ambiguous { .. } => "ambiguous"@,
        CallNode::Unresolved { .. } => "unresolved"@,
        CallNode::Unavailable { .. } => "unavailable"@,
    }
}

/// The name a graph shows for a node: a symbol's base selector, an external
/// name, or the spelling of the call.
pub open spec fn call_node_text(n: CallNode) -> Seq<char> {
    match n {
        CallNode::LocalSymbol(s) => base_selector_text(s.id),
        CallNode::External { name, .. } => name@,
        CallNode::Ambiguous { spelling, .. } => spelling@,
        CallNode::Unresolved { spelling, .. } => spelling@,
        CallNode::Unavailable { spelling, .. } => spelling@,
    }
}

impl CallNode {
    pub fn kind(&self) -> (r: &'static str)
        ensures
            r@ == call_node_kind(*self),
    {
        proof {
            reveal_strlit("local-symbol");
            reveal_strlit("external");
            reveal_strlit("ambiguous");
            reveal_strlit("unresolved");
            reveal_strlit("unavailable");
        }
        match self {
            CallNode::LocalSymbol(_) => "local-symbol",
            CallNode::External { .. } => "external",
            CallNode::Ambiguous { .. } => "ambiguous",
            CallNode::Unresolved { .. } => "unresolved",
            CallNode::Unavailable { .. } => "unavailable",
        }
    }
}

/// The name a graph shows for a node.
pub fn call_node_name(node: &CallNode) -> (r: String)
    ensures
        r@ == call_node_text(*node),
{
    match node {
        CallNode::LocalSymbol(symbol) => symbol.id.base_selector(),
        CallNode::External { name, .. } => String::from_str(name.as_str()),
        CallNode::Ambiguous { spelling, .. } => String::from_str(spelling.as_str()),
        CallNode::Unresolved { spelling, .. } => String::from_str(spelling.as_str()),
        CallNode::Unavailable { spelling, .. } => String::from_str(spelling.as_str()),
    }
}

#[derive(Debug, Clone, Copy, PartialEq, Eq, Structural)]
pub enum CallRelationKind {
    Exact,
    Inferred,
    External,
    Ambiguous,
    Unresolved,
    Unavailable,
}

impl CallRelationKind {
    pub fn as_str(self) -> (r: &'static str)
        ensures
            r@ == match self {
                CallRelationKind::Exact => "exact"@,
                CallRelationKind::Inferred => "inferred"@,
                CallRelationKind::External => "external"@,
                CallRelationKind::Ambiguous => "ambiguous"@,
                CallRelationKind::Unresolved => "unresolved"@,
                CallRelationKind::Unavailable => "unavailable"@,
            },
    {
        proof {
            reveal_strlit("exact");
            reveal_strlit("inferred");
            reveal_strlit("external");
            reveal_strlit("ambiguous");
            reveal_strlit("unresolved");
            reveal_strlit("unavailable");
        }
        match self {
            CallRelationKind::Exact => "exact",
            CallRelationKind::Inferred => "inferred",
            CallRelationKind::External => "external",
            CallRelationKind::Ambiguous => "ambiguous",
            CallRelationKind::Unresolved => "unresolved",
            CallRelationKind::Unavailable => "unavailable",
        }
    }
}

/// Which way a traversal of calls goes.
#[derive(Debug, Clone, Copy, PartialEq, Eq, Structural)]
pub enum CallDirection {
    Callers,
    Callees,
    Both,
}

/// A refused call-graph request, with its message.
#[derive(Debug)]
pub struct CallGraphFilterError(pub String);

impl CallGraphFilterError {
    pub fn message(&self) -> (r: &str)
        ensures
            r@ == self.0@,
    {
        self.0.as_str()
    }
}

/// How many of the nodes are local symbols that `requested` selects, by
/// base or by ordinal selector.
pub open spec fn selects(n: CallNode, requested: Seq<char>) -> bool {
    match n {
        CallNode::LocalSymbol(s) => base_selector_text(s.id) == requested || ordinal_selector_text(s.id) == requested,
        _ => false,
    }
}

pub open spec fn selected_count(nodes: Seq<CallNode>, requested: Seq<char>) -> nat
    decreases nodes.len(),
{
    if nodes.len() == 0 {
        0
    } else {
        selected_count(nodes.drop_last(), requested) + if selects(nodes.last(), requested) {
            1nat
        } else {
            0nat
        }
    }
}

/// The message for a selector that names several definitions.
pub open spec fn duplicate_message(requested: Seq<char>) -> Seq<char> {
    "symbol "@ + crate::dependencies::debug_text(requested) + " has duplicate definitions; select one with #N"@
}

/// The message for a selector that names nothing.
pub open spec fn missing_message(requested: Seq<char>) -> Seq<char> {
    "symbol "@ + crate::dependencies::debug_text(requested) + " was not found"@
}

/// Finds the one local symbol that a selector names: its position among
/// the nodes. No match and several matches are errors naming the selector.
pub fn resolve_call_selector(nodes: &Vec<CallNode>, requested: &str) -> (r: Result<usize, CallGraphFilterError>)
    ensures
        match r {
            Ok(i) => i < nodes.len() && selects(nodes[i as int], requested@) && selected_count(nodes@, requested@)
                == 1,
            Err(e) => (selected_count(nodes@, requested@) == 0 && e.0@ == missing_message(requested@)) || (
            selected_count(nodes@, requested@) > 1 && e.0@ == duplicate_message(requested@)),
        },
{
    let mut found: Option<usize> = None;
    let mut count: usize = 0;
    let mut i: usize = 0;
    while i < nodes.len()
        invariant
            i <= nodes.len(),
            count == selected_count(nodes@.take(i as int), requested@),
            count <= i,
            match found {
                Some(k) => k < i && selects(nodes[k as int], requested@) && count >= 1,
                None => count == 0,
            },
        decreases nodes.len() - i,
    {
        let hit = match &nodes[i] {
            CallNode::LocalSymbol(symbol) => {
                let base = symbol.id.base_selector();
                let ordinal = symbol.id.ordinal_selector();
                crate::text::text_eq(base.as_str(), requested) || crate::text::text_eq(ordinal.as_str(), requested)
            },
            _ => false,
        };
        proof {
            assert(nodes@.take(i + 1).drop_last() =~= nodes@.take(i as int));
            assert(nodes@.take(i + 1).last() == nodes[i as int]);
        }
        if hit {
            if found.is_none() {
                found = Some(i);
            }
            count = count + 1;
        }
        i = i + 1;
    }
    proof {
        assert(nodes@.take(nodes.len() as int) =~= nodes@);
    }
    if count == 1 {
        Ok(found.unwrap())
    } else {
        let q = crate::dependencies::debug_quoted(requested);
        let mut text = String::new();
        push_text(&mut text, "symbol ");
        push_text(&mut text, q.as_str());
        proof {
            reveal_strlit("symbol ");
            reveal_strlit(" was not found");
            reveal_strlit(" has duplicate definitions; select one with #N");
        }
        if count == 0 {
            push_text(&mut text, " was not found");
        } else {
            push_text(&mut text, " has duplicate definitions; select one with #N");
        }
        Err(CallGraphFilterError(text))
    }
}

/// How a character of a name is written in a Mermaid label.
pub open spec fn mermaid_char(c: char) -> Seq<char> {
    if c == '&' {
        "&amp;"@
    } else if c == '"' {
        "&quot;"@
    } else if c == '<' {
        "&lt;"@
    } else if c == '>' {
        "&gt;"@
    } else {
        seq![c]
    }
}

pub open spec fn mermaid_text(s: Seq<char>) -> Seq<char>
    decreases s.len(),
{
    if s.len() == 0 {
        Seq::empty()
    } else {
        mermaid_text(s.drop_last()) + mermaid_char(s.last())
    }
}

/// How a character of a name is written in a DOT label.
pub open spec fn dot_char(c: char) -> Seq<char> {
    if c == '\\' {
        "\\\\"@
    } else if c == '"' {
        "\\\""@
    } else if c == '\n' {
        "\\n"@
    } else {
        seq![c]
    }
}

pub open spec fn dot_text(s: Seq<char>) -> Seq<char>
    decreases s.len(),
{
    if s.len() == 0 {
        Seq::empty()
    } else {
        dot_text(s.drop_last()) + dot_char(s.last())
    }
}

/// Escapes a name for a quoted Mermaid label.
pub fn escape_mermaid(value: &str) -> (r: String)
    ensures
        r@ == mermaid_text(value@),
{
    proof {
        reveal_strlit("&amp;");
        reveal_strlit("&quot;");
        reveal_strlit("&lt;");
        reveal_strlit("&gt;");
    }
    let chars = crate::order::text_chars(value);
    let mut out = String::new();
    let mut i: usize = 0;
    while i < chars.len()
        invariant
            i <= chars.len(),
            chars@ == value@,
            out@ == mermaid_text(value@.take(i as int)),
        decreases chars.len() - i,
    {
        let c = chars[i];
        if c == '&' {
            push_text(&mut out, "&amp;");
        } else if c == '"' {
            push_text(&mut out, "&quot;");
        } else if c == '<' {
            push_text(&mut out, "&lt;");
        } else if c == '>' {
            push_text(&mut out, "&gt;");
        } else {
            crate::text::push_char(&mut out, c);
        }
        proof {
            assert(value@.take(i + 1).drop_last() =~= value@.take(i as int));
            assert(value@.take(i + 1).last() == c);
        }
        i = i + 1;
    }
    proof {
        assert(value@.take(chars.len() as int) =~= value@);
    }
    out
}

/// Escapes a name for a quoted DOT label.
pub fn escape_dot(value: &str) -> (r: String)
    ensures
        r@ == dot_text(value@),
{
    proof {
        reveal_strlit("\\\\");
        reveal_strlit("\\\"");
        reveal_strlit("\\n");
    }
    let chars = crate::order::text_chars(value);
    let mut out = String::new();
    let mut i: usize = 0;
    while i < chars.len()
        invariant
            i <= chars.len(),
            chars@ == value@,
            out@ == dot_text(value@.take(i as int)),
        decreases chars.len() - i,
    {
        let c = chars[i];
        if c == '\\' {
            push_text(&mut out, "\\\\");
        } else if c == '"' {
            push_text(&mut out, "\\\"");
        } else if c == '\n' {
            push_text(&mut out, "\\n");
        } else {
            crate::text::push_char(&mut out, c);
        }
        proof {
            assert(value@.take(i + 1).drop_last() =~= value@.take(i as int));
            assert(value@.take(i + 1).last() == c);
        }
        i = i + 1;
    }
    proof {
        assert(value@.take(chars.len() as int) =~= value@);
    }
    out
}


/// The evidence of a call: the file it was read from and the reference.
#[derive(Debug)]
pub struct CallEvidence {
    pub source_path: String,
    pub reference: CallReference,
}

/// A relation of a call graph between the nodes at positions `source` and
/// `target` of the analysis's node list.
#[derive(Debug)]
pub struct CallRelation {
    pub source: usize,
    pub target: usize,
    pub kind: CallRelationKind,
    pub evidence: Vec<CallEvidence>,
    pub alternatives: Vec<ProjectSymbol>,
    pub reason: Option<String>,
}

#[derive(Debug, Clone, Copy, PartialEq, Eq, Structural)]
pub struct CallNodeMetrics {
    pub node: usize,
    pub fan_in: usize,
    pub fan_out: usize,
}

/// A strongly connected component, by node positions.
#[derive(Debug)]
pub struct CallScc {
    pub members: Vec<usize>,
    pub cyclic: bool,
}

#[derive(Debug, Clone, Copy, PartialEq, Eq, Structural)]
pub struct CallGraphCoverage {
    pub total_calls: usize,
    pub exact_calls: usize,
    pub inferred_calls: usize,
    pub external_calls: usize,
    pub ambiguous_calls: usize,
    pub unresolved_calls: usize,
    pub unavailable_calls: usize,
}

/// A call graph: its nodes in graph order, and relations, metrics and
/// components that refer to nodes by position.
#[derive(Debug)]
pub struct CallGraphAnalysis {
    pub nodes: Vec<CallNode>,
    pub relations: Vec<CallRelation>,
    pub metrics: Vec<CallNodeMetrics>,
    pub strongly_connected_components: Vec<CallScc>,
    pub cycles: Vec<CallScc>,
    pub coverage: CallGraphCoverage,
}

/// Every relation joins two listed nodes.
pub open spec fn relations_listed(a: CallGraphAnalysis) -> bool {
    forall|j: int|
        0 <= j < a.relations.len() ==> (#[trigger] a.relations[j]).source < a.nodes.len() && a.relations[j].target
            < a.nodes.len()
}

/// An exact call relation leads from `x` to `y`, following calls (`callees`)
/// or against them.
pub open spec fn call_edge(rels: Seq<CallRelation>, callees: bool, x: usize, y: usize) -> bool {
    exists|j: int|
        0 <= j < rels.len() && (#[trigger] rels[j]).kind == CallRelationKind::Exact && if callees {
            rels[j].source == x && rels[j].target == y
        } else {
            rels[j].target == x && rels[j].source == y
        }
}

/// A walk of node positions along exact call relations.
pub open spec fn is_call_walk(rels: Seq<CallRelation>, callees: bool, n: nat, w: Seq<usize>) -> bool {
    &&& w.len() >= 1
    &&& forall|k: int| 0 <= k < w.len() ==> #[trigger] w[k] < n
    &&& forall|k: int| #![trigger w[k]] 0 <= k < w.len() - 1 ==> call_edge(rels, callees, w[k], w[k + 1])
}

/// Node `v` is reached from node `s` along exact call relations.
pub open spec fn call_reaches(rels: Seq<CallRelation>, callees: bool, n: nat, s: usize, v: usize) -> bool {
    exists|w: Seq<usize>| #[trigger] is_call_walk(rels, callees, n, w) && w[0] == s && w[w.len() - 1] == v
}

/// For each node, the nodes one exact call relation away, ascending.
fn call_adjacency(analysis: &CallGraphAnalysis, callees: bool) -> (adj: Vec<Vec<usize>>)
    requires
        relations_listed(*analysis),
    ensures
        adjacency_ok(adj@, analysis.nodes.len() as int),
        forall|x: int, y: usize|
            0 <= x < analysis.nodes.len() && y < analysis.nodes.len() ==> (#[trigger] adj[x]@.contains(y)
                <==> call_edge(analysis.relations@, callees, x as usize, y)),
{
    let rels = &analysis.relations;
    let u = analysis.nodes.len();
    let mut adj: Vec<Vec<usize>> = Vec::new();
    let mut a: usize = 0;
    while a < u
        invariant
            a <= u,
            u == analysis.nodes.len(),
            rels == &analysis.relations,
            relations_listed(*analysis),
            adj.len() == a,
            forall|r: int, i: int| 0 <= r < a && 0 <= i < adj[r].len() ==> #[trigger] adj[r][i] < u,
            forall|r: int, i: int, j: int| 0 <= r < a && 0 <= i < j < adj[r].len() ==> #[trigger] adj[r][i] < #[trigger] adj[r][j],
            forall|r: int, b: usize|
                0 <= r < a && b < u ==> (#[trigger] adj[r]@.contains(b) <==> call_edge(rels@, callees, r as usize, b)),
        decreases u - a,
    {
        let mut mark: Vec<bool> = Vec::new();
        let mut b: usize = 0;
        while b < u
            invariant
                b <= u,
                mark.len() == b,
                forall|x: int| 0 <= x < b ==> !mark[x],
            decreases u - b,
        {
            mark.push(false);
            b = b + 1;
        }
        let mut j: usize = 0;
        while j < rels.len()
            invariant
                j <= rels.len(),
                a < u,
                u == analysis.nodes.len(),
                rels == &analysis.relations,
                relations_listed(*analysis),
                mark.len() == u,
                forall|b2: int|
                    0 <= b2 < u ==> (#[trigger] mark[b2] <==> exists|x: int|
                        0 <= x < j && (#[trigger] rels[x]).kind == CallRelationKind::Exact && if callees {
                            rels[x].source == a && rels[x].target == b2
                        } else {
                            rels[x].target == a && rels[x].source == b2
                        }),
            decreases rels.len() - j,
        {
            let rel = &rels[j];
            let ghost before = mark@;
            let (p, q) = if callees {
                (rel.source, rel.target)
            } else {
                (rel.target, rel.source)
            };
            if rel.kind == CallRelationKind::Exact && p == a {
                mark.set(q, true);
            }
            proof {
                assert forall|b2: int| 0 <= b2 < u implies (#[trigger] mark[b2] <==> exists|x: int|
                    0 <= x < j + 1 && (#[trigger] rels[x]).kind == CallRelationKind::Exact && if callees {
                        rels[x].source == a && rels[x].target == b2
                    } else {
                        rels[x].target == a && rels[x].source == b2
                    }) by {
                    if before[b2] {
                        let x = choose|x: int|
                            0 <= x < j && (#[trigger] rels[x]).kind == CallRelationKind::Exact && if callees {
                                rels[x].source == a && rels[x].target == b2
                            } else {
                                rels[x].target == a && rels[x].source == b2
                            };
                    }
                }
            }
            j = j + 1;
        }
        let mut row: Vec<usize> = Vec::new();
        let mut b: usize = 0;
        while b < u
            invariant
                b <= u,
                mark.len() == u,
                forall|i: int| 0 <= i < row.len() ==> #[trigger] row[i] < b,
                forall|i: int, k: int| 0 <= i < k < row.len() ==> #[trigger] row[i] < #[trigger] row[k],
                forall|b2: usize| b2 < b ==> (#[trigger] row@.contains(b2) <==> mark[b2 as int]),
            decreases u - b,
        {
            let ghost old_row = row@;
            if mark[b] {
                row.push(b);
                proof {
                    assert(row[row.len() - 1] == b);
                }
            }
            proof {
                assert forall|b2: usize| b2 < b + 1 implies (#[trigger] row@.contains(b2) <==> mark[b2 as int]) by {
                    if row@.contains(b2) {
                        let i = choose|i: int| 0 <= i < row.len() && row[i] == b2;
                        if i < old_row.len() {
                            assert(old_row[i] == b2);
                            assert(old_row.contains(b2));
                        }
                    }
                    if b2 < b && old_row.contains(b2) {
                        let i = choose|i: int| 0 <= i < old_row.len() && old_row[i] == b2;
                        assert(row[i] == b2);
                    }
                    if b2 == b && old_row.contains(b2) {
                        let i = choose|i: int| 0 <= i < old_row.len() && old_row[i] == b2;
                        assert(old_row[i] < b);
                    }
                }
            }
            b = b + 1;
        }
        let ghost old_adj = adj@;
        adj.push(row);
        proof {
            assert forall|r: int, b2: usize|
                0 <= r < a + 1 && b2 < u implies (#[trigger] adj[r]@.contains(b2) <==> call_edge(
                rels@,
                callees,
                r as usize,
                b2,
            )) by {
                if r < a {
                    assert(adj[r] == old_adj[r]);
                } else {
                    assert(adj[r]@ == row@);
                    if call_edge(rels@, callees, r as usize, b2) {
                        let x = choose|x: int|
                            0 <= x < rels.len() && (#[trigger] rels@[x]).kind == CallRelationKind::Exact && if callees {
                                rels@[x].source == r as usize && rels@[x].target == b2
                            } else {
                                rels@[x].target == r as usize && rels@[x].source == b2
                            };
                        assert(mark[b2 as int]);
                    }
                }
            }
            assert forall|r: int, i: int| 0 <= r < a + 1 && 0 <= i < adj[r].len() implies #[trigger] adj[r][i] < u by {
                if r < a {
                    assert(adj[r] == old_adj[r]);
                }
            }
            assert forall|r: int, i: int, k: int| 0 <= r < a + 1 && 0 <= i < k < adj[r].len() implies #[trigger] adj[r][i] < #[trigger] adj[r][k] by {
                if r < a {
                    assert(adj[r] == old_adj[r]);
                }
            }
        }
        a = a + 1;
    }
    adj
}

/// Walks along the adjacency are exactly the walks along exact calls.
proof fn lemma_walks_agree(adj: Seq<Vec<usize>>, rels: Seq<CallRelation>, callees: bool, n: nat, w: Seq<usize>)
    requires
        adj.len() == n,
        forall|x: int, y: usize| 0 <= x < n && y < n ==> (#[trigger] adj[x]@.contains(y) <==> call_edge(rels, callees, x as usize, y)),
    ensures
        is_rank_walk(adj, w) <==> is_call_walk(rels, callees, n, w),
{
    if is_rank_walk(adj, w) {
        assert forall|k: int| #![trigger w[k]] 0 <= k < w.len() - 1 implies call_edge(rels, callees, w[k], w[k + 1]) by {
            assert(w[k] < n && w[k + 1] < n);
            assert(adj[w[k] as int]@.contains(w[k + 1]));
        }
    }
    if is_call_walk(rels, callees, n, w) {
        assert forall|k: int| #![trigger w[k]] 0 <= k < w.len() - 1 implies adj[w[k] as int]@.contains(w[k + 1]) by {
            assert(w[k] < n && w[k + 1] < n);
            assert(call_edge(rels, callees, w[k], w[k + 1]));
        }
    }
}

/// A set closed under the adjacency that holds the walk's start holds its
/// end.
proof fn lemma_closed_holds_walk(adj: Seq<Vec<usize>>, visited: Seq<bool>, w: Seq<usize>, k: int)
    requires
        is_rank_walk(adj, w),
        visited.len() == adj.len(),
        visited[w[0] as int],
        forall|v: int, i: int| 0 <= v < adj.len() && visited[v] && 0 <= i < adj[v].len() ==> visited[#[trigger] adj[v][i] as int],
        0 <= k < w.len(),
    ensures
        visited[w[k] as int],
    decreases k,
{
    if k > 0 {
        lemma_closed_holds_walk(adj, visited, w, k - 1);
        assert(w[k - 1] < adj.len());
        assert(adj[w[k - 1] as int]@.contains(w[k]));
        let row = adj[w[k - 1] as int]@;
        let i = choose|i: int| 0 <= i < row.len() && #[trigger] row[i] == w[k];
        assert(adj[w[k - 1] as int][i] == w[k]);
    }
}

/// A shortest walk along exact calls from the symbol `from` selects to the
/// symbol `to` selects; `None` when there is none. Each selector must name
/// exactly one local symbol. Which of several equally short walks comes
/// back is not stated.
pub fn shortest_call_path(analysis: &CallGraphAnalysis, from: &str, to: &str) -> (r: Result<
    Option<Vec<usize>>,
    CallGraphFilterError,
>)
    requires
        relations_listed(*analysis),
    ensures
        selected_count(analysis.nodes@, from@) != 1 ==> r is Err,
        selected_count(analysis.nodes@, from@) == 1 && selected_count(analysis.nodes@, to@) != 1 ==> r is Err,
        r is Err ==> selected_count(analysis.nodes@, from@) != 1 || selected_count(analysis.nodes@, to@) != 1,
        r matches Err(e) ==> {
            if selected_count(analysis.nodes@, from@) != 1 {
                e.0@ == if selected_count(analysis.nodes@, from@) == 0 {
                    missing_message(from@)
                } else {
                    duplicate_message(from@)
                }
            } else {
                e.0@ == if selected_count(analysis.nodes@, to@) == 0 {
                    missing_message(to@)
                } else {
                    duplicate_message(to@)
                }
            }
        },
        r matches Ok(Some(p)) ==> {
            &&& is_call_walk(analysis.relations@, true, analysis.nodes.len() as nat, p@)
            &&& selects(analysis.nodes[p[0] as int], from@)
            &&& selects(analysis.nodes[p[p.len() - 1] as int], to@)
            &&& forall|w: Seq<usize>|
                #[trigger] is_call_walk(analysis.relations@, true, analysis.nodes.len() as nat, w) && w[0] == p[0]
                    && w[w.len() - 1] == p[p.len() - 1] ==> p.len() <= w.len()
        },
        r matches Ok(None) ==> exists|s: usize, t: usize|
            s < analysis.nodes.len() && t < analysis.nodes.len() && selects(analysis.nodes[s as int], from@) && selects(
                analysis.nodes[t as int],
                to@,
            ) && !call_reaches(analysis.relations@, true, analysis.nodes.len() as nat, s, t),
{
    let start = match resolve_call_selector(&analysis.nodes, from) {
        Ok(i) => i,
        Err(e) => {
            return Err(e);
        },
    };
    let target = match resolve_call_selector(&analysis.nodes, to) {
        Ok(i) => i,
        Err(e) => {
            return Err(e);
        },
    };
    let n = analysis.nodes.len();
    let adj = call_adjacency(analysis, true);
    let ghost rels = analysis.relations@;
    let mut flags: Vec<bool> = Vec::new();
    let mut is_src: Vec<bool> = Vec::new();
    let mut k: usize = 0;
    while k < n
        invariant
            k <= n,
            flags.len() == k,
            is_src.len() == k,
            forall|v: int| 0 <= v < k ==> (#[trigger] flags[v] <==> v == target as int),
            forall|v: int| 0 <= v < k ==> (#[trigger] is_src[v] <==> v == start as int),
        decreases n - k,
    {
        flags.push(k == target);
        is_src.push(k == start);
        k = k + 1;
    }
    let sources: Vec<usize> = vec![start];
    proof {
        assert forall|v: int| 0 <= v < adj.len() implies (#[trigger] is_src[v] <==> sources@.contains(v as usize)) by {
            if is_src[v] {
                assert(sources@[0] == v as usize);
            }
        }
    }
    let (found, _visited) = bfs_search(&adj, &sources, &flags, &is_src);
    match found {
        Some(p) => {
            proof {
                lemma_walks_agree(adj@, rels, true, n as nat, p@);
                assert(sources@.contains(p[0]));
                assert forall|w: Seq<usize>|
                    #[trigger] is_call_walk(rels, true, n as nat, w) && w[0] == p[0] && w[w.len() - 1] == p[p.len() - 1]
                        implies p.len() <= w.len() by {
                    lemma_walks_agree(adj@, rels, true, n as nat, w);
                    assert(sources@.contains(w[0]));
                    assert(flags[w[w.len() - 1] as int]);
                }
            }
            Ok(Some(p))
        },
        None => {
            proof {
                if call_reaches(rels, true, n as nat, start, target) {
                    let w = choose|w: Seq<usize>| #[trigger] is_call_walk(rels, true, n as nat, w) && w[0] == start && w[w.len() - 1] == target;
                    lemma_walks_agree(adj@, rels, true, n as nat, w);
                    assert(sources@[0] == start);
                    lemma_closed_holds_walk(adj@, _visited@, w, w.len() - 1);
                    assert(flags[target as int]);
                }
            }
            Ok(None)
        },
    }
}

/// The positions of the nodes reached from the symbol `root` selects along
/// exact calls, following them (`Callees`) or against them (`Callers`),
/// the root included, ascending. Both directions at once are refused.
pub fn call_closure(analysis: &CallGraphAnalysis, root: &str, direction: CallDirection) -> (r: Result<
    Vec<usize>,
    CallGraphFilterError,
>)
    requires
        relations_listed(*analysis),
    ensures
        direction == CallDirection::Both ==> (r matches Err(e) && e.0@
            == "call closure direction must be callers or callees, not both"@),
        direction != CallDirection::Both ==> (r is Err <==> selected_count(analysis.nodes@, root@) != 1),
        direction != CallDirection::Both ==> (r matches Err(e) ==> e.0@ == if selected_count(analysis.nodes@, root@) == 0 {
            missing_message(root@)
        } else {
            duplicate_message(root@)
        }),
        r matches Ok(v) ==> {
            &&& forall|i: int, j: int| 0 <= i < j < v.len() ==> #[trigger] v[i] < #[trigger] v[j]
            &&& exists|s: usize|
                s < analysis.nodes.len() && selects(analysis.nodes[s as int], root@) && forall|x: usize|
                    x < analysis.nodes.len() ==> (#[trigger] v@.contains(x) <==> call_reaches(
                        analysis.relations@,
                        direction == CallDirection::Callees,
                        analysis.nodes.len() as nat,
                        s,
                        x,
                    ))
            &&& forall|i: int| 0 <= i < v.len() ==> #[trigger] v[i] < analysis.nodes.len()
        },
{
    if direction == CallDirection::Both {
        proof {
            reveal_strlit("call closure direction must be callers or callees, not both");
        }
        return Err(CallGraphFilterError(String::from_str("call closure direction must be callers or callees, not both")));
    }
    let start = match resolve_call_selector(&analysis.nodes, root) {
        Ok(i) => i,
        Err(e) => {
            return Err(e);
        },
    };
    let callees = direction == CallDirection::Callees;
    let n = analysis.nodes.len();
    let adj = call_adjacency(analysis, callees);
    let ghost rels = analysis.relations@;
    let mut flags: Vec<bool> = Vec::new();
    let mut is_src: Vec<bool> = Vec::new();
    let mut k: usize = 0;
    while k < n
        invariant
            k <= n,
            flags.len() == k,
            is_src.len() == k,
            forall|v: int| 0 <= v < k ==> !(#[trigger] flags[v]),
            forall|v: int| 0 <= v < k ==> (#[trigger] is_src[v] <==> v == start as int),
        decreases n - k,
    {
        flags.push(false);
        is_src.push(k == start);
        k = k + 1;
    }
    let sources: Vec<usize> = vec![start];
    proof {
        assert forall|v: int| 0 <= v < adj.len() implies (#[trigger] is_src[v] <==> sources@.contains(v as usize)) by {
            if is_src[v] {
                assert(sources@[0] == v as usize);
            }
        }
    }
    let (found, visited) = bfs_search(&adj, &sources, &flags, &is_src);
    proof {
        if found is Some {
            let p = found->0;
            assert(flags[p[p.len() - 1] as int]);
        }
        assert(sources@[0] == start);
        assert(visited[start as int]);
    }
    let mut out: Vec<usize> = Vec::new();
    let mut x: usize = 0;
    while x < n
        invariant
            x <= n,
            visited.len() == n,
            forall|i: int| 0 <= i < out.len() ==> #[trigger] out[i] < x,
            forall|i: int, j: int| 0 <= i < j < out.len() ==> #[trigger] out[i] < #[trigger] out[j],
            forall|y: usize| y < x ==> (#[trigger] out@.contains(y) <==> visited[y as int]),
        decreases n - x,
    {
        let ghost old_out = out@;
        if visited[x] {
            out.push(x);
            proof {
                assert(out[out.len() - 1] == x);
            }
        }
        proof {
            assert forall|y: usize| y < x + 1 implies (#[trigger] out@.contains(y) <==> visited[y as int]) by {
                if out@.contains(y) {
                    let i = choose|i: int| 0 <= i < out.len() && out[i] == y;
                    if i < old_out.len() {
                        assert(old_out[i] == y);
                        assert(old_out.contains(y));
                    }
                }
                if y < x && old_out.contains(y) {
                    let i = choose|i: int| 0 <= i < old_out.len() && old_out[i] == y;
                    assert(out[i] == y);
                }
                if y == x && old_out.contains(y) {
                    let i = choose|i: int| 0 <= i < old_out.len() && old_out[i] == y;
                    assert(old_out[i] < x);
                }
            }
        }
        x = x + 1;
    }
    proof {
        assert forall|y: usize| y < n implies (#[trigger] out@.contains(y) <==> call_reaches(rels, callees, n as nat, start, y)) by {
            if visited[y as int] {
                assert(rank_reach(adj@, sources@, y));
                let w = choose|w: Seq<usize>| #[trigger] is_rank_walk(adj@, w) && sources@.contains(w[0]) && w[w.len() - 1] == y;
                lemma_walks_agree(adj@, rels, callees, n as nat, w);
                assert(w[0] == start);
            }
            if call_reaches(rels, callees, n as nat, start, y) {
                let w = choose|w: Seq<usize>| #[trigger] is_call_walk(rels, callees, n as nat, w) && w[0] == start && w[w.len() - 1] == y;
                lemma_walks_agree(adj@, rels, callees, n as nat, w);
                lemma_closed_holds_walk(adj@, visited@, w, w.len() - 1);
            }
        }
    }
    Ok(out)
}


/// A node of a filtered call graph: its id, the position of its node in the
/// analysis, its metrics and the number of its cycle.
#[derive(Debug)]
pub struct CallGraphViewNode {
    pub id: String,
    pub node: usize,
    pub fan_in: usize,
    pub fan_out: usize,
    pub cyclic_component: Option<usize>,
}

/// A filtered call graph; relations refer to nodes by their position in
/// the analysis.
#[derive(Debug)]
pub struct CallGraphView {
    pub nodes: Vec<CallGraphViewNode>,
    pub relations: Vec<CallRelation>,
}

/// Each analysis node appears at most once in the view, every view node is
/// an analysis node, and every relation's ends are view nodes.
pub open spec fn view_ok(a: CallGraphAnalysis, v: CallGraphView) -> bool {
    &&& forall|i: int, j: int| 0 <= i < j < v.nodes.len() ==> (#[trigger] v.nodes[i]).node != (#[trigger] v.nodes[j]).node
    &&& forall|i: int| 0 <= i < v.nodes.len() ==> (#[trigger] v.nodes[i]).node < a.nodes.len()
    &&& forall|j: int|
        0 <= j < v.relations.len() ==> view_has(v.nodes@, (#[trigger] v.relations[j]).source) && view_has(
            v.nodes@,
            v.relations[j].target,
        )
}

pub open spec fn view_has(vn: Seq<CallGraphViewNode>, x: usize) -> bool {
    exists|i: int| 0 <= i < vn.len() && (#[trigger] vn[i]).node == x
}

/// The id of the view node of analysis node `x`.
pub open spec fn view_id(vn: Seq<CallGraphViewNode>, x: usize) -> Seq<char> {
    vn[choose|i: int| 0 <= i < vn.len() && (#[trigger] vn[i]).node == x].id@
}

pub open spec fn mermaid_arrow(k: CallRelationKind) -> Seq<char> {
    match k {
        CallRelationKind::Exact => "-->|exact|"@,
        CallRelationKind::Inferred => "-. inferred .->"@,
        CallRelationKind::Ambiguous => "-. ambiguous .->"@,
        CallRelationKind::External => "-. external .->"@,
        CallRelationKind::Unresolved => "-. unresolved .->"@,
        CallRelationKind::Unavailable => "-. unavailable .->"@,
    }
}

pub open spec fn dot_attributes(k: CallRelationKind) -> Seq<char> {
    match k {
        CallRelationKind::Exact => "label=\"exact\",color=\"#16805c\""@,
        CallRelationKind::Inferred => "label=\"inferred\",style=dashed,color=\"#a76210\""@,
        CallRelationKind::Ambiguous => "label=\"ambiguous\",style=dashed,color=\"#b93443\""@,
        CallRelationKind::External => "label=\"external\",style=dashed"@,
        CallRelationKind::Unresolved => "label=\"unresolved\",style=dashed,color=\"#b93443\""@,
        CallRelationKind::Unavailable => "label=\"unavailable\",style=dotted,color=\"#b93443\""@,
    }
}

/// The node lines of a diagram, `dot` choosing DOT over Mermaid.
pub open spec fn node_lines(a: Seq<CallNode>, vn: Seq<CallGraphViewNode>, dot: bool) -> Seq<char>
    decreases vn.len(),
{
    if vn.len() == 0 {
        Seq::empty()
    } else {
        let n = vn.last();
        let name = call_node_text(a[n.node as int]);
        node_lines(a, vn.drop_last(), dot) + if dot {
            "  "@ + n.id@ + " [label=\""@ + dot_text(name) + "\"];\n"@
        } else {
            "  "@ + n.id@ + "[\""@ + mermaid_text(name) + "\"]\n"@
        }
    }
}

/// The relation lines of a diagram.
pub open spec fn relation_lines(vn: Seq<CallGraphViewNode>, rels: Seq<CallRelation>, dot: bool) -> Seq<char>
    decreases rels.len(),
{
    if rels.len() == 0 {
        Seq::empty()
    } else {
        relation_lines(vn, rels.drop_last(), dot) + relation_line_text(vn, rels.last(), dot)
    }
}

/// The line of one relation of a diagram.
pub open spec fn relation_line_text(vn: Seq<CallGraphViewNode>, r: CallRelation, dot: bool) -> Seq<char> {
    if dot {
        "  "@ + view_id(vn, r.source) + " -> "@ + view_id(vn, r.target) + " ["@ + dot_attributes(r.kind) + "];\n"@
    } else {
        "  "@ + view_id(vn, r.source) + " "@ + mermaid_arrow(r.kind) + " "@ + view_id(vn, r.target) + "\n"@
    }
}

fn relation_line(vn: &Vec<CallGraphViewNode>, r: &CallRelation, dot: bool) -> (line: String)
    requires
        view_has(vn@, r.source),
        view_has(vn@, r.target),
        forall|i: int, j: int| 0 <= i < j < vn.len() ==> (#[trigger] vn[i]).node != (#[trigger] vn[j]).node,
    ensures
        line@ == relation_line_text(vn@, *r, dot),
{
    proof {
        reveal_strlit("  ");
        reveal_strlit(" -> ");
        reveal_strlit(" [");
        reveal_strlit("];\n");
        reveal_strlit(" ");
        reveal_strlit("\n");
        reveal_strlit("-->|exact|");
        reveal_strlit("-. inferred .->");
        reveal_strlit("-. ambiguous .->");
        reveal_strlit("-. external .->");
        reveal_strlit("-. unresolved .->");
        reveal_strlit("-. unavailable .->");
        reveal_strlit("label=\"exact\",color=\"#16805c\"");
        reveal_strlit("label=\"inferred\",style=dashed,color=\"#a76210\"");
        reveal_strlit("label=\"ambiguous\",style=dashed,color=\"#b93443\"");
        reveal_strlit("label=\"external\",style=dashed");
        reveal_strlit("label=\"unresolved\",style=dashed,color=\"#b93443\"");
        reveal_strlit("label=\"unavailable\",style=dotted,color=\"#b93443\"");
    }
    let s = view_id_of(vn, r.source);
    let t = view_id_of(vn, r.target);
    let mut out = String::new();
    push_text(&mut out, "  ");
    push_text(&mut out, s.as_str());
    if dot {
        push_text(&mut out, " -> ");
        push_text(&mut out, t.as_str());
        push_text(&mut out, " [");
        let attributes: &str = match r.kind {
            CallRelationKind::Exact => "label=\"exact\",color=\"#16805c\"",
            CallRelationKind::Inferred => "label=\"inferred\",style=dashed,color=\"#a76210\"",
            CallRelationKind::Ambiguous => "label=\"ambiguous\",style=dashed,color=\"#b93443\"",
            CallRelationKind::External => "label=\"external\",style=dashed",
            CallRelationKind::Unresolved => "label=\"unresolved\",style=dashed,color=\"#b93443\"",
            CallRelationKind::Unavailable => "label=\"unavailable\",style=dotted,color=\"#b93443\"",
        };
        push_text(&mut out, attributes);
        push_text(&mut out, "];\n");
    } else {
        push_text(&mut out, " ");
        let arrow: &str = match r.kind {
            CallRelationKind::Exact => "-->|exact|",
            CallRelationKind::Inferred => "-. inferred .->",
            CallRelationKind::Ambiguous => "-. ambiguous .->",
            CallRelationKind::External => "-. external .->",
            CallRelationKind::Unresolved => "-. unresolved .->",
            CallRelationKind::Unavailable => "-. unavailable .->",
        };
        push_text(&mut out, arrow);
        push_text(&mut out, " ");
        push_text(&mut out, t.as_str());
        push_text(&mut out, "\n");
    }
    out
}

fn view_id_of(vn: &Vec<CallGraphViewNode>, x: usize) -> (r: &String)
    requires
        view_has(vn@, x),
        forall|i: int, j: int| 0 <= i < j < vn.len() ==> (#[trigger] vn[i]).node != (#[trigger] vn[j]).node,
    ensures
        r@ == view_id(vn@, x),
{
    let mut i: usize = 0;
    while i < vn.len()
        invariant
            i <= vn.len(),
            view_has(vn@, x),
            forall|k: int| 0 <= k < i ==> (#[trigger] vn[k]).node != x,
            forall|a: int, b: int| 0 <= a < b < vn.len() ==> (#[trigger] vn[a]).node != (#[trigger] vn[b]).node,
        decreases vn.len() - i,
    {
        if vn[i].node == x {
            proof {
                let c = choose|c: int| 0 <= c < vn.len() && (#[trigger] vn@[c]).node == x;
                if c != i as int {
                    if c < i {
                        assert(vn[c].node != x);
                    } else {
                        assert(vn[i as int].node != vn[c].node);
                    }
                }
            }
            return &vn[i].id;
        }
        i = i + 1;
    }
    proof {
        let c = choose|c: int| 0 <= c < vn.len() && (#[trigger] vn@[c]).node == x;
        assert(vn[c].node != x);
    }
    &vn[0].id
}

fn render_call_diagram(analysis: &CallGraphAnalysis, view: &CallGraphView, dot: bool) -> (r: String)
    requires
        view_ok(*analysis, *view),
    ensures
        r@ == (if dot {
            "digraph call_graph {\n  rankdir=LR;\n"@
        } else {
            "flowchart LR\n"@
        }) + node_lines(analysis.nodes@, view.nodes@, dot) + relation_lines(view.nodes@, view.relations@, dot) + (if dot {
            "}\n"@
        } else {
            Seq::empty()
        }),
{
    proof {
        reveal_strlit("digraph call_graph {\n  rankdir=LR;\n");
        reveal_strlit("flowchart LR\n");
        reveal_strlit("}\n");
        reveal_strlit("  ");
        reveal_strlit(" [label=\"");
        reveal_strlit("\"];\n");
        reveal_strlit("[\"");
        reveal_strlit("\"]\n");
        reveal_strlit(" -> ");
        reveal_strlit(" [");
        reveal_strlit("];\n");
        reveal_strlit(" ");
        reveal_strlit("\n");
        reveal_strlit("-->|exact|");
        reveal_strlit("-. inferred .->");
        reveal_strlit("-. ambiguous .->");
        reveal_strlit("-. external .->");
        reveal_strlit("-. unresolved .->");
        reveal_strlit("-. unavailable .->");
        reveal_strlit("label=\"exact\",color=\"#16805c\"");
        reveal_strlit("label=\"inferred\",style=dashed,color=\"#a76210\"");
        reveal_strlit("label=\"ambiguous\",style=dashed,color=\"#b93443\"");
        reveal_strlit("label=\"external\",style=dashed");
        reveal_strlit("label=\"unresolved\",style=dashed,color=\"#b93443\"");
        reveal_strlit("label=\"unavailable\",style=dotted,color=\"#b93443\"");
    }
    let mut out = if dot {
        String::from_str("digraph call_graph {\n  rankdir=LR;\n")
    } else {
        String::from_str("flowchart LR\n")
    };
    let ghost head = out@;
    let mut i: usize = 0;
    while i < view.nodes.len()
        invariant
            i <= view.nodes.len(),
            view_ok(*analysis, *view),
            out@ == head + node_lines(analysis.nodes@, view.nodes@.take(i as int), dot),
        decreases view.nodes.len() - i,
    {
        let n = &view.nodes[i];
        let name = call_node_name(&analysis.nodes[n.node]);
        push_text(&mut out, "  ");
        push_text(&mut out, n.id.as_str());
        if dot {
            push_text(&mut out, " [label=\"");
            let e = escape_dot(name.as_str());
            push_text(&mut out, e.as_str());
            push_text(&mut out, "\"];\n");
        } else {
            push_text(&mut out, "[\"");
            let e = escape_mermaid(name.as_str());
            push_text(&mut out, e.as_str());
            push_text(&mut out, "\"]\n");
        }
        proof {
            assert(view.nodes@.take(i + 1).drop_last() =~= view.nodes@.take(i as int));
            assert(view.nodes@.take(i + 1).last() == view.nodes[i as int]);
        }
        i = i + 1;
    }
    proof {
        assert(view.nodes@.take(view.nodes.len() as int) =~= view.nodes@);
    }
    let ghost mid = out@;
    let mut j: usize = 0;
    while j < view.relations.len()
        invariant
            j <= view.relations.len(),
            view_ok(*analysis, *view),
            out@ == mid + relation_lines(view.nodes@, view.relations@.take(j as int), dot),
        decreases view.relations.len() - j,
    {
        let line = relation_line(&view.nodes, &view.relations[j], dot);
        push_text(&mut out, line.as_str());
        proof {
            assert(view.relations@.take(j + 1).drop_last() =~= view.relations@.take(j as int));
            assert(view.relations@.take(j + 1).last() == view.relations[j as int]);
        }
        j = j + 1;
    }
    proof {
        assert(view.relations@.take(view.relations.len() as int) =~= view.relations@);
    }
    if dot {
        push_text(&mut out, "}\n");
    }
    out
}

/// The Mermaid flowchart of a call-graph view: a line for each node, then
/// one for each relation, its arrow naming the relation's kind.
pub fn render_call_mermaid(analysis: &CallGraphAnalysis, view: &CallGraphView) -> (r: String)
    requires
        view_ok(*analysis, *view),
    ensures
        r@ == "flowchart LR\n"@ + node_lines(analysis.nodes@, view.nodes@, false) + relation_lines(
            view.nodes@,
            view.relations@,
            false,
        ),
{
    let r = render_call_diagram(analysis, view, false);
    proof {
        assert(r@ =~= "flowchart LR\n"@ + node_lines(analysis.nodes@, view.nodes@, false) + relation_lines(
            view.nodes@,
            view.relations@,
            false,
        ));
    }
    r
}

/// The DOT graph of a call-graph view: a line for each node, then one for
/// each relation, its attributes naming the relation's kind.
pub fn render_call_dot(analysis: &CallGraphAnalysis, view: &CallGraphView) -> (r: String)
    requires
        view_ok(*analysis, *view),
    ensures
        r@ == "digraph call_graph {\n  rankdir=LR;\n"@ + node_lines(analysis.nodes@, view.nodes@, true)
            + relation_lines(view.nodes@, view.relations@, true) + "}\n"@,
{
    render_call_diagram(analysis, view, true)
}

} // verus!
