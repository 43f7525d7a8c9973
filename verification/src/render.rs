//! Drawing a focused dependency view as Mermaid or Graphviz text: nodes
//! outside cycles first, then one group per cycle, then the relations and,
//! for Mermaid, the node classes.

use vstd::prelude::*;

use crate::dependencies::UnresolvedDependencyReason;
use crate::graph::{node_key, node_kind, DependencyNode, DependencyNodeKind, DependencyRelation, DependencyRelationKind, DependencyScc};
use crate::order::{compare_keys, key_view, lemma_key_facts, AtomView, KeyAtom};
use crate::output::{DependencyGraphView, DependencyGraphViewNode};
use crate::text::{decimal, push_decimal, push_text};

verus! {

/// The two text formats a view is drawn in.
#[derive(Debug, Clone, Copy, PartialEq, Eq, Structural)]
pub enum DiagramFormat {
    Mermaid,
    Dot,
}

/// The stable name of a reason a dependency is unresolved.
pub open spec fn reason_name(r: UnresolvedDependencyReason) -> Seq<char> {
    match r {
        UnresolvedDependencyReason::ModuleNotFound => "module-not-found"@,
        UnresolvedDependencyReason::RelativeImportBeyondRoot => "relative-import-beyond-root"@,
        UnresolvedDependencyReason::MissingPackageContext => "missing-package-context"@,
        UnresolvedDependencyReason::EnvironmentUnavailable => "environment-unavailable"@,
        UnresolvedDependencyReason::BuildContextUnavailable => "build-context-unavailable"@,
        UnresolvedDependencyReason::HeaderNotFound => "header-not-found"@,
        UnresolvedDependencyReason::MacroInclude => "macro-include"@,
        UnresolvedDependencyReason::UnsupportedCompileCommand => "unsupported-compile-command"@,
        UnresolvedDependencyReason::ImplicitSearchPathUnavailable => "implicit-search-path-unavailable"@,
    }
}

/// The two-line label of a node: its name, then its path or what it is.
pub open spec fn node_label(n: DependencyNode) -> Seq<char> {
    match n {
        DependencyNode::LocalModule(m) => m.id@.1 + "\n"@ + m.path@,
        DependencyNode::StandardLibrary(m) => m@.1 + "\nstandard library"@,
        DependencyNode::InstalledDistribution { distribution_display_name, version, .. } => distribution_display_name@
            + match version {
            Some(v) => "=="@ + v@,
            None => Seq::<char>::empty(),
        } + "\ninstalled package"@,
        DependencyNode::SystemHeader { name, .. } => name@ + "\nsystem header"@,
        DependencyNode::ExternalHeader { name, .. } => name@ + "\nexternal header"@,
        DependencyNode::Ambiguous { requested, .. } => requested@ + "\nambiguous"@,
        DependencyNode::Unresolved { requested, reason, .. } => requested@ + "\n"@ + reason_name(reason),
        DependencyNode::ContextDependent { requested, .. } => requested@ + "\ncontext dependent"@,
    }
}

/// How one character is written inside a quoted label.
pub open spec fn escape_char(f: DiagramFormat, c: char) -> Seq<char> {
    match f {
        DiagramFormat::Mermaid => if c == '&' {
            "&amp;"@
        } else if c == '<' {
            "&lt;"@
        } else if c == '>' {
            "&gt;"@
        } else if c == '"' {
            "&quot;"@
        } else if c == '\n' {
            "<br/>"@
        } else {
            seq![c]
        },
        DiagramFormat::Dot => if c == '\\' {
            "\\\\"@
        } else if c == '"' {
            "\\\""@
        } else if c == '\n' {
            "\\n"@
        } else {
            seq![c]
        },
    }
}

/// A label written inside quotes, character by character.
pub open spec fn escape_text(f: DiagramFormat, s: Seq<char>) -> Seq<char>
    decreases s.len(),
{
    if s.len() == 0 {
        Seq::empty()
    } else {
        escape_text(f, s.drop_last()) + escape_char(f, s.last())
    }
}

/// The Graphviz shape of a node kind.
pub open spec fn dot_shape(k: DependencyNodeKind) -> Seq<char> {
    match k {
        DependencyNodeKind::LocalModule => "box"@,
        DependencyNodeKind::StandardLibrary => "ellipse"@,
        DependencyNodeKind::InstalledDistribution => "component"@,
        DependencyNodeKind::SystemHeader => "ellipse"@,
        DependencyNodeKind::ExternalHeader => "component"@,
        DependencyNodeKind::Ambiguous => "diamond"@,
        DependencyNodeKind::Unresolved => "octagon"@,
        DependencyNodeKind::ContextDependent => "diamond"@,
    }
}

/// The Graphviz fill colour of a node kind.
pub open spec fn dot_fill(k: DependencyNodeKind) -> Seq<char> {
    match k {
        DependencyNodeKind::LocalModule => "#dbeafe"@,
        DependencyNodeKind::StandardLibrary => "#f3f4f6"@,
        DependencyNodeKind::InstalledDistribution => "#dcfce7"@,
        DependencyNodeKind::SystemHeader => "#f3f4f6"@,
        DependencyNodeKind::ExternalHeader => "#dcfce7"@,
        DependencyNodeKind::Ambiguous => "#ffedd5"@,
        DependencyNodeKind::Unresolved => "#fee2e2"@,
        DependencyNodeKind::ContextDependent => "#ede9fe"@,
    }
}

/// The line that draws one node, after `indent`.
pub open spec fn node_text(f: DiagramFormat, indent: Seq<char>, vn: DependencyGraphViewNode) -> Seq<char> {
    match f {
        DiagramFormat::Mermaid => indent + vn.id@ + "[\""@ + escape_text(f, node_label(vn.node)) + "\"]\n"@,
        DiagramFormat::Dot => indent + vn.id@ + " [label=\""@ + escape_text(f, node_label(vn.node)) + "\",shape="@
            + dot_shape(node_kind(vn.node)) + ",fillcolor=\""@ + dot_fill(node_kind(vn.node)) + "\",color=\""@
            + if vn.cyclic_component is Some {
            "#dc2626"@
        } else {
            "#374151"@
        } + "\"];\n"@,
    }
}

/// Some node of the view with key `k` belongs to a cycle.
pub open spec fn cyclic_key(ns: Seq<DependencyGraphViewNode>, k: Seq<AtomView>) -> bool {
    exists|i: int| 0 <= i < ns.len() && node_key(#[trigger] ns[i].node) == k && ns[i].cyclic_component is Some
}

/// The index of the first node of the view with key `k`, from `i` on.
pub open spec fn first_node_from(ns: Seq<DependencyGraphViewNode>, k: Seq<AtomView>, i: int) -> Option<int>
    decreases ns.len() - i,
{
    if i < 0 || i >= ns.len() {
        None
    } else if node_key(ns[i].node) == k {
        Some(i)
    } else {
        first_node_from(ns, k, i + 1)
    }
}

/// The index of the last node of the view with key `k`, below `n`.
pub open spec fn last_node_below(ns: Seq<DependencyGraphViewNode>, k: Seq<AtomView>, n: int) -> Option<int>
    decreases n,
{
    if n <= 0 {
        None
    } else if node_key(ns[n - 1].node) == k {
        Some(n - 1)
    } else {
        last_node_below(ns, k, n - 1)
    }
}

/// The first `n` nodes that lie outside every cycle, one line each.
pub open spec fn plain_nodes(f: DiagramFormat, ns: Seq<DependencyGraphViewNode>, n: int) -> Seq<char>
    decreases n,
{
    if n <= 0 {
        Seq::empty()
    } else {
        plain_nodes(f, ns, n - 1) + if cyclic_key(ns, node_key(ns[n - 1].node)) {
            Seq::<char>::empty()
        } else {
            node_text(f, "  "@, ns[n - 1])
        }
    }
}

/// The number of a cycle: that of the first member, in member order, whose
/// first view node has one; 0 if none has.
pub open spec fn cycle_number_from(ns: Seq<DependencyGraphViewNode>, members: Seq<DependencyNode>, j: int) -> usize
    decreases members.len() - j,
{
    if j < 0 || j >= members.len() {
        0
    } else {
        let found = first_node_from(ns, node_key(members[j]), 0);
        if found is Some && ns[found->0].cyclic_component is Some {
            ns[found->0].cyclic_component->0
        } else {
            cycle_number_from(ns, members, j + 1)
        }
    }
}

/// The lines of the first `n` members of a cycle that the view shows.
pub open spec fn member_nodes(f: DiagramFormat, ns: Seq<DependencyGraphViewNode>, members: Seq<DependencyNode>, n: int) -> Seq<
    char,
>
    decreases n,
{
    if n <= 0 {
        Seq::empty()
    } else {
        member_nodes(f, ns, members, n - 1) + match first_node_from(ns, node_key(members[n - 1]), 0) {
            Some(i) => node_text(f, "    "@, ns[i]),
            None => Seq::<char>::empty(),
        }
    }
}

/// The group that draws one cyclic component; nothing for another one.
pub open spec fn cycle_group(f: DiagramFormat, ns: Seq<DependencyGraphViewNode>, c: DependencyScc) -> Seq<char> {
    if !c.cyclic {
        Seq::empty()
    } else {
        let number = decimal(cycle_number_from(ns, c.members@, 0) as nat);
        let members = member_nodes(f, ns, c.members@, c.members.len() as int);
        match f {
            DiagramFormat::Mermaid => "  subgraph cycle_"@ + number + "[\"Cycle "@ + number + "\"]\n"@ + members
                + "  end\n"@,
            DiagramFormat::Dot => "  subgraph cluster_cycle_"@ + number + " {\n    label=\"Cycle "@ + number
                + "\";\n    color=\"#dc2626\";\n"@ + members + "  }\n"@,
        }
    }
}

/// The groups of the first `n` components.
pub open spec fn cycle_groups(f: DiagramFormat, ns: Seq<DependencyGraphViewNode>, cs: Seq<DependencyScc>, n: int) -> Seq<
    char,
>
    decreases n,
{
    if n <= 0 {
        Seq::empty()
    } else {
        cycle_groups(f, ns, cs, n - 1) + cycle_group(f, ns, cs[n - 1])
    }
}

/// The identifier of the last view node with key `k`.
pub open spec fn node_id_of(ns: Seq<DependencyGraphViewNode>, k: Seq<AtomView>) -> Seq<char> {
    ns[last_node_below(ns, k, ns.len() as int)->0].id@
}

/// What joins the two identifiers of a relation of a kind.
pub open spec fn arrow(f: DiagramFormat, k: DependencyRelationKind) -> Seq<char> {
    match f {
        DiagramFormat::Mermaid => match k {
            DependencyRelationKind::Exact => " --> "@,
            DependencyRelationKind::Inferred => " -. inferred .-> "@,
            DependencyRelationKind::Ambiguous => " -. ambiguous .-> "@,
            DependencyRelationKind::Unresolved => " -. unresolved .-> "@,
            DependencyRelationKind::ContextDependent => " -. context-dependent .-> "@,
        },
        DiagramFormat::Dot => " -> "@,
    }
}

/// The Graphviz attributes of a relation kind.
pub open spec fn edge_attributes(k: DependencyRelationKind) -> Seq<char> {
    match k {
        DependencyRelationKind::Exact => ""@,
        DependencyRelationKind::Inferred => " [style=dashed,color=\"#2563eb\",label=\"inferred\"]"@,
        DependencyRelationKind::Ambiguous => " [style=dashed,color=\"#ea580c\",label=\"ambiguous\"]"@,
        DependencyRelationKind::Unresolved => " [style=dashed,color=\"#dc2626\",label=\"unresolved\"]"@,
        DependencyRelationKind::ContextDependent => " [style=dashed,color=\"#7c3aed\",label=\"context-dependent\"]"@,
    }
}

/// The line that draws one relation.
pub open spec fn relation_text(f: DiagramFormat, ns: Seq<DependencyGraphViewNode>, r: DependencyRelation) -> Seq<char> {
    let head = "  "@ + node_id_of(ns, node_key(r.source)) + arrow(f, r.kind) + node_id_of(ns, node_key(r.target));
    match f {
        DiagramFormat::Mermaid => head + "\n"@,
        DiagramFormat::Dot => head + edge_attributes(r.kind) + ";\n"@,
    }
}

/// The lines of the first `n` relations.
pub open spec fn relation_lines(f: DiagramFormat, ns: Seq<DependencyGraphViewNode>, rs: Seq<DependencyRelation>, n: int) -> Seq<
    char,
>
    decreases n,
{
    if n <= 0 {
        Seq::empty()
    } else {
        relation_lines(f, ns, rs, n - 1) + relation_text(f, ns, rs[n - 1])
    }
}

/// Every relation of the view joins two nodes of the view.
pub open spec fn relations_drawable(v: DependencyGraphView) -> bool {
    forall|i: int|
        0 <= i < v.relations.len() ==> last_node_below(v.nodes@, node_key(#[trigger] v.relations@[i].source), v.nodes.len() as int)
            is Some && last_node_below(v.nodes@, node_key(v.relations@[i].target), v.nodes.len() as int) is Some
}

/// The Mermaid class of a node kind.
pub open spec fn mermaid_class(k: DependencyNodeKind) -> Seq<char> {
    match k {
        DependencyNodeKind::LocalModule => "local"@,
        DependencyNodeKind::StandardLibrary => "standard"@,
        DependencyNodeKind::InstalledDistribution => "installed"@,
        DependencyNodeKind::SystemHeader => "standard"@,
        DependencyNodeKind::ExternalHeader => "installed"@,
        DependencyNodeKind::Ambiguous => "ambiguous"@,
        DependencyNodeKind::Unresolved => "unresolved"@,
        DependencyNodeKind::ContextDependent => "ambiguous"@,
    }
}

/// The Mermaid class definitions.
pub open spec fn class_definitions() -> Seq<char> {
    "  classDef local fill:#dbeafe,stroke:#2563eb,color:#172554\n"@
        + "  classDef standard fill:#f3f4f6,stroke:#6b7280,color:#111827\n"@
        + "  classDef installed fill:#dcfce7,stroke:#16a34a,color:#14532d\n"@
        + "  classDef ambiguous fill:#ffedd5,stroke:#ea580c,color:#7c2d12\n"@
        + "  classDef unresolved fill:#fee2e2,stroke:#dc2626,color:#7f1d1d\n"@
        + "  classDef cyclic stroke:#dc2626,stroke-width:3px\n"@
}

/// The class lines of one node.
pub open spec fn class_text(vn: DependencyGraphViewNode) -> Seq<char> {
    "  class "@ + vn.id@ + " "@ + mermaid_class(node_kind(vn.node)) + "\n"@ + if vn.cyclic_component is Some {
        "  class "@ + vn.id@ + " cyclic\n"@
    } else {
        Seq::<char>::empty()
    }
}

/// The class lines of the first `n` nodes.
pub open spec fn class_lines(ns: Seq<DependencyGraphViewNode>, n: int) -> Seq<char>
    decreases n,
{
    if n <= 0 {
        Seq::empty()
    } else {
        class_lines(ns, n - 1) + class_text(ns[n - 1])
    }
}

/// The Mermaid text of a view.
pub open spec fn mermaid_text(v: DependencyGraphView) -> Seq<char> {
    let f = DiagramFormat::Mermaid;
    "flowchart LR\n"@ + plain_nodes(f, v.nodes@, v.nodes.len() as int) + cycle_groups(
        f,
        v.nodes@,
        v.strongly_connected_components@,
        v.strongly_connected_components.len() as int,
    ) + relation_lines(f, v.nodes@, v.relations@, v.relations.len() as int) + class_definitions() + class_lines(
        v.nodes@,
        v.nodes.len() as int,
    )
}

/// The Graphviz header.
pub open spec fn dot_header() -> Seq<char> {
    "digraph dependencies {\n  rankdir=LR;\n  graph [fontname=\"Helvetica\"];\n  node [fontname=\"Helvetica\", style=filled];\n  edge [fontname=\"Helvetica\"];\n"@
}

/// The Graphviz text of a view.
pub open spec fn dot_text(v: DependencyGraphView) -> Seq<char> {
    let f = DiagramFormat::Dot;
    dot_header() + plain_nodes(f, v.nodes@, v.nodes.len() as int) + cycle_groups(
        f,
        v.nodes@,
        v.strongly_connected_components@,
        v.strongly_connected_components.len() as int,
    ) + relation_lines(f, v.nodes@, v.relations@, v.relations.len() as int) + "}\n"@
}

/// `keys` holds the key of each node of the view.
pub open spec fn keys_match(ns: Seq<DependencyGraphViewNode>, keys: Seq<Vec<KeyAtom>>) -> bool {
    &&& keys.len() == ns.len()
    &&& forall|j: int| 0 <= j < ns.len() ==> key_view(#[trigger] keys[j]@) == node_key(ns[j].node)
}

fn view_keys(ns: &Vec<DependencyGraphViewNode>) -> (keys: Vec<Vec<KeyAtom>>)
    ensures
        keys_match(ns@, keys@),
{
    let mut keys: Vec<Vec<KeyAtom>> = Vec::new();
    let mut i: usize = 0;
    while i < ns.len()
        invariant
            i <= ns.len(),
            keys.len() == i,
            forall|j: int| 0 <= j < i ==> key_view(#[trigger] keys@[j]@) == node_key(ns@[j].node),
        decreases ns.len() - i,
    {
        keys.push(ns[i].node.key());
        i = i + 1;
    }
    keys
}

fn same_key(a: &Vec<KeyAtom>, b: &Vec<KeyAtom>) -> (r: bool)
    ensures
        r == (key_view(a@) == key_view(b@)),
{
    proof {
        lemma_key_facts(key_view(a@), key_view(b@));
    }
    compare_keys(a, b) == 0
}

fn cyclic_at(ns: &Vec<DependencyGraphViewNode>, keys: &Vec<Vec<KeyAtom>>, k: &Vec<KeyAtom>) -> (r: bool)
    requires
        keys_match(ns@, keys@),
    ensures
        r == cyclic_key(ns@, key_view(k@)),
{
    let mut j: usize = 0;
    while j < ns.len()
        invariant
            j <= ns.len(),
            keys_match(ns@, keys@),
            forall|i: int| 0 <= i < j ==> !(node_key(#[trigger] ns@[i].node) == key_view(k@) && ns@[i].cyclic_component is Some),
        decreases ns.len() - j,
    {
        if same_key(&keys[j], k) && ns[j].cyclic_component.is_some() {
            return true;
        }
        j = j + 1;
    }
    false
}

fn first_at(ns: &Vec<DependencyGraphViewNode>, keys: &Vec<Vec<KeyAtom>>, k: &Vec<KeyAtom>) -> (r: Option<usize>)
    requires
        keys_match(ns@, keys@),
    ensures
        r matches Some(i) ==> i < ns.len(),
        match r {
            Some(i) => first_node_from(ns@, key_view(k@), 0) == Some(i as int),
            None => first_node_from(ns@, key_view(k@), 0) is None,
        },
{
    let mut j: usize = 0;
    while j < ns.len()
        invariant
            j <= ns.len(),
            keys_match(ns@, keys@),
            first_node_from(ns@, key_view(k@), 0) == first_node_from(ns@, key_view(k@), j as int),
        decreases ns.len() - j,
    {
        if same_key(&keys[j], k) {
            return Some(j);
        }
        j = j + 1;
    }
    None
}

fn last_at(ns: &Vec<DependencyGraphViewNode>, keys: &Vec<Vec<KeyAtom>>, k: &Vec<KeyAtom>) -> (r: Option<usize>)
    requires
        keys_match(ns@, keys@),
    ensures
        r matches Some(i) ==> i < ns.len(),
        match r {
            Some(i) => last_node_below(ns@, key_view(k@), ns.len() as int) == Some(i as int),
            None => last_node_below(ns@, key_view(k@), ns.len() as int) is None,
        },
{
    let mut found: Option<usize> = None;
    let mut j: usize = 0;
    while j < ns.len()
        invariant
            j <= ns.len(),
            keys_match(ns@, keys@),
            found matches Some(i) ==> i < j,
            match found {
                Some(i) => last_node_below(ns@, key_view(k@), j as int) == Some(i as int),
                None => last_node_below(ns@, key_view(k@), j as int) is None,
            },
        decreases ns.len() - j,
    {
        if same_key(&keys[j], k) {
            found = Some(j);
        }
        j = j + 1;
    }
    found
}

fn push_escaped(out: &mut String, f: DiagramFormat, s: &str)
    ensures
        final(out)@ == old(out)@ + escape_text(f, s@),
{
    let chars = crate::order::text_chars(s);
    let ghost start = out@;
    let mut i: usize = 0;
    while i < chars.len()
        invariant
            i <= chars.len(),
            out@ == start + escape_text(f, chars@.take(i as int)),
        decreases chars.len() - i,
    {
        let c = chars[i];
        let ghost before = out@;
        match f {
            DiagramFormat::Mermaid => {
                if c == '&' {
                    push_text(out, "&amp;");
                } else if c == '<' {
                    push_text(out, "&lt;");
                } else if c == '>' {
                    push_text(out, "&gt;");
                } else if c == '"' {
                    push_text(out, "&quot;");
                } else if c == '\n' {
                    push_text(out, "<br/>");
                } else {
                    crate::text::push_char(out, c);
                    assert(out@ =~= before + seq![c]);
                }
            },
            DiagramFormat::Dot => {
                if c == '\\' {
                    push_text(out, "\\\\");
                } else if c == '"' {
                    push_text(out, "\\\"");
                } else if c == '\n' {
                    push_text(out, "\\n");
                } else {
                    crate::text::push_char(out, c);
                    assert(out@ =~= before + seq![c]);
                }
            },
        }
        proof {
            let t = chars@.take(i + 1);
            assert(t.drop_last() =~= chars@.take(i as int));
            assert(t.last() == c);
            assert(out@ == before + escape_char(f, c));
            assert(out@ =~= start + escape_text(f, t));
        }
        i = i + 1;
    }
    proof {
        assert(chars@.take(chars.len() as int) =~= s@);
    }
}

fn push_label(out: &mut String, n: &DependencyNode)
    ensures
        final(out)@ == old(out)@ + node_label(*n),
{
    let ghost start = out@;
    match n {
        DependencyNode::LocalModule(m) => {
            push_text(out, m.id.qualified_name());
            push_text(out, "\n");
            push_text(out, m.path.as_str());
        },
        DependencyNode::StandardLibrary(m) => {
            push_text(out, m.qualified_name());
            push_text(out, "\nstandard library");
        },
        DependencyNode::InstalledDistribution { distribution_display_name, version, .. } => {
            push_text(out, distribution_display_name.as_str());
            let ghost mid = out@;
            match version {
                Some(v) => {
                    push_text(out, "==");
                    push_text(out, v.as_str());
                },
                None => {
                    assert(out@ =~= mid + Seq::<char>::empty());
                },
            }
            push_text(out, "\ninstalled package");
        },
        DependencyNode::SystemHeader { name, .. } => {
            push_text(out, name.as_str());
            push_text(out, "\nsystem header");
        },
        DependencyNode::ExternalHeader { name, .. } => {
            push_text(out, name.as_str());
            push_text(out, "\nexternal header");
        },
        DependencyNode::Ambiguous { requested, .. } => {
            push_text(out, requested.as_str());
            push_text(out, "\nambiguous");
        },
        DependencyNode::Unresolved { requested, reason, .. } => {
            push_text(out, requested.as_str());
            push_text(out, "\n");
            push_text(out, reason.as_str());
        },
        DependencyNode::ContextDependent { requested, .. } => {
            push_text(out, requested.as_str());
            push_text(out, "\ncontext dependent");
        },
    }
    assert(out@ =~= start + node_label(*n));
}

fn dot_shape_text(k: DependencyNodeKind) -> (r: &'static str)
    ensures
        r@ == dot_shape(k),
{
    match k {
        DependencyNodeKind::LocalModule => "box",
        DependencyNodeKind::StandardLibrary => "ellipse",
        DependencyNodeKind::InstalledDistribution => "component",
        DependencyNodeKind::SystemHeader => "ellipse",
        DependencyNodeKind::ExternalHeader => "component",
        DependencyNodeKind::Ambiguous => "diamond",
        DependencyNodeKind::Unresolved => "octagon",
        DependencyNodeKind::ContextDependent => "diamond",
    }
}

fn dot_fill_text(k: DependencyNodeKind) -> (r: &'static str)
    ensures
        r@ == dot_fill(k),
{
    match k {
        DependencyNodeKind::LocalModule => "#dbeafe",
        DependencyNodeKind::StandardLibrary => "#f3f4f6",
        DependencyNodeKind::InstalledDistribution => "#dcfce7",
        DependencyNodeKind::SystemHeader => "#f3f4f6",
        DependencyNodeKind::ExternalHeader => "#dcfce7",
        DependencyNodeKind::Ambiguous => "#ffedd5",
        DependencyNodeKind::Unresolved => "#fee2e2",
        DependencyNodeKind::ContextDependent => "#ede9fe",
    }
}

fn mermaid_class_text(k: DependencyNodeKind) -> (r: &'static str)
    ensures
        r@ == mermaid_class(k),
{
    match k {
        DependencyNodeKind::LocalModule => "local",
        DependencyNodeKind::StandardLibrary => "standard",
        DependencyNodeKind::InstalledDistribution => "installed",
        DependencyNodeKind::SystemHeader => "standard",
        DependencyNodeKind::ExternalHeader => "installed",
        DependencyNodeKind::Ambiguous => "ambiguous",
        DependencyNodeKind::Unresolved => "unresolved",
        DependencyNodeKind::ContextDependent => "ambiguous",
    }
}

fn arrow_text(f: DiagramFormat, k: DependencyRelationKind) -> (r: &'static str)
    ensures
        r@ == arrow(f, k),
{
    match f {
        DiagramFormat::Mermaid => match k {
            DependencyRelationKind::Exact => " --> ",
            DependencyRelationKind::Inferred => " -. inferred .-> ",
            DependencyRelationKind::Ambiguous => " -. ambiguous .-> ",
            DependencyRelationKind::Unresolved => " -. unresolved .-> ",
            DependencyRelationKind::ContextDependent => " -. context-dependent .-> ",
        },
        DiagramFormat::Dot => " -> ",
    }
}

fn edge_attributes_text(k: DependencyRelationKind) -> (r: &'static str)
    ensures
        r@ == edge_attributes(k),
{
    match k {
        DependencyRelationKind::Exact => "",
        DependencyRelationKind::Inferred => " [style=dashed,color=\"#2563eb\",label=\"inferred\"]",
        DependencyRelationKind::Ambiguous => " [style=dashed,color=\"#ea580c\",label=\"ambiguous\"]",
        DependencyRelationKind::Unresolved => " [style=dashed,color=\"#dc2626\",label=\"unresolved\"]",
        DependencyRelationKind::ContextDependent => " [style=dashed,color=\"#7c3aed\",label=\"context-dependent\"]",
    }
}

fn push_node(out: &mut String, f: DiagramFormat, indent: &str, vn: &DependencyGraphViewNode)
    ensures
        final(out)@ == old(out)@ + node_text(f, indent@, *vn),
{
    let ghost start = out@;
    let mut label = String::new();
    push_label(&mut label, &vn.node);
    assert(label@ =~= node_label(vn.node));
    push_text(out, indent);
    push_text(out, vn.id.as_str());
    match f {
        DiagramFormat::Mermaid => {
            push_text(out, "[\"");
            push_escaped(out, f, label.as_str());
            push_text(out, "\"]\n");
        },
        DiagramFormat::Dot => {
            let kind = vn.node.kind();
            push_text(out, " [label=\"");
            push_escaped(out, f, label.as_str());
            push_text(out, "\",shape=");
            push_text(out, dot_shape_text(kind));
            push_text(out, ",fillcolor=\"");
            push_text(out, dot_fill_text(kind));
            push_text(out, "\",color=\"");
            if vn.cyclic_component.is_some() {
                push_text(out, "#dc2626");
            } else {
                push_text(out, "#374151");
            }
            push_text(out, "\"];\n");
        },
    }
    assert(out@ =~= start + node_text(f, indent@, *vn));
}

fn push_plain_nodes(out: &mut String, f: DiagramFormat, ns: &Vec<DependencyGraphViewNode>, keys: &Vec<Vec<KeyAtom>>)
    requires
        keys_match(ns@, keys@),
    ensures
        final(out)@ == old(out)@ + plain_nodes(f, ns@, ns.len() as int),
{
    let ghost start = out@;
    let mut i: usize = 0;
    while i < ns.len()
        invariant
            i <= ns.len(),
            keys_match(ns@, keys@),
            out@ == start + plain_nodes(f, ns@, i as int),
        decreases ns.len() - i,
    {
        let ghost before = out@;
        if !cyclic_at(ns, keys, &keys[i]) {
            push_node(out, f, "  ", &ns[i]);
        }
        proof {
            assert(key_view(keys@[i as int]@) == node_key(ns@[i as int].node));
            if cyclic_key(ns@, node_key(ns@[i as int].node)) {
                assert(out@ =~= before + Seq::<char>::empty());
            }
            assert(out@ =~= start + plain_nodes(f, ns@, i + 1));
        }
        i = i + 1;
    }
}

fn cycle_number(ns: &Vec<DependencyGraphViewNode>, keys: &Vec<Vec<KeyAtom>>, members: &Vec<DependencyNode>) -> (r: usize)
    requires
        keys_match(ns@, keys@),
    ensures
        r == cycle_number_from(ns@, members@, 0),
{
    let mut j: usize = 0;
    while j < members.len()
        invariant
            j <= members.len(),
            keys_match(ns@, keys@),
            cycle_number_from(ns@, members@, 0) == cycle_number_from(ns@, members@, j as int),
        decreases members.len() - j,
    {
        let mk = members[j].key();
        match first_at(ns, keys, &mk) {
            Some(i) => {
                match ns[i].cyclic_component {
                    Some(c) => {
                        return c;
                    },
                    None => {},
                }
            },
            None => {},
        }
        j = j + 1;
    }
    0
}

fn push_member_nodes(
    out: &mut String,
    f: DiagramFormat,
    ns: &Vec<DependencyGraphViewNode>,
    keys: &Vec<Vec<KeyAtom>>,
    members: &Vec<DependencyNode>,
)
    requires
        keys_match(ns@, keys@),
    ensures
        final(out)@ == old(out)@ + member_nodes(f, ns@, members@, members.len() as int),
{
    let ghost start = out@;
    let mut j: usize = 0;
    while j < members.len()
        invariant
            j <= members.len(),
            keys_match(ns@, keys@),
            out@ == start + member_nodes(f, ns@, members@, j as int),
        decreases members.len() - j,
    {
        let ghost before = out@;
        let mk = members[j].key();
        match first_at(ns, keys, &mk) {
            Some(i) => {
                push_node(out, f, "    ", &ns[i]);
            },
            None => {
                assert(out@ =~= before + Seq::<char>::empty());
            },
        }
        assert(out@ =~= start + member_nodes(f, ns@, members@, j + 1));
        j = j + 1;
    }
}

fn push_cycle_group(out: &mut String, f: DiagramFormat, ns: &Vec<DependencyGraphViewNode>, keys: &Vec<Vec<KeyAtom>>, c: &DependencyScc)
    requires
        keys_match(ns@, keys@),
    ensures
        final(out)@ == old(out)@ + cycle_group(f, ns@, *c),
{
    let ghost start = out@;
    if !c.cyclic {
        assert(out@ =~= start + Seq::<char>::empty());
        return;
    }
    let number = cycle_number(ns, keys, &c.members) as u64;
    match f {
        DiagramFormat::Mermaid => {
            push_text(out, "  subgraph cycle_");
            push_decimal(out, number);
            push_text(out, "[\"Cycle ");
            push_decimal(out, number);
            push_text(out, "\"]\n");
            push_member_nodes(out, f, ns, keys, &c.members);
            push_text(out, "  end\n");
        },
        DiagramFormat::Dot => {
            push_text(out, "  subgraph cluster_cycle_");
            push_decimal(out, number);
            push_text(out, " {\n    label=\"Cycle ");
            push_decimal(out, number);
            push_text(out, "\";\n    color=\"#dc2626\";\n");
            push_member_nodes(out, f, ns, keys, &c.members);
            push_text(out, "  }\n");
        },
    }
    assert(out@ =~= start + cycle_group(f, ns@, *c));
}

fn push_cycle_groups(
    out: &mut String,
    f: DiagramFormat,
    ns: &Vec<DependencyGraphViewNode>,
    keys: &Vec<Vec<KeyAtom>>,
    cs: &Vec<DependencyScc>,
)
    requires
        keys_match(ns@, keys@),
    ensures
        final(out)@ == old(out)@ + cycle_groups(f, ns@, cs@, cs.len() as int),
{
    let ghost start = out@;
    let mut i: usize = 0;
    while i < cs.len()
        invariant
            i <= cs.len(),
            keys_match(ns@, keys@),
            out@ == start + cycle_groups(f, ns@, cs@, i as int),
        decreases cs.len() - i,
    {
        push_cycle_group(out, f, ns, keys, &cs[i]);
        assert(out@ =~= start + cycle_groups(f, ns@, cs@, i + 1));
        i = i + 1;
    }
}

fn push_relation_lines(out: &mut String, f: DiagramFormat, view: &DependencyGraphView, keys: &Vec<Vec<KeyAtom>>)
    requires
        keys_match(view.nodes@, keys@),
        relations_drawable(*view),
    ensures
        final(out)@ == old(out)@ + relation_lines(f, view.nodes@, view.relations@, view.relations.len() as int),
{
    let ghost start = out@;
    let ns = &view.nodes;
    let rs = &view.relations;
    let mut i: usize = 0;
    while i < rs.len()
        invariant
            i <= rs.len(),
            ns == &view.nodes,
            rs == &view.relations,
            keys_match(ns@, keys@),
            relations_drawable(*view),
            out@ == start + relation_lines(f, ns@, rs@, i as int),
        decreases rs.len() - i,
    {
        let ghost before = out@;
        let r = &rs[i];
        let sk = r.source.key();
        let tk = r.target.key();
        proof {
            assert(last_node_below(ns@, node_key(rs@[i as int].source), ns.len() as int) is Some);
            assert(last_node_below(ns@, node_key(rs@[i as int].target), ns.len() as int) is Some);
        }
        let si = match last_at(ns, keys, &sk) {
            Some(x) => x,
            None => 0,
        };
        let ti = match last_at(ns, keys, &tk) {
            Some(x) => x,
            None => 0,
        };
        push_text(out, "  ");
        push_text(out, ns[si].id.as_str());
        push_text(out, arrow_text(f, r.kind));
        push_text(out, ns[ti].id.as_str());
        match f {
            DiagramFormat::Mermaid => {
                push_text(out, "\n");
            },
            DiagramFormat::Dot => {
                push_text(out, edge_attributes_text(r.kind));
                push_text(out, ";\n");
            },
        }
        proof {
            assert(out@ =~= before + relation_text(f, ns@, rs@[i as int]));
            assert(out@ =~= start + relation_lines(f, ns@, rs@, i + 1));
        }
        i = i + 1;
    }
}

fn push_class_lines(out: &mut String, ns: &Vec<DependencyGraphViewNode>)
    ensures
        final(out)@ == old(out)@ + class_lines(ns@, ns.len() as int),
{
    let ghost start = out@;
    let mut i: usize = 0;
    while i < ns.len()
        invariant
            i <= ns.len(),
            out@ == start + class_lines(ns@, i as int),
        decreases ns.len() - i,
    {
        let ghost before = out@;
        let vn = &ns[i];
        push_text(out, "  class ");
        push_text(out, vn.id.as_str());
        push_text(out, " ");
        push_text(out, mermaid_class_text(vn.node.kind()));
        push_text(out, "\n");
        let ghost mid = out@;
        if vn.cyclic_component.is_some() {
            push_text(out, "  class ");
            push_text(out, vn.id.as_str());
            push_text(out, " cyclic\n");
        } else {
            assert(out@ =~= mid + Seq::<char>::empty());
        }
        proof {
            assert(out@ =~= before + class_text(ns@[i as int]));
            assert(out@ =~= start + class_lines(ns@, i + 1));
        }
        i = i + 1;
    }
}

/// The view as a Mermaid flowchart: the nodes outside cycles, one subgraph
/// per cycle, the relations by kind, and the node classes.
pub fn render_dependency_mermaid(view: &DependencyGraphView) -> (r: String)
    requires
        relations_drawable(*view),
    ensures
        r@ == mermaid_text(*view),
{
    let f = DiagramFormat::Mermaid;
    let keys = view_keys(&view.nodes);
    let mut out = String::new();
    push_text(&mut out, "flowchart LR\n");
    push_plain_nodes(&mut out, f, &view.nodes, &keys);
    push_cycle_groups(&mut out, f, &view.nodes, &keys, &view.strongly_connected_components);
    push_relation_lines(&mut out, f, view, &keys);
    push_text(&mut out, "  classDef local fill:#dbeafe,stroke:#2563eb,color:#172554\n");
    push_text(&mut out, "  classDef standard fill:#f3f4f6,stroke:#6b7280,color:#111827\n");
    push_text(&mut out, "  classDef installed fill:#dcfce7,stroke:#16a34a,color:#14532d\n");
    push_text(&mut out, "  classDef ambiguous fill:#ffedd5,stroke:#ea580c,color:#7c2d12\n");
    push_text(&mut out, "  classDef unresolved fill:#fee2e2,stroke:#dc2626,color:#7f1d1d\n");
    push_text(&mut out, "  classDef cyclic stroke:#dc2626,stroke-width:3px\n");
    push_class_lines(&mut out, &view.nodes);
    assert(out@ =~= mermaid_text(*view));
    out
}

/// The view as a Graphviz digraph: the nodes outside cycles, one cluster per
/// cycle, and the relations by kind.
pub fn render_dependency_dot(view: &DependencyGraphView) -> (r: String)
    requires
        relations_drawable(*view),
    ensures
        r@ == dot_text(*view),
{
    let f = DiagramFormat::Dot;
    let keys = view_keys(&view.nodes);
    let mut out = String::new();
    push_text(
        &mut out,
        "digraph dependencies {\n  rankdir=LR;\n  graph [fontname=\"Helvetica\"];\n  node [fontname=\"Helvetica\", style=filled];\n  edge [fontname=\"Helvetica\"];\n",
    );
    push_plain_nodes(&mut out, f, &view.nodes, &keys);
    push_cycle_groups(&mut out, f, &view.nodes, &keys, &view.strongly_connected_components);
    push_relation_lines(&mut out, f, view, &keys);
    push_text(&mut out, "}\n");
    assert(out@ =~= dot_text(*view));
    out
}

} // verus!
