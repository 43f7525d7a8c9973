//! The records that the graph explorer shows for the nodes of a dependency
//! view: a short visual label, a subtitle, and the candidates of an
//! ambiguous import.

use vstd::prelude::*;

use crate::analyzer::{copy_opt_string, opt_text};
use crate::dependencies::DependencyTarget;
use crate::graph::DependencyNode;
use crate::json_output::{json_path, json_path_text, opt_static, reason_name};
use crate::output::DependencyGraphViewNode;
use crate::paths::{file_name, path_file_name};
use crate::text::{copy_string, push_text, string_from_chars, text_eq};

verus! {

/// A candidate target as the explorer shows it.
#[derive(Debug)]
pub struct HtmlCandidate {
    pub kind: &'static str,
    pub name: String,
    pub detail: Option<String>,
}

/// A node as the explorer shows it.
#[derive(Debug)]
pub struct HtmlNode {
    pub id: String,
    pub name: String,
    pub short_name: String,
    pub kind: &'static str,
    pub subtitle: String,
    pub path: Option<String>,
    pub version: Option<String>,
    pub outgoing_dependencies_analyzed: Option<bool>,
    pub unresolved_reason: Option<&'static str>,
    pub candidates: Vec<HtmlCandidate>,
    pub cyclic_component: Option<usize>,
}

/// The part of a dotted name after its last dot (all of it without a dot).
pub open spec fn after_last_dot(s: Seq<char>) -> Seq<char>
    decreases s.len(),
{
    if s.len() == 0 {
        Seq::empty()
    } else if s.last() == '.' {
        Seq::empty()
    } else {
        after_last_dot(s.drop_last()).push(s.last())
    }
}

/// The part of a name after its last dot.
pub fn short_name(name: &str) -> (r: String)
    ensures
        r@ == after_last_dot(name@),
{
    let chars = crate::order::text_chars(name);
    let mut start: usize = chars.len();
    proof {
        assert(name@.take(start as int) =~= name@);
        assert(name@.subrange(start as int, name@.len() as int) =~= Seq::<char>::empty());
        assert(after_last_dot(name@) + Seq::<char>::empty() =~= after_last_dot(name@));
    }
    while start > 0 && chars[start - 1] != '.'
        invariant
            start <= chars.len(),
            chars@ == name@,
            after_last_dot(name@) == after_last_dot(name@.take(start as int)) + name@.subrange(start as int, name@.len() as int),
        decreases start,
    {
        proof {
            let t = name@.take(start as int);
            assert(t.drop_last() =~= name@.take(start - 1));
            assert(name@.subrange(start - 1, name@.len() as int) =~= seq![t.last()] + name@.subrange(start as int, name@.len() as int));
            assert(after_last_dot(t) == after_last_dot(t.drop_last()).push(t.last()));
            assert(after_last_dot(t.drop_last()).push(t.last()) + name@.subrange(start as int, name@.len() as int)
                =~= after_last_dot(name@.take(start - 1)) + name@.subrange(start - 1, name@.len() as int));
        }
        start = start - 1;
    }
    proof {
        if start > 0 {
            assert(name@.take(start as int).last() == '.');
        }
        assert(after_last_dot(name@.take(start as int)) =~= Seq::<char>::empty());
    }
    let mut out: Vec<char> = Vec::new();
    let mut i = start;
    while i < chars.len()
        invariant
            start <= i <= chars.len(),
            chars@ == name@,
            out@ == name@.subrange(start as int, i as int),
        decreases chars.len() - i,
    {
        out.push(chars[i]);
        i = i + 1;
        assert(out@ =~= name@.subrange(start as int, i as int));
    }
    proof {
        assert(name@.take(chars.len() as int) =~= name@);
    }
    string_from_chars(&out)
}

/// A reason's name with its hyphens as spaces.
pub open spec fn spaced(s: Seq<char>) -> Seq<char> {
    s.map_values(|c: char| if c == '-' { ' ' } else { c })
}

fn spaced_text(s: &str) -> (r: String)
    ensures
        r@ == spaced(s@),
{
    let chars = crate::order::text_chars(s);
    let mut out: Vec<char> = Vec::new();
    let mut i: usize = 0;
    while i < chars.len()
        invariant
            i <= chars.len(),
            chars@ == s@,
            out@ == spaced(s@.take(i as int)),
        decreases chars.len() - i,
    {
        out.push(if chars[i] == '-' { ' ' } else { chars[i] });
        i = i + 1;
        assert(out@ =~= spaced(s@.take(i as int)));
    }
    assert(s@.take(chars.len() as int) =~= s@);
    string_from_chars(&out)
}

pub open spec fn html_candidate_view(c: HtmlCandidate) -> (Seq<char>, Seq<char>, Option<Seq<char>>) {
    (c.kind@, c.name@, opt_text(c.detail))
}

/// How the explorer shows a candidate target.
pub open spec fn html_candidate_of(t: DependencyTarget) -> (Seq<char>, Seq<char>, Option<Seq<char>>) {
    match t {
        DependencyTarget::LocalModule(m) => (
            if m.id@.0 == "cpp"@ {
                "local-file"@
            } else {
                "local-module"@
            },
            m.id@.1,
            Some(json_path_text(m.path@)),
        ),
        DependencyTarget::StandardLibrary(m) => ("standard-library"@, m@.1, Some("Python standard library"@)),
        DependencyTarget::InstalledDistribution { distribution_display_name, version, .. } => (
            "installed-distribution"@,
            distribution_display_name@,
            opt_text(version),
        ),
        DependencyTarget::SystemHeader { name, .. } => ("system-header"@, name@, Some("System header"@)),
        DependencyTarget::ExternalHeader { name, .. } => ("external-header"@, name@, Some("External header"@)),
    }
}

/// Shows a candidate target.
pub fn html_candidate(candidate: &DependencyTarget) -> (r: HtmlCandidate)
    ensures
        html_candidate_view(r) == html_candidate_of(*candidate),
{
    proof {
        reveal_strlit("cpp");
    }
    let kind = candidate.kind().as_str();
    match candidate {
        DependencyTarget::LocalModule(module) => HtmlCandidate {
            kind: if text_eq(module.id.language().as_str(), "cpp") {
                "local-file"
            } else {
                kind
            },
            name: module.id.qualified_name().to_owned(),
            detail: Some(json_path(module.path.as_str())),
        },
        DependencyTarget::StandardLibrary(module) => HtmlCandidate {
            kind,
            name: module.qualified_name().to_owned(),
            detail: Some("Python standard library".to_owned()),
        },
        DependencyTarget::InstalledDistribution { distribution_display_name, version, .. } => HtmlCandidate {
            kind,
            name: copy_string(distribution_display_name),
            detail: copy_opt_string(version),
        },
        DependencyTarget::SystemHeader { name, .. } => HtmlCandidate {
            kind,
            name: copy_string(name),
            detail: Some("System header".to_owned()),
        },
        DependencyTarget::ExternalHeader { name, .. } => HtmlCandidate {
            kind,
            name: copy_string(name),
            detail: Some("External header".to_owned()),
        },
    }
}

fn html_candidates(targets: &Vec<DependencyTarget>) -> (r: Vec<HtmlCandidate>)
    ensures
        r.len() == targets.len(),
        forall|i: int| 0 <= i < r.len() ==> html_candidate_view(#[trigger] r[i]) == html_candidate_of(targets[i]),
{
    let mut out: Vec<HtmlCandidate> = Vec::new();
    let mut i: usize = 0;
    while i < targets.len()
        invariant
            i <= targets.len(),
            out.len() == i,
            forall|j: int| 0 <= j < i ==> html_candidate_view(#[trigger] out[j]) == html_candidate_of(targets[j]),
        decreases targets.len() - i,
    {
        out.push(html_candidate(&targets[i]));
        i = i + 1;
    }
    out
}

/// The subtitle the explorer shows under a node.
pub open spec fn node_subtitle(n: DependencyNode) -> Seq<char> {
    match n {
        DependencyNode::LocalModule(m) => json_path_text(m.path@),
        DependencyNode::StandardLibrary(_) => "Python standard library"@,
        DependencyNode::InstalledDistribution { version, .. } => match version {
            Some(v) => "Installed package · "@ + v@,
            None => "Installed package"@,
        },
        DependencyNode::SystemHeader { .. } => "System header"@,
        DependencyNode::ExternalHeader { .. } => "External header"@,
        DependencyNode::Ambiguous { .. } => "Multiple possible targets"@,
        DependencyNode::Unresolved { reason, .. } => spaced(reason_name(reason)),
        DependencyNode::ContextDependent { .. } => "Different build contexts select different targets"@,
    }
}

/// The short label of a node: for a local file the file name of its path
/// (its name's last dotted part when the path has none), otherwise the last
/// dotted part of its name.
pub open spec fn node_short_name(n: DependencyNode) -> Seq<char> {
    match n {
        DependencyNode::LocalModule(m) => if m.id@.0 == "cpp"@ {
            match file_name(json_path_text(m.path@)) {
                Some(f) => f,
                None => after_last_dot(m.id@.1),
            }
        } else {
            after_last_dot(m.id@.1)
        },
        _ => after_last_dot(crate::json_output::node_name(n)),
    }
}

/// Whether `r` is how the explorer shows the view node `v`.
pub open spec fn is_html_node(r: HtmlNode, v: DependencyGraphViewNode) -> bool {
    &&& r.id@ == v.id@
    &&& r.name@ == crate::json_output::node_name(v.node)
    &&& r.short_name@ == node_short_name(v.node)
    &&& r.kind@ == crate::json_output::node_kind_name(v.node)
    &&& r.subtitle@ == node_subtitle(v.node)
    &&& opt_text(r.path) == match v.node {
        DependencyNode::LocalModule(m) => Some(json_path_text(m.path@)),
        _ => None,
    }
    &&& opt_text(r.version) == match v.node {
        DependencyNode::InstalledDistribution { version, .. } => opt_text(version),
        _ => None,
    }
    &&& r.outgoing_dependencies_analyzed == match v.node {
        DependencyNode::LocalModule(m) => Some(m.outgoing_dependencies_analyzed),
        _ => None,
    }
    &&& opt_static(r.unresolved_reason) == crate::json_output::node_reason(v.node)
    &&& r.candidates.len() == crate::json_output::node_candidates(v.node).len()
    &&& forall|i: int|
        0 <= i < r.candidates.len() ==> html_candidate_view(#[trigger] r.candidates[i]) == html_candidate_of(
            crate::json_output::node_candidates(v.node)[i],
        )
    &&& r.cyclic_component == v.cyclic_component
}

/// Shows a node of a dependency view.
pub fn html_node(node: &DependencyGraphViewNode) -> (r: HtmlNode)
    ensures
        is_html_node(r, *node),
{
    proof {
        reveal_strlit("cpp");
    }
    let kind = crate::json_output::json_node(node).kind;
    let mut path: Option<String> = None;
    let mut version: Option<String> = None;
    let mut outgoing: Option<bool> = None;
    let mut reason: Option<&'static str> = None;
    let mut candidates: Vec<HtmlCandidate> = Vec::new();
    let name: String;
    let subtitle: String;
    let short: String;
    match &node.node {
        DependencyNode::LocalModule(module) => {
            let p = json_path(module.path.as_str());
            name = module.id.qualified_name().to_owned();
            short = if text_eq(module.id.language().as_str(), "cpp") {
                match path_file_name(p.as_str()) {
                    Some(f) => string_from_chars(&f),
                    None => short_name(module.id.qualified_name()),
                }
            } else {
                short_name(module.id.qualified_name())
            };
            subtitle = copy_string(&p);
            path = Some(p);
            outgoing = Some(module.outgoing_dependencies_analyzed);
        },
        DependencyNode::StandardLibrary(module) => {
            name = module.qualified_name().to_owned();
            short = short_name(module.qualified_name());
            subtitle = "Python standard library".to_owned();
        },
        DependencyNode::InstalledDistribution { distribution_display_name, version: v, .. } => {
            name = copy_string(distribution_display_name);
            short = short_name(distribution_display_name.as_str());
            subtitle = match v {
                Some(text) => {
                    let mut s = String::new();
                    push_text(&mut s, "Installed package · ");
                    push_text(&mut s, text.as_str());
                    s
                },
                None => "Installed package".to_owned(),
            };
            version = copy_opt_string(v);
        },
        DependencyNode::SystemHeader { name: n, .. } => {
            name = copy_string(n);
            short = short_name(n.as_str());
            subtitle = "System header".to_owned();
        },
        DependencyNode::ExternalHeader { name: n, .. } => {
            name = copy_string(n);
            short = short_name(n.as_str());
            subtitle = "External header".to_owned();
        },
        DependencyNode::Ambiguous { requested, candidates: cs, .. } => {
            name = copy_string(requested);
            short = short_name(requested.as_str());
            subtitle = "Multiple possible targets".to_owned();
            candidates = html_candidates(cs);
        },
        DependencyNode::Unresolved { requested, reason: why, .. } => {
            name = copy_string(requested);
            short = short_name(requested.as_str());
            subtitle = spaced_text(why.as_str());
            reason = Some(why.as_str());
        },
        DependencyNode::ContextDependent { requested, candidates: cs, unresolved_reasons, .. } => {
            name = copy_string(requested);
            short = short_name(requested.as_str());
            subtitle = "Different build contexts select different targets".to_owned();
            candidates = html_candidates(cs);
            if unresolved_reasons.len() > 0 {
                reason = Some(unresolved_reasons[0].as_str());
            }
        },
    }
    HtmlNode {
        id: copy_string(&node.id),
        name,
        short_name: short,
        kind,
        subtitle,
        path,
        version,
        outgoing_dependencies_analyzed: outgoing,
        unresolved_reason: reason,
        candidates,
        cyclic_component: node.cyclic_component,
    }
}

} // verus!

verus! {

/// The text of one character inside a script element: `&`, `<` and `>` as
/// JSON unicode escapes, any other character as itself.
pub open spec fn script_char(c: char) -> Seq<char> {
    if c == '&' {
        "\\u0026"@
    } else if c == '<' {
        "\\u003c"@
    } else if c == '>' {
        "\\u003e"@
    } else {
        seq![c]
    }
}

/// JSON text made safe to embed in a script element.
pub open spec fn script_safe(s: Seq<char>) -> Seq<char>
    decreases s.len(),
{
    if s.len() == 0 {
        Seq::empty()
    } else {
        script_safe(s.drop_last()) + script_char(s.last())
    }
}

/// Escapes JSON text for a script element, so that no `</script>` or other
/// markup can end it early.
pub fn escape_script_data(json: &str) -> (r: String)
    ensures
        r@ == script_safe(json@),
{
    proof {
        reveal_strlit("\\u0026");
        reveal_strlit("\\u003c");
        reveal_strlit("\\u003e");
    }
    let chars = crate::order::text_chars(json);
    let mut out = String::new();
    let mut i: usize = 0;
    while i < chars.len()
        invariant
            i <= chars.len(),
            chars@ == json@,
            out@ == script_safe(json@.take(i as int)),
        decreases chars.len() - i,
    {
        let c = chars[i];
        if c == '&' {
            push_text(&mut out, "\\u0026");
        } else if c == '<' {
            push_text(&mut out, "\\u003c");
        } else if c == '>' {
            push_text(&mut out, "\\u003e");
        } else {
            crate::text::push_char(&mut out, c);
        }
        proof {
            assert(json@.take(i + 1).drop_last() =~= json@.take(i as int));
            assert(json@.take(i + 1).last() == c);
        }
        i = i + 1;
    }
    proof {
        assert(json@.take(chars.len() as int) =~= json@);
    }
    out
}

/// Escaped data holds no `&`, `<` or `>`, so it cannot close the script
/// element that holds it.
pub proof fn lemma_script_safe_has_no_markup(s: Seq<char>)
    ensures
        forall|i: int| 0 <= i < script_safe(s).len() ==> {
            let c = #[trigger] script_safe(s)[i];
            c != '&' && c != '<' && c != '>'
        },
    decreases s.len(),
{
    reveal_strlit("\\u0026");
    reveal_strlit("\\u003c");
    reveal_strlit("\\u003e");
    if s.len() > 0 {
        lemma_script_safe_has_no_markup(s.drop_last());
        let a = script_safe(s.drop_last());
        let b = script_char(s.last());
        assert forall|i: int| 0 <= i < script_safe(s).len() implies {
            let c = #[trigger] script_safe(s)[i];
            c != '&' && c != '<' && c != '>'
        } by {
            if i >= a.len() {
                assert(script_safe(s)[i] == b[i - a.len()]);
            } else {
                assert(script_safe(s)[i] == a[i]);
            }
        }
    }
}

} // verus!
