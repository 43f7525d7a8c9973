use codegraide::dependencies::{LocalModule, ModuleId, UnresolvedDependencyReason};
use codegraide::graph::DependencyNode;
use codegraide::html_output::{escape_script_data, html_node, short_name};
use codegraide::output::DependencyGraphViewNode;
use codegraide::report::LanguageId;

fn view_node(node: DependencyNode) -> DependencyGraphViewNode {
    DependencyGraphViewNode { id: "n7".to_owned(), node, fan_in: 0, fan_out: 1, cyclic_component: None }
}

#[test]
fn labels_are_the_last_dotted_part_or_the_file_name() {
    assert_eq!(short_name("pkg.sub.mod"), "mod");
    assert_eq!(short_name("plain"), "plain");
    assert_eq!(short_name("trailing."), "");

    let module = LocalModule::new(ModuleId::new(LanguageId::new("python"), "pkg.sub.mod"), "src/pkg/sub/mod.py");
    let shown = html_node(&view_node(DependencyNode::LocalModule(module)));
    assert_eq!(shown.short_name, "mod");
    assert_eq!(shown.kind, "local-module");
    assert_eq!(shown.subtitle, "src/pkg/sub/mod.py");

    let header = LocalModule::new(ModuleId::new(LanguageId::new("cpp"), "util.h"), "include/util.h");
    let shown = html_node(&view_node(DependencyNode::LocalModule(header)));
    assert_eq!(shown.kind, "local-file");
    assert_eq!(shown.short_name, "util.h");
}

#[test]
fn subtitles_describe_the_node() {
    let unresolved = DependencyNode::Unresolved {
        source_module: ModuleId::new(LanguageId::new("python"), "pkg.a"),
        requested: "gone.mod".to_owned(),
        reason: UnresolvedDependencyReason::ModuleNotFound,
    };
    let shown = html_node(&view_node(unresolved));
    assert_eq!(shown.subtitle, "module not found");
    assert_eq!(shown.short_name, "mod");
    assert_eq!(shown.unresolved_reason, Some("module-not-found"));

    let installed = DependencyNode::InstalledDistribution {
        language: LanguageId::new("python"),
        distribution_name: "requests".to_owned(),
        distribution_display_name: "Requests".to_owned(),
        version: Some("2.0".to_owned()),
    };
    let shown = html_node(&view_node(installed));
    assert_eq!(shown.subtitle, "Installed package · 2.0");
    assert_eq!(shown.version.as_deref(), Some("2.0"));
}

#[test]
fn embedded_data_cannot_close_its_script() {
    let escaped = escape_script_data("{\"name\":\"bad</script>name\",\"x\":\"a&b\"}");
    assert_eq!(escaped, "{\"name\":\"bad\\u003c/script\\u003ename\",\"x\":\"a\\u0026b\"}");
    assert!(!escaped.contains('<') && !escaped.contains('>') && !escaped.contains('&'));
}
