use codegraide::analysis::RepositoryAnalysis;
use codegraide::analyzer::{
    DependencyKind, DependencyReference, ImportContext, ResolutionLevel, SourcePosition,
    SourceSpan,
};
use codegraide::dependencies::{
    DependencyResolutionOutcome, DependencyResolver, DependencyResolverDescriptor,
    DependencyResolverError, DependencyResolverRegistry, DependencyResolverRegistryError,
    DependencyTarget, DependencyTargetKind, DependencyUnitKind, InferredDependencyBasis,
    LocalModule, ModuleId, ProjectDependencyResolution, ResolvedProjectDependencies,
    UnresolvedDependencyReason, DEPENDENCY_CYCLE_DEFINITION_VERSION,
    DEPENDENCY_FAN_IN_DEFINITION_VERSION, DEPENDENCY_FAN_OUT_DEFINITION_VERSION,
    DEPENDENCY_GRAPH_DEFINITION_VERSION, DEPENDENCY_SCC_DEFINITION_VERSION,
};
use codegraide::report::LanguageId;

fn module(language: &str, name: &str) -> ModuleId {
    ModuleId::new(LanguageId::new(language), name)
}

fn local_module(name: &str, path: &str) -> LocalModule {
    LocalModule::new(module("python", name), path)
}

fn reference(module_name: &str) -> DependencyReference {
    DependencyReference {
        kind: DependencyKind::Import,
        module: Some(module_name.to_owned()),
        imported_name: None,
        alias: None,
        relative_level: 0,
        wildcard: false,
        resolution: ResolutionLevel::Syntactic,
        enclosing_symbol: None,
        context: ImportContext::default(),
        span: SourceSpan {
            start_byte: 0,
            end_byte: module_name.len(),
            start: SourcePosition { line: 1, column: 0 },
            end: SourcePosition {
                line: 1,
                column: module_name.len(),
            },
        },
    }
}

#[test]
fn module_ids_include_language_and_qualified_name() {
    let python = module("python", "shop.models");
    let rust = module("rust", "shop.models");

    assert_eq!(python.language().as_str(), "python");
    assert_eq!(python.qualified_name(), "shop.models");
    assert_ne!(format!("{python:?}"), format!("{rust:?}"));
}

#[test]
fn target_kinds_have_stable_names() {
    assert_eq!(DependencyTargetKind::LocalModule.as_str(), "local-module");
    assert_eq!(DependencyTargetKind::StandardLibrary.as_str(), "standard-library");
    assert_eq!(
        DependencyTargetKind::InstalledDistribution.as_str(),
        "installed-distribution"
    );
    assert_eq!(DependencyTargetKind::SystemHeader.as_str(), "system-header");
    assert_eq!(DependencyTargetKind::ExternalHeader.as_str(), "external-header");
}

#[test]
fn ambiguous_candidates_are_sorted_and_deduplicated() {
    let first = DependencyTarget::LocalModule(local_module("shop.models", "src/shop/models.py"));
    let second = DependencyTarget::LocalModule(local_module(
        "shop.models_alt",
        "src/shop/models_alt.py",
    ));
    let outcome = DependencyResolutionOutcome::ambiguous(
        "shop.models",
        vec![second.copy(), first.copy(), first.copy()],
    );

    assert_eq!(
        format!("{outcome:?}"),
        format!(
            "{:?}",
            DependencyResolutionOutcome::Ambiguous {
                requested: "shop.models".to_owned(),
                candidates: vec![first, second],
            }
        )
    );
    assert_eq!(outcome.kind(), "ambiguous");
    assert!(!outcome.is_exact());
}

#[test]
fn inferred_outcomes_are_distinct_from_exact_resolution() {
    let target = DependencyTarget::LocalModule(local_module("include/shop.hpp", "include/shop.hpp"));
    let outcome = DependencyResolutionOutcome::inferred(
        target.copy(),
        InferredDependencyBasis::UniqueRepositorySuffix,
    );

    assert_eq!(outcome.kind(), "inferred");
    assert!(!outcome.is_exact());
    assert_eq!(
        format!("{outcome:?}"),
        format!(
            "{:?}",
            DependencyResolutionOutcome::Inferred {
                target,
                basis: InferredDependencyBasis::UniqueRepositorySuffix,
            }
        )
    );
    assert_eq!(
        InferredDependencyBasis::UniqueRepositorySuffix.as_str(),
        "unique-repository-suffix"
    );
}

#[test]
fn resolution_preserves_original_reference_and_source_context() {
    let source_module = module("python", "shop.api");
    let original = reference("shop.models");
    let outcome = DependencyResolutionOutcome::exact(DependencyTarget::LocalModule(local_module(
        "shop.models",
        "src/shop/models.py",
    )));
    let resolution = ProjectDependencyResolution::new(
        "src/shop/api.py",
        source_module.copy(),
        original.copy(),
        outcome,
    );

    assert_eq!(resolution.source_path, "src/shop/api.py");
    assert_eq!(format!("{:?}", resolution.source_module), format!("{source_module:?}"));
    assert_eq!(format!("{:?}", resolution.reference), format!("{original:?}"));
    assert!(resolution.outcome.is_exact());
}

#[test]
fn unresolved_reasons_have_stable_names() {
    assert_eq!(UnresolvedDependencyReason::ModuleNotFound.as_str(), "module-not-found");
    assert_eq!(
        UnresolvedDependencyReason::RelativeImportBeyondRoot.as_str(),
        "relative-import-beyond-root"
    );
    assert_eq!(
        UnresolvedDependencyReason::MissingPackageContext.as_str(),
        "missing-package-context"
    );
    assert_eq!(
        UnresolvedDependencyReason::EnvironmentUnavailable.as_str(),
        "environment-unavailable"
    );
    assert_eq!(
        UnresolvedDependencyReason::BuildContextUnavailable.as_str(),
        "build-context-unavailable"
    );
    assert_eq!(UnresolvedDependencyReason::HeaderNotFound.as_str(), "header-not-found");
}

#[test]
fn dependency_definition_versions_are_stable() {
    assert_eq!(DEPENDENCY_GRAPH_DEFINITION_VERSION, "dependency-graph-v2");
    assert_eq!(DEPENDENCY_FAN_IN_DEFINITION_VERSION, "dependency-fan-in-v2");
    assert_eq!(DEPENDENCY_FAN_OUT_DEFINITION_VERSION, "dependency-fan-out-v2");
    assert_eq!(DEPENDENCY_SCC_DEFINITION_VERSION, "dependency-scc-v2");
    assert_eq!(DEPENDENCY_CYCLE_DEFINITION_VERSION, "dependency-cycle-v2");
}

struct TestResolver {
    descriptor: DependencyResolverDescriptor,
}

fn test_descriptor(language: &str) -> DependencyResolverDescriptor {
    DependencyResolverDescriptor {
        id: format!("{language}-test-resolver"),
        language: LanguageId::new(language),
        version: "0.1.0".to_owned(),
        definition_version: format!("{language}-test-resolution-v1"),
        local_unit_kind: DependencyUnitKind::Module,
        hierarchy_behavior: "test".to_owned(),
        resolution_capabilities: Vec::new(),
        limitations: Vec::new(),
    }
}

impl TestResolver {
    fn new(language: &str) -> Self {
        Self { descriptor: test_descriptor(language) }
    }
}

impl DependencyResolver for TestResolver {
    fn descriptor_value(&self) -> DependencyResolverDescriptor {
        test_descriptor(self.descriptor.language.as_str())
    }

    fn descriptor(&self) -> &DependencyResolverDescriptor {
        &self.descriptor
    }

    fn resolve(
        &self,
        _analysis: &RepositoryAnalysis,
    ) -> Result<ResolvedProjectDependencies, DependencyResolverError> {
        unreachable!("registry registration test does not resolve projects")
    }
}

#[test]
fn resolver_registry_sorts_languages_and_rejects_duplicates() {
    let mut registry = DependencyResolverRegistry::new();
    registry
        .register(TestResolver::new("python"))
        .expect("first resolver");
    registry
        .register(TestResolver::new("cpp"))
        .expect("second resolver");

    assert_eq!(
        registry
            .languages()
            .into_iter()
            .map(LanguageId::as_str)
            .collect::<Vec<_>>(),
        ["cpp", "python"]
    );
    assert!(matches!(
        registry.register(TestResolver::new("cpp")),
        Err(DependencyResolverRegistryError::DuplicateLanguage(language))
            if language.as_str() == "cpp"
    ));
}

#[test]
fn registry_errors_quote_the_language() {
    let error = DependencyResolverRegistryError::UnavailableLanguage(LanguageId::new("go"));
    assert_eq!(
        error.message(),
        "dependency resolver for language \"go\" is not installed"
    );
    let mut registry = DependencyResolverRegistry::new();
    registry.register(TestResolver::new("python")).expect("resolver");
    assert!(registry.get(&LanguageId::new("python")).is_some());
    assert!(registry.get(&LanguageId::new("go")).is_none());
}
