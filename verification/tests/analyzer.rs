use codegraide::analyzer::{
    AnalysisFacts, AnalysisInput, AnalysisLevel, AnalyzerCapability, AnalyzerDescriptor,
    AnalyzerRegistry, FileAnalysis, FileAnalysisStatus, LanguageAnalyzer,
};
use codegraide::report::LanguageId;

struct StubAnalyzer {
    descriptor: AnalyzerDescriptor,
}

impl LanguageAnalyzer for StubAnalyzer {
    fn descriptor_value(&self) -> AnalyzerDescriptor {
        stub_descriptor(self.descriptor.language.as_str())
    }

    fn descriptor(&self) -> &AnalyzerDescriptor {
        &self.descriptor
    }

    fn gives(&self, path: &str, _source: &[u8], result: FileAnalysis) -> bool {
        result.path == path && result.status == FileAnalysisStatus::Successful
    }

    fn analyze(&mut self, input: AnalysisInput<'_>) -> FileAnalysis {
        FileAnalysis {
            path: input.path.to_owned(),
            status: FileAnalysisStatus::Successful,
            diagnostics: Vec::new(),
            facts: AnalysisFacts {
                symbols: Vec::new(),
                dependencies: Vec::new(),
                calls: Vec::new(),
            },
        }
    }
}

fn stub_descriptor(language: &str) -> AnalyzerDescriptor {
    AnalyzerDescriptor {
        id: format!("stub-{language}"),
        language: LanguageId::new(language),
        version: "0.1.0".to_owned(),
        level: AnalysisLevel::Syntax,
        capabilities: vec![AnalyzerCapability::Parse],
        grammar: None,
        queries: Vec::new(),
        limitations: Vec::new(),
    }
}

fn stub(language: &str) -> StubAnalyzer {
    StubAnalyzer { descriptor: stub_descriptor(language) }
}

#[test]
fn rejects_duplicate_language_registration() {
    let mut registry = AnalyzerRegistry::new();
    registry.register(stub("python")).expect("first registration");

    let error = registry
        .register(stub("python"))
        .expect_err("duplicate registration should fail");

    assert_eq!(error.message(), "analyzer already registered for python");
}

#[test]
fn registry_runs_the_analyzer_of_a_language() {
    let mut registry = AnalyzerRegistry::new();
    registry.register(stub("rust")).expect("rust");
    registry.register(stub("c")).expect("c");
    assert!(registry.analyzer_for(&LanguageId::new("rust")));
    assert!(!registry.analyzer_for(&LanguageId::new("go")));
    let languages: Vec<&str> = registry.languages().into_iter().map(|l| l.as_str()).collect();
    assert_eq!(languages, ["c", "rust"]);
    let result = registry
        .analyze(
            &LanguageId::new("rust"),
            AnalysisInput {
                path: "src/lib.rs",
                source: b"fn main() {}",
            },
        )
        .expect("analyzed");
    assert_eq!(result.path, "src/lib.rs");
    assert!(registry
        .analyze(
            &LanguageId::new("go"),
            AnalysisInput {
                path: "main.go",
                source: b""
            }
        )
        .is_none());
}
