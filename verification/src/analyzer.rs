//! The facts a language analyzer reports for one source file, and the
//! registry of analyzers by language.

use vstd::prelude::*;

use crate::order::{compare_keys, key_compare, key_view, KeyAtom, AtomView, lemma_key_facts, lemma_key_trans};
use crate::report::LanguageId;
use crate::text::{copy_string, push_text};

verus! {

#[derive(Debug, Clone, Copy, PartialEq, Eq, Structural, PartialOrd, Ord, Hash)]
pub enum AnalysisLevel {
    Syntax,
    ProjectResolution,
    SemanticEnrichment,
}

impl AnalysisLevel {
    /// The stable name.
    pub fn as_str(self) -> (r: &'static str)
        ensures
            r@ == match self {
                AnalysisLevel::Syntax => "syntax"@,
                AnalysisLevel::ProjectResolution => "project-resolution"@,
                AnalysisLevel::SemanticEnrichment => "semantic-enrichment"@,
            },
    {
        match self {
            AnalysisLevel::Syntax => "syntax",
            AnalysisLevel::ProjectResolution => "project-resolution",
            AnalysisLevel::SemanticEnrichment => "semantic-enrichment",
        }
    }
}

#[derive(Debug, Clone, Copy, PartialEq, Eq, Structural, PartialOrd, Ord, Hash)]
pub enum AnalyzerCapability {
    Parse,
    Symbols,
    Documentation,
    DependencyReferences,
    CallReferences,
    DecisionEvents,
    NestingEvents,
    Measurements,
}

impl AnalyzerCapability {
    /// The stable name.
    pub fn as_str(self) -> (r: &'static str)
        ensures
            r@ == match self {
                AnalyzerCapability::Parse => "parse"@,
                AnalyzerCapability::Symbols => "symbols"@,
                AnalyzerCapability::Documentation => "documentation"@,
                AnalyzerCapability::DependencyReferences => "dependency-references"@,
                AnalyzerCapability::CallReferences => "call-references"@,
                AnalyzerCapability::DecisionEvents => "decision-events"@,
                AnalyzerCapability::NestingEvents => "nesting-events"@,
                AnalyzerCapability::Measurements => "measurements"@,
            },
    {
        match self {
            AnalyzerCapability::Parse => "parse",
            AnalyzerCapability::Symbols => "symbols",
            AnalyzerCapability::Documentation => "documentation",
            AnalyzerCapability::DependencyReferences => "dependency-references",
            AnalyzerCapability::CallReferences => "call-references",
            AnalyzerCapability::DecisionEvents => "decision-events",
            AnalyzerCapability::NestingEvents => "nesting-events",
            AnalyzerCapability::Measurements => "measurements",
        }
    }
}

#[derive(Debug, Clone, Copy, PartialEq, Eq, Structural, PartialOrd, Ord, Hash)]
pub enum DiagnosticSeverity {
    Error,
    Warning,
}

impl DiagnosticSeverity {
    /// The stable name.
    pub fn as_str(self) -> (r: &'static str)
        ensures
            r@ == match self {
                DiagnosticSeverity::Error => "error"@,
                DiagnosticSeverity::Warning => "warning"@,
            },
    {
        match self {
            DiagnosticSeverity::Error => "error",
            DiagnosticSeverity::Warning => "warning",
        }
    }
}

#[derive(Debug, Clone, Copy, PartialEq, Eq, Structural, PartialOrd, Ord, Hash)]
pub enum SymbolKind {
    Module,
    Class,
    Function,
    Method,
    Lambda,
}

impl SymbolKind {
    /// The stable name.
    pub fn as_str(self) -> (r: &'static str)
        ensures
            r@ == match self {
                SymbolKind::Module => "module"@,
                SymbolKind::Class => "class"@,
                SymbolKind::Function => "function"@,
                SymbolKind::Method => "method"@,
                SymbolKind::Lambda => "lambda"@,
            },
    {
        match self {
            SymbolKind::Module => "module",
            SymbolKind::Class => "class",
            SymbolKind::Function => "function",
            SymbolKind::Method => "method",
            SymbolKind::Lambda => "lambda",
        }
    }
}

#[derive(Debug, Clone, Copy, PartialEq, Eq, Structural, PartialOrd, Ord, Hash)]
pub enum SymbolCompleteness {
    Complete,
    Partial,
}

impl SymbolCompleteness {
    /// The stable name.
    pub fn as_str(self) -> (r: &'static str)
        ensures
            r@ == match self {
                SymbolCompleteness::Complete => "complete"@,
                SymbolCompleteness::Partial => "partial"@,
            },
    {
        match self {
            SymbolCompleteness::Complete => "complete",
            SymbolCompleteness::Partial => "partial",
        }
    }
}

#[derive(Debug, Clone, Copy, PartialEq, Eq, Structural, PartialOrd, Ord, Hash)]
pub enum SymbolModifier {
    Async,
    Static,
    ClassMethod,
}

impl SymbolModifier {
    /// The stable name.
    pub fn as_str(self) -> (r: &'static str)
        ensures
            r@ == match self {
                SymbolModifier::Async => "async"@,
                SymbolModifier::Static => "staticmethod"@,
                SymbolModifier::ClassMethod => "classmethod"@,
            },
    {
        match self {
            SymbolModifier::Async => "async",
            SymbolModifier::Static => "staticmethod",
            SymbolModifier::ClassMethod => "classmethod",
        }
    }
}

#[derive(Debug, Clone, Copy, PartialEq, Eq, Structural, PartialOrd, Ord, Hash)]
pub enum ParameterKind {
    PositionalOnly,
    PositionalOrKeyword,
    VariadicPositional,
    KeywordOnly,
    VariadicKeyword,
}

impl ParameterKind {
    /// The stable name.
    pub fn as_str(self) -> (r: &'static str)
        ensures
            r@ == match self {
                ParameterKind::PositionalOnly => "positional-only"@,
                ParameterKind::PositionalOrKeyword => "positional-or-keyword"@,
                ParameterKind::VariadicPositional => "variadic-positional"@,
                ParameterKind::KeywordOnly => "keyword-only"@,
                ParameterKind::VariadicKeyword => "variadic-keyword"@,
            },
    {
        match self {
            ParameterKind::PositionalOnly => "positional-only",
            ParameterKind::PositionalOrKeyword => "positional-or-keyword",
            ParameterKind::VariadicPositional => "variadic-positional",
            ParameterKind::KeywordOnly => "keyword-only",
            ParameterKind::VariadicKeyword => "variadic-keyword",
        }
    }
}

#[derive(Debug, Clone, Copy, PartialEq, Eq, Structural, PartialOrd, Ord, Hash)]
pub enum NestingEventKind {
    Conditional,
    Loop,
    ExceptionHandling,
    ContextManager,
    Match,
    Comprehension,
}

impl NestingEventKind {
    /// The stable name.
    pub fn as_str(self) -> (r: &'static str)
        ensures
            r@ == match self {
                NestingEventKind::Conditional => "conditional"@,
                NestingEventKind::Loop => "loop"@,
                NestingEventKind::ExceptionHandling => "exception-handling"@,
                NestingEventKind::ContextManager => "context-manager"@,
                NestingEventKind::Match => "match"@,
                NestingEventKind::Comprehension => "comprehension"@,
            },
    {
        match self {
            NestingEventKind::Conditional => "conditional",
            NestingEventKind::Loop => "loop",
            NestingEventKind::ExceptionHandling => "exception-handling",
            NestingEventKind::ContextManager => "context-manager",
            NestingEventKind::Match => "match",
            NestingEventKind::Comprehension => "comprehension",
        }
    }
}

#[derive(Debug, Clone, Copy, PartialEq, Eq, Structural, PartialOrd, Ord, Hash)]
pub enum DecisionEventKind {
    Conditional,
    Loop,
    ExceptionHandler,
    PatternBranch,
    MatchGuard,
    BooleanShortCircuit,
    ConditionalExpression,
    ComprehensionLoop,
    ComprehensionFilter,
    Assertion,
}

impl DecisionEventKind {
    /// The stable name.
    pub fn as_str(self) -> (r: &'static str)
        ensures
            r@ == match self {
                DecisionEventKind::Conditional => "conditional"@,
                DecisionEventKind::Loop => "loop"@,
                DecisionEventKind::ExceptionHandler => "exception-handler"@,
                DecisionEventKind::PatternBranch => "pattern-branch"@,
                DecisionEventKind::MatchGuard => "match-guard"@,
                DecisionEventKind::BooleanShortCircuit => "boolean-short-circuit"@,
                DecisionEventKind::ConditionalExpression => "conditional-expression"@,
                DecisionEventKind::ComprehensionLoop => "comprehension-loop"@,
                DecisionEventKind::ComprehensionFilter => "comprehension-filter"@,
                DecisionEventKind::Assertion => "assertion"@,
            },
    {
        match self {
            DecisionEventKind::Conditional => "conditional",
            DecisionEventKind::Loop => "loop",
            DecisionEventKind::ExceptionHandler => "exception-handler",
            DecisionEventKind::PatternBranch => "pattern-branch",
            DecisionEventKind::MatchGuard => "match-guard",
            DecisionEventKind::BooleanShortCircuit => "boolean-short-circuit",
            DecisionEventKind::ConditionalExpression => "conditional-expression",
            DecisionEventKind::ComprehensionLoop => "comprehension-loop",
            DecisionEventKind::ComprehensionFilter => "comprehension-filter",
            DecisionEventKind::Assertion => "assertion",
        }
    }
}

#[derive(Debug, Clone, Copy, PartialEq, Eq, Structural, PartialOrd, Ord, Hash)]
pub enum MeasurementStatus {
    Measured,
    Unavailable,
}

impl MeasurementStatus {
    /// The stable name.
    pub fn as_str(self) -> (r: &'static str)
        ensures
            r@ == match self {
                MeasurementStatus::Measured => "measured"@,
                MeasurementStatus::Unavailable => "unavailable"@,
            },
    {
        match self {
            MeasurementStatus::Measured => "measured",
            MeasurementStatus::Unavailable => "unavailable",
        }
    }
}

#[derive(Debug, Clone, Copy, PartialEq, Eq, Structural, PartialOrd, Ord, Hash)]
pub enum DocumentationStatus {
    Documented,
    Missing,
    Unavailable,
}

impl DocumentationStatus {
    /// The stable name.
    pub fn as_str(self) -> (r: &'static str)
        ensures
            r@ == match self {
                DocumentationStatus::Documented => "documented"@,
                DocumentationStatus::Missing => "missing"@,
                DocumentationStatus::Unavailable => "unavailable"@,
            },
    {
        match self {
            DocumentationStatus::Documented => "documented",
            DocumentationStatus::Missing => "missing",
            DocumentationStatus::Unavailable => "unavailable",
        }
    }
}

#[derive(Debug, Clone, Copy, PartialEq, Eq, Structural, PartialOrd, Ord, Hash)]
pub enum DependencyKind {
    Import,
}

impl DependencyKind {
    /// The stable name.
    pub fn as_str(self) -> (r: &'static str)
        ensures
            r@ == match self {
                DependencyKind::Import => "import"@,
            },
    {
        match self {
            DependencyKind::Import => "import",
        }
    }
}

#[derive(Debug, Clone, Copy, PartialEq, Eq, Structural, PartialOrd, Ord, Hash)]
pub enum ResolutionLevel {
    Syntactic,
    Project,
    Semantic,
}

impl ResolutionLevel {
    /// The stable name.
    pub fn as_str(self) -> (r: &'static str)
        ensures
            r@ == match self {
                ResolutionLevel::Syntactic => "syntactic"@,
                ResolutionLevel::Project => "project-resolution"@,
                ResolutionLevel::Semantic => "semantic-enrichment"@,
            },
    {
        match self {
            ResolutionLevel::Syntactic => "syntactic",
            ResolutionLevel::Project => "project-resolution",
            ResolutionLevel::Semantic => "semantic-enrichment",
        }
    }
}

#[derive(Debug, Clone, Copy, PartialEq, Eq, Structural, PartialOrd, Ord, Hash)]
pub enum ImportScope {
    Module,
    Class,
    Callable,
}

impl ImportScope {
    /// The stable name.
    pub fn as_str(self) -> (r: &'static str)
        ensures
            r@ == match self {
                ImportScope::Module => "module"@,
                ImportScope::Class => "class"@,
                ImportScope::Callable => "callable"@,
            },
    {
        match self {
            ImportScope::Module => "module",
            ImportScope::Class => "class",
            ImportScope::Callable => "callable",
        }
    }
}

#[derive(Debug, Clone, Copy, PartialEq, Eq, Structural, PartialOrd, Ord, Hash)]
pub enum ImportUsage {
    Runtime,
    TypeCheckingOnly,
}

impl ImportUsage {
    /// The stable name.
    pub fn as_str(self) -> (r: &'static str)
        ensures
            r@ == match self {
                ImportUsage::Runtime => "runtime"@,
                ImportUsage::TypeCheckingOnly => "type-checking-only"@,
            },
    {
        match self {
            ImportUsage::Runtime => "runtime",
            ImportUsage::TypeCheckingOnly => "type-checking-only",
        }
    }
}

#[derive(Debug, Clone, Copy, PartialEq, Eq, Structural, PartialOrd, Ord, Hash)]
pub enum ImportRequirement {
    Required,
    Optional,
}

impl ImportRequirement {
    /// The stable name.
    pub fn as_str(self) -> (r: &'static str)
        ensures
            r@ == match self {
                ImportRequirement::Required => "required"@,
                ImportRequirement::Optional => "optional"@,
            },
    {
        match self {
            ImportRequirement::Required => "required",
            ImportRequirement::Optional => "optional",
        }
    }
}

#[derive(Debug, Clone, Copy, PartialEq, Eq, Structural, PartialOrd, Ord, Hash)]
pub enum FileAnalysisStatus {
    Successful,
    Partial,
    Failed,
}

impl FileAnalysisStatus {
    /// The stable name.
    pub fn as_str(self) -> (r: &'static str)
        ensures
            r@ == match self {
                FileAnalysisStatus::Successful => "successful"@,
                FileAnalysisStatus::Partial => "partial"@,
                FileAnalysisStatus::Failed => "failed"@,
            },
    {
        match self {
            FileAnalysisStatus::Successful => "successful",
            FileAnalysisStatus::Partial => "partial",
            FileAnalysisStatus::Failed => "failed",
        }
    }
}

#[derive(Debug)]
pub struct GrammarDescriptor {
    pub name: String,
    pub version: String,
}

#[derive(Debug)]
pub struct QueryDescriptor {
    pub name: String,
    pub version: String,
}

#[derive(Debug)]
pub struct AnalyzerDescriptor {
    pub id: String,
    pub language: LanguageId,
    pub version: String,
    pub level: AnalysisLevel,
    pub capabilities: Vec<AnalyzerCapability>,
    pub grammar: Option<GrammarDescriptor>,
    pub queries: Vec<QueryDescriptor>,
    pub limitations: Vec<String>,
}

impl AnalyzerDescriptor {
    /// Whether the analyzer declares a capability.
    pub fn has_capability(&self, capability: AnalyzerCapability) -> (r: bool)
        ensures
            r == self.capabilities@.contains(capability),
    {
        let mut i: usize = 0;
        while i < self.capabilities.len()
            invariant
                i <= self.capabilities.len(),
                forall|j: int| 0 <= j < i ==> self.capabilities@[j] != capability,
            decreases self.capabilities.len() - i,
        {
            if self.capabilities[i] == capability {
                return true;
            }
            i = i + 1;
        }
        false
    }
}

/// One source file handed to an analyzer.
#[derive(Debug, Clone, Copy)]
pub struct AnalysisInput<'a> {
    pub path: &'a str,
    pub source: &'a [u8],
}

#[derive(Debug, Clone, Copy, PartialEq, Eq, Structural, PartialOrd, Ord, Hash)]
pub struct SourcePosition {
    pub line: usize,
    pub column: usize,
}

#[derive(Debug, Clone, Copy, PartialEq, Eq, Structural, PartialOrd, Ord, Hash)]
pub struct SourceSpan {
    pub start_byte: usize,
    pub end_byte: usize,
    pub start: SourcePosition,
    pub end: SourcePosition,
}

/// A symbol identifier, unique within one file.
#[derive(Debug)]
pub struct SymbolId {
    value: String,
}

impl View for SymbolId {
    type V = Seq<char>;

    closed spec fn view(&self) -> Seq<char> {
        self.value@
    }
}

impl SymbolId {
    pub fn new(value: &str) -> (r: SymbolId)
        ensures
            r@ == value@,
    {
        SymbolId { value: value.to_owned() }
    }

    pub fn as_str(&self) -> (r: &str)
        ensures
            r@ == self@,
    {
        self.value.as_str()
    }

    pub fn copy(&self) -> (r: SymbolId)
        ensures
            r@ == self@,
    {
        SymbolId { value: copy_string(&self.value) }
    }
}

#[derive(Debug)]
pub struct Parameter {
    pub name: String,
    pub kind: ParameterKind,
    pub span: SourceSpan,
    pub has_default: bool,
    pub has_annotation: bool,
}

#[derive(Debug)]
pub struct Decorator {
    pub expression: String,
    pub span: SourceSpan,
}

#[derive(Debug, Clone, Copy, PartialEq, Eq, Structural)]
pub struct DecisionEvent {
    pub kind: DecisionEventKind,
    pub span: SourceSpan,
}

#[derive(Debug, Clone, Copy, PartialEq, Eq, Structural)]
pub struct NestingEvent {
    pub kind: NestingEventKind,
    pub depth: usize,
    pub span: SourceSpan,
}

#[derive(Debug)]
pub struct Measurement {
    pub id: String,
    pub definition_version: String,
    pub unit: String,
    pub status: MeasurementStatus,
    pub value: Option<u64>,
    pub reason: Option<String>,
}

#[derive(Debug)]
pub struct SymbolDocumentation {
    pub status: DocumentationStatus,
    pub span: Option<SourceSpan>,
    pub reason: Option<String>,
}

#[derive(Debug, Clone, Copy, PartialEq, Eq, Structural)]
pub struct ImportContext {
    pub scope: ImportScope,
    pub usage: ImportUsage,
    pub requirement: ImportRequirement,
    pub conditional: bool,
}

impl ImportContext {
    /// A required runtime import at module scope.
    pub fn module_runtime() -> (r: ImportContext)
        ensures
            r == (ImportContext {
                scope: ImportScope::Module,
                usage: ImportUsage::Runtime,
                requirement: ImportRequirement::Required,
                conditional: false,
            }),
    {
        ImportContext {
            scope: ImportScope::Module,
            usage: ImportUsage::Runtime,
            requirement: ImportRequirement::Required,
            conditional: false,
        }
    }
}

impl Default for ImportContext {
    fn default() -> (r: ImportContext)
        ensures
            r == (ImportContext {
                scope: ImportScope::Module,
                usage: ImportUsage::Runtime,
                requirement: ImportRequirement::Required,
                conditional: false,
            }),
    {
        ImportContext::module_runtime()
    }
}

/// One import as the analyzer saw it.
#[derive(Debug)]
pub struct DependencyReference {
    pub kind: DependencyKind,
    pub module: Option<String>,
    pub imported_name: Option<String>,
    pub alias: Option<String>,
    pub relative_level: usize,
    pub wildcard: bool,
    pub resolution: ResolutionLevel,
    pub enclosing_symbol: Option<SymbolId>,
    pub context: ImportContext,
    pub span: SourceSpan,
}

pub open spec fn opt_text(o: Option<String>) -> Option<Seq<char>> {
    match o {
        Some(s) => Some(s@),
        None => None,
    }
}

pub fn copy_opt_string(s: &Option<String>) -> (r: Option<String>)
    ensures
        opt_text(r) == opt_text(*s),
{
    match s {
        Some(v) => Some(copy_string(v)),
        None => None,
    }
}

/// What a reference says, its text taken by value.
pub struct ReferenceView {
    pub kind: DependencyKind,
    pub module: Option<Seq<char>>,
    pub imported_name: Option<Seq<char>>,
    pub alias: Option<Seq<char>>,
    pub relative_level: usize,
    pub wildcard: bool,
    pub resolution: ResolutionLevel,
    pub enclosing_symbol: Option<Seq<char>>,
    pub context: ImportContext,
    pub span: SourceSpan,
}

impl View for DependencyReference {
    type V = ReferenceView;

    open spec fn view(&self) -> ReferenceView {
        ReferenceView {
            kind: self.kind,
            module: opt_text(self.module),
            imported_name: opt_text(self.imported_name),
            alias: opt_text(self.alias),
            relative_level: self.relative_level,
            wildcard: self.wildcard,
            resolution: self.resolution,
            enclosing_symbol: match self.enclosing_symbol {
                Some(id) => Some(id@),
                None => None,
            },
            context: self.context,
            span: self.span,
        }
    }
}

impl DependencyReference {
    /// A copy of the reference.
    pub fn copy(&self) -> (r: DependencyReference)
        ensures
            r@ == self@,
    {
        DependencyReference {
            kind: self.kind,
            module: copy_opt_string(&self.module),
            imported_name: copy_opt_string(&self.imported_name),
            alias: copy_opt_string(&self.alias),
            relative_level: self.relative_level,
            wildcard: self.wildcard,
            resolution: self.resolution,
            enclosing_symbol: match &self.enclosing_symbol {
                Some(id) => Some(id.copy()),
                None => None,
            },
            context: self.context,
            span: self.span,
        }
    }
}

#[derive(Debug)]
pub struct CallArgumentShape {
    pub positional: usize,
    pub keywords: Vec<String>,
    pub has_star_args: bool,
    pub has_star_kwargs: bool,
}

#[derive(Debug)]
pub struct CallReference {
    pub callee: String,
    pub components: Vec<String>,
    pub enclosing_symbol: Option<SymbolId>,
    pub arguments: CallArgumentShape,
    pub span: SourceSpan,
    pub syntax_complete: bool,
}

#[derive(Debug)]
pub struct Symbol {
    pub id: SymbolId,
    pub parent_id: Option<SymbolId>,
    pub kind: SymbolKind,
    pub direct_declaration: bool,
    pub name: String,
    pub qualified_name: String,
    pub span: SourceSpan,
    pub body_span: Option<SourceSpan>,
    pub name_span: Option<SourceSpan>,
    pub completeness: SymbolCompleteness,
    pub modifiers: Vec<SymbolModifier>,
    pub parameters: Vec<Parameter>,
    pub decorators: Vec<Decorator>,
    pub documentation: Option<SymbolDocumentation>,
    pub nesting_events: Vec<NestingEvent>,
    pub decision_events: Vec<DecisionEvent>,
    pub measurements: Vec<Measurement>,
}

#[derive(Debug)]
pub struct AnalysisFacts {
    pub symbols: Vec<Symbol>,
    pub dependencies: Vec<DependencyReference>,
    pub calls: Vec<CallReference>,
}

impl AnalysisFacts {
    pub fn empty() -> (r: AnalysisFacts)
        ensures
            r.symbols.len() == 0,
            r.dependencies.len() == 0,
            r.calls.len() == 0,
    {
        AnalysisFacts { symbols: Vec::new(), dependencies: Vec::new(), calls: Vec::new() }
    }
}

#[derive(Debug)]
pub struct AnalysisDiagnostic {
    pub severity: DiagnosticSeverity,
    pub code: String,
    pub message: String,
    pub span: Option<SourceSpan>,
}

#[derive(Debug)]
pub struct FileAnalysis {
    pub path: String,
    pub status: FileAnalysisStatus,
    pub diagnostics: Vec<AnalysisDiagnostic>,
    pub facts: AnalysisFacts,
}

/// A syntax analyzer for one language, supplied by the caller.
pub trait LanguageAnalyzer {
    /// The descriptor that the analyzer gives.
    spec fn descriptor_value(&self) -> AnalyzerDescriptor;

    fn descriptor(&self) -> (d: &AnalyzerDescriptor)
        ensures
            *d == self.descriptor_value(),
    ;

    /// Whether `result` is an analysis that the analyzer, in this state, may
    /// give for the file at `path` with the bytes `source`. Each analyzer
    /// states its own relation.
    spec fn gives(&self, path: &str, source: &[u8], result: FileAnalysis) -> bool;

    /// Analyzes one file; the analyzer keeps its descriptor.
    fn analyze(&mut self, input: AnalysisInput<'_>) -> (r: FileAnalysis)
        ensures
            final(self).descriptor_value() == old(self).descriptor_value(),
            old(self).gives(input.path, input.source, r),
    ;
}

impl<T: LanguageAnalyzer + ?Sized> LanguageAnalyzer for Box<T> {
    open spec fn descriptor_value(&self) -> AnalyzerDescriptor {
        (**self).descriptor_value()
    }

    open spec fn gives(&self, path: &str, source: &[u8], result: FileAnalysis) -> bool {
        (**self).gives(path, source, result)
    }

    fn descriptor(&self) -> (d: &AnalyzerDescriptor) {
        (**self).descriptor()
    }

    fn analyze(&mut self, input: AnalysisInput<'_>) -> FileAnalysis {
        (**self).analyze(input)
    }
}

#[derive(Debug)]
pub enum AnalyzerRegistryError {
    DuplicateLanguage(LanguageId),
}

impl AnalyzerRegistryError {
    /// The error text.
    pub fn message(&self) -> (r: String)
        ensures
            match self {
                AnalyzerRegistryError::DuplicateLanguage(l) => r@ == "analyzer already registered for "@ + l@,
            },
    {
        match self {
            AnalyzerRegistryError::DuplicateLanguage(language) => {
                let mut text = String::new();
                push_text(&mut text, "analyzer already registered for ");
                push_text(&mut text, language.as_str());
                text
            },
        }
    }
}

/// Text of a language in key form.
pub open spec fn language_key(l: Seq<char>) -> Seq<AtomView> {
    seq![AtomView::Text(l)]
}

/// Analyzers by language; each language has at most one analyzer, and the
/// languages are kept in increasing order.
pub struct AnalyzerRegistry<A: LanguageAnalyzer> {
    languages: Vec<LanguageId>,
    analyzers: Vec<A>,
}

impl<A: LanguageAnalyzer> View for AnalyzerRegistry<A> {
    type V = Seq<Seq<char>>;

    closed spec fn view(&self) -> Seq<Seq<char>> {
        self.languages@.map_values(|l: LanguageId| l@)
    }
}

/// Languages in strictly increasing text order.
pub open spec fn strictly_sorted_languages(s: Seq<Seq<char>>) -> bool {
    forall|i: int, j: int|
        0 <= i < j < s.len() ==> key_compare(language_key(s[i]), language_key(s[j])) == -1
}

pub fn language_key_exec(l: &LanguageId) -> (k: Vec<KeyAtom>)
    ensures
        key_view(k@) == language_key(l@),
{
    let mut k: Vec<KeyAtom> = Vec::new();
    l.push_key(&mut k);
    assert(key_view(k@) =~= language_key(l@));
    k
}

impl<A: LanguageAnalyzer> AnalyzerRegistry<A> {
    pub closed spec fn well_formed(&self) -> bool {
        &&& strictly_sorted_languages(self@)
        &&& self.languages.len() == self.analyzers.len()
        &&& forall|i: int| 0 <= i < self.analyzers.len() ==> (#[trigger] self.analyzers[i]).descriptor_value().language@
            == self.languages[i]@
    }

    /// The descriptor of the `i`-th analyzer in language order.
    pub closed spec fn descriptor_at(&self, i: int) -> AnalyzerDescriptor {
        self.analyzers[i].descriptor_value()
    }

    /// The `i`-th analyzer in language order.
    pub closed spec fn analyzer_at(&self, i: int) -> A {
        self.analyzers[i]
    }

    /// The `i`-th analyzer's descriptor names the `i`-th language.
    pub proof fn lemma_descriptor_language(&self, i: int)
        requires
            self.well_formed(),
            0 <= i < self@.len(),
        ensures
            self.descriptor_at(i).language@ == self@[i],
    {
        assert(self.analyzers[i].descriptor_value().language@ == self.languages[i]@);
    }

    pub fn new() -> (r: AnalyzerRegistry<A>)
        ensures
            r@ == Seq::<Seq<char>>::empty(),
            r.well_formed(),
    {
        let r = AnalyzerRegistry { languages: Vec::new(), analyzers: Vec::new() };
        assert(r@ =~= Seq::<Seq<char>>::empty());
        r
    }

    fn position(&self, language: &LanguageId) -> (r: Option<usize>)
        ensures
            match r {
                Some(i) => i < self@.len() && self@[i as int] == language@,
                None => !self@.contains(language@),
            },
    {
        let mut i: usize = 0;
        while i < self.languages.len()
            invariant
                i <= self.languages.len(),
                self@.len() == self.languages.len(),
                forall|j: int| 0 <= j < i ==> self@[j] != language@,
            decreases self.languages.len() - i,
        {
            if self.languages[i].same(language) {
                return Some(i);
            }
            i = i + 1;
        }
        None
    }

    /// Registers an analyzer for the language its descriptor names.
    /// Fails, leaving the registry unchanged, when that language already has
    /// an analyzer.
    pub fn register(&mut self, analyzer: A) -> (r: Result<(), AnalyzerRegistryError>)
        requires
            old(self).well_formed(),
        ensures
            final(self).well_formed(),
            match r {
                Ok(()) => {
                    let l = analyzer.descriptor_value().language@;
                    &&& !old(self)@.contains(l)
                    &&& final(self)@.to_set() == old(self)@.to_set().insert(l)
                    &&& final(self)@.len() == old(self)@.len() + 1
                    &&& exists|p: int|
                        0 <= p <= old(self)@.len() && final(self)@ == old(self)@.insert(p, l) && final(self).analyzer_at(p)
                            == analyzer && (forall|j: int| 0 <= j < p ==> #[trigger] final(self).analyzer_at(j) == old(self).analyzer_at(j))
                            && (forall|j: int| p <= j < old(self)@.len() ==> #[trigger] final(self).analyzer_at(j + 1) == old(self).analyzer_at(j))
                },
                Err(AnalyzerRegistryError::DuplicateLanguage(l)) => l@ == analyzer.descriptor_value().language@
                    && old(self)@.contains(l@) && final(self)@ == old(self)@ && *final(self) == *old(self),
            },
    {
        let language = analyzer.descriptor().language.copy();
        if let Some(_) = self.position(&language) {
            return Err(AnalyzerRegistryError::DuplicateLanguage(language));
        }
        let key = language_key_exec(&language);
        let mut p: usize = 0;
        let mut stop = false;
        let ghost old_view = self@;
        while !stop && p < self.languages.len()
            invariant
                p <= self.languages.len(),
                self.languages.len() == self.analyzers.len(),
                self@ == old_view,
                self@.len() == self.languages.len(),
                key_view(key@) == language_key(language@),
                !old_view.contains(language@),
                forall|i: int| 0 <= i < p ==> key_compare(language_key(old_view[i]), language_key(language@)) == -1,
                stop ==> p < self.languages.len() && key_compare(language_key(old_view[p as int]), language_key(language@)) == 1,
            decreases (self.languages.len() - p) * 2 + (if stop { 0int } else { 1int }),
        {
            let k = language_key_exec(&self.languages[p]);
            let c = compare_keys(&k, &key);
            proof {
                lemma_key_facts(language_key(old_view[p as int]), language_key(language@));
                assert(self@[p as int] == self.languages@[p as int]@);
                if c == 0 {
                    assert(language_key(old_view[p as int])[0] == language_key(language@)[0]);
                    assert(old_view[p as int] == language@);
                }
            }
            if c > 0 {
                stop = true;
            } else {
                p = p + 1;
            }
        }
        let ghost l = language@;
        let ghost old_an = self.languages@;
        let ghost old_az = self.analyzers@;
        let ghost the = analyzer;
        self.languages.insert(p, language);
        self.analyzers.insert(p, analyzer);
        proof {
            assert(self.analyzers@ == old_az.insert(p as int, the));
            assert(self.analyzer_at(p as int) == the);
            assert forall|j: int| 0 <= j < p implies #[trigger] self.analyzer_at(j) == old_az[j] by {}
            assert forall|j: int| p <= j < old_az.len() implies #[trigger] self.analyzer_at(j + 1) == old_az[j] by {}
        }
        proof {
            let nv = self@;
            assert forall|i: int| 0 <= i < nv.len() implies nv[i] == old_view.insert(p as int, l)[i] by {
                if i < p {
                    assert(self.languages@[i] == old_an[i]);
                } else if i > p {
                    assert(self.languages@[i] == old_an[i - 1]);
                }
            }
            assert(nv =~= old_view.insert(p as int, l));
            assert forall|i: int, j: int| 0 <= i < j < nv.len() implies key_compare(
                language_key(nv[i]),
                language_key(nv[j]),
            ) == -1 by {
                if i < p && j > p {
                    lemma_key_facts(language_key(l), language_key(old_view[j - 1]));
                    if j - 1 > p {
                        lemma_key_trans(language_key(l), language_key(old_view[p as int]), language_key(old_view[j - 1]));
                    }
                    lemma_key_trans(language_key(nv[i]), language_key(l), language_key(nv[j]));
                    lemma_key_facts(language_key(nv[i]), language_key(nv[j]));
                } else if i == p && j > p {
                    lemma_key_facts(language_key(l), language_key(old_view[p as int]));
                    if j - 1 > p {
                        lemma_key_trans(language_key(l), language_key(old_view[p as int]), language_key(old_view[j - 1]));
                    }
                    lemma_key_facts(language_key(l), language_key(old_view[j - 1]));
                } else if i > p {
                    assert(nv[i] == old_view[i - 1]);
                    assert(nv[j] == old_view[j - 1]);
                } else {
                }
            }
            assert(nv.to_set() =~= old_view.to_set().insert(l)) by {
                assert forall|x: Seq<char>| nv.to_set().contains(x) <==> old_view.to_set().insert(l).contains(x) by {
                    if nv.contains(x) {
                        let i = choose|i: int| 0 <= i < nv.len() && nv[i] == x;
                        if i < p {
                            assert(old_view[i] == x);
                        } else if i > p {
                            assert(old_view[i - 1] == x);
                        }
                    }
                    if old_view.contains(x) {
                        let i = choose|i: int| 0 <= i < old_view.len() && old_view[i] == x;
                        if i < p {
                            assert(nv[i] == x);
                        } else {
                            assert(nv[i + 1] == x);
                        }
                    }
                    if x == l {
                        assert(nv[p as int] == x);
                    }
                }
            }
        }
        Ok(())
    }

    /// Whether a language has an analyzer.
    pub fn analyzer_for(&self, language: &LanguageId) -> (r: bool)
        ensures
            r == self@.contains(language@),
    {
        self.position(language).is_some()
    }

    /// The descriptor of the language's analyzer, if it has one.
    pub fn descriptor_for(&self, language: &LanguageId) -> (r: Option<&AnalyzerDescriptor>)
        requires
            self.well_formed(),
        ensures
            r is Some <==> self@.contains(language@),
            r matches Some(d) ==> d.language@ == language@ && exists|i: int|
                0 <= i < self@.len() && self@[i] == language@ && *d == self.descriptor_at(i),
    {
        match self.position(language) {
            Some(i) => {
                let d = self.analyzers[i].descriptor();
                proof {
                    assert(*d == self.descriptor_at(i as int));
                    assert(self@[i as int] == language@);
                }
                Some(d)
            },
            None => None,
        }
    }

    /// Runs the language's analyzer on one file, if the language has one.
    pub fn analyze(&mut self, language: &LanguageId, input: AnalysisInput<'_>) -> (r: Option<FileAnalysis>)
        requires
            old(self).well_formed(),
        ensures
            r is Some <==> old(self)@.contains(language@),
            final(self)@ == old(self)@,
            final(self).well_formed(),
            r matches Some(f) ==> exists|i: int|
                0 <= i < old(self)@.len() && old(self)@[i] == language@ && old(self).analyzer_at(i).gives(
                    input.path,
                    input.source,
                    f,
                ) && forall|j: int| 0 <= j < old(self)@.len() && j != i ==> #[trigger] final(self).analyzer_at(j)
                    == old(self).analyzer_at(j),
            r is None ==> *final(self) == *old(self),
    {
        match self.position(language) {
            Some(i) => {
                let ghost before = self.analyzers@;
                let mut analyzer = self.analyzers.remove(i);
                let result = analyzer.analyze(input);
                self.analyzers.insert(i, analyzer);
                proof {
                    assert forall|j: int| 0 <= j < before.len() && j != i implies #[trigger] self.analyzers@[j] == before[j] by {
                    }
                }
                Some(result)
            },
            None => None,
        }
    }

    /// The descriptors of all analyzers, in language order.
    pub fn descriptors(&self) -> (r: Vec<&AnalyzerDescriptor>)
        requires
            self.well_formed(),
        ensures
            r.len() == self@.len(),
            forall|i: int| 0 <= i < r.len() ==> *(#[trigger] r[i]) == self.descriptor_at(i) && r[i].language@ == self@[i],
    {
        let mut out: Vec<&AnalyzerDescriptor> = Vec::new();
        let mut i: usize = 0;
        while i < self.analyzers.len()
            invariant
                i <= self.analyzers.len(),
                self.analyzers.len() == self@.len(),
                self.well_formed(),
                out.len() == i,
                forall|j: int| 0 <= j < i ==> *(#[trigger] out[j]) == self.descriptor_at(j) && out[j].language@ == self@[j],
            decreases self.analyzers.len() - i,
        {
            proof {
                self.lemma_descriptor_language(i as int);
            }
            out.push(self.analyzers[i].descriptor());
            i = i + 1;
        }
        out
    }

    /// The registered languages, in increasing order.
    pub fn languages(&self) -> (r: Vec<&LanguageId>)
        ensures
            r.len() == self@.len(),
            forall|i: int| 0 <= i < r.len() ==> #[trigger] r[i]@ == self@[i],
    {
        let mut out: Vec<&LanguageId> = Vec::new();
        let mut i: usize = 0;
        while i < self.languages.len()
            invariant
                i <= self.languages.len(),
                self@.len() == self.languages.len(),
                out.len() == i,
                forall|j: int| 0 <= j < i ==> #[trigger] out[j]@ == self@[j],
            decreases self.languages.len() - i,
        {
            out.push(&self.languages[i]);
            assert(self@[i as int] == self.languages@[i as int]@);
            i = i + 1;
        }
        out
    }
}

} // verus!
