//! The JSON report of a syntax analysis: what was selected, the inventory
//! counts, and for each analyzer its descriptor, its counts and the facts of
//! each file it analyzed. Paths are written as the report writes paths; the
//! kinds, statuses and levels are carried as the library's values, whose
//! texts are what their `as_str` gives.

use vstd::prelude::*;

use crate::analysis::{AnalysisTargetKind, AnalyzerRun, LanguageAnalysisCounts, RepositoryAnalysis};
use crate::analyzer::{
    copy_opt_string, opt_text, AnalysisDiagnostic, AnalysisLevel, AnalyzerCapability, Decorator,
    DependencyKind, DependencyReference, DiagnosticSeverity, FileAnalysis, FileAnalysisStatus, Measurement,
    MeasurementStatus, NestingEvent, Parameter, ParameterKind, ResolutionLevel, SourceSpan, Symbol,
    SymbolCompleteness, SymbolId, SymbolKind, SymbolModifier,
};
use crate::inventory_report::{json_paths, json_paths_text, texts, JsonTool, JSON_PATH_ENCODING};
use crate::json_output::{json_path, json_path_text};
use crate::report::LanguageId;
use crate::text::copy_string;

verus! {

pub const SYNTAX_ANALYSIS_DEFINITION_VERSION: &'static str = "syntax-analysis-v1";

pub const ANALYSIS_REPORT_SCHEMA_VERSION: &'static str = "0.1.0";

#[derive(Debug)]
pub struct JsonAnalysisSelection {
    pub target_kind: &'static str,
    pub match_patterns: Vec<String>,
    pub files: Vec<String>,
}

#[derive(Debug)]
pub struct JsonSyntaxAnalysis {
    pub kind: &'static str,
    pub definition_version: &'static str,
    pub selection: JsonAnalysisSelection,
}

/// Inventory counts; `languages` and `inventory_only_languages` are objects
/// keyed by language name.
#[derive(Debug)]
pub struct JsonAnalysisInventory {
    pub path_encoding: &'static str,
    pub inventoried_files: usize,
    pub languages: Vec<(String, usize)>,
    pub inventory_only_languages: Vec<(String, usize)>,
}

#[derive(Debug)]
pub struct JsonGrammar {
    pub name: String,
    pub version: String,
}

#[derive(Debug)]
pub struct JsonQuery {
    pub name: String,
    pub version: String,
}

#[derive(Debug)]
pub struct JsonAnalysisDiagnostic {
    pub severity: DiagnosticSeverity,
    pub code: String,
    pub message: String,
    pub span: Option<SourceSpan>,
}

#[derive(Debug)]
pub struct JsonParameter {
    pub name: String,
    pub kind: ParameterKind,
    pub span: SourceSpan,
    pub has_default: bool,
    pub has_annotation: bool,
}

#[derive(Debug)]
pub struct JsonDecorator {
    pub expression: String,
    pub span: SourceSpan,
}

#[derive(Debug)]
pub struct JsonMeasurement {
    pub id: String,
    pub definition_version: String,
    pub unit: String,
    pub status: MeasurementStatus,
    pub value: Option<u64>,
    pub reason: Option<String>,
}

#[derive(Debug)]
pub struct JsonSymbol {
    pub id: String,
    pub parent_id: Option<String>,
    pub kind: SymbolKind,
    pub name: String,
    pub qualified_name: String,
    pub span: SourceSpan,
    pub body_span: Option<SourceSpan>,
    pub name_span: Option<SourceSpan>,
    pub completeness: SymbolCompleteness,
    pub modifiers: Vec<SymbolModifier>,
    pub parameters: Vec<JsonParameter>,
    pub decorators: Vec<JsonDecorator>,
    pub nesting_events: Vec<NestingEvent>,
    pub measurements: Vec<JsonMeasurement>,
}

#[derive(Debug)]
pub struct JsonDependencyReference {
    pub kind: DependencyKind,
    pub module: Option<String>,
    pub imported_name: Option<String>,
    pub alias: Option<String>,
    pub relative_level: usize,
    pub wildcard: bool,
    pub resolution: ResolutionLevel,
    pub enclosing_symbol: Option<String>,
    pub span: SourceSpan,
}

#[derive(Debug)]
pub struct JsonFileAnalysis {
    pub path: String,
    pub status: FileAnalysisStatus,
    pub diagnostics: Vec<JsonAnalysisDiagnostic>,
    pub symbols: Vec<JsonSymbol>,
    pub dependencies: Vec<JsonDependencyReference>,
}

#[derive(Debug)]
pub struct JsonAnalyzerRun {
    pub id: String,
    pub language: String,
    pub version: String,
    pub level: AnalysisLevel,
    pub capabilities: Vec<AnalyzerCapability>,
    pub grammar: Option<JsonGrammar>,
    pub queries: Vec<JsonQuery>,
    pub limitations: Vec<String>,
    pub counts: LanguageAnalysisCounts,
    pub files: Vec<JsonFileAnalysis>,
}

#[derive(Debug)]
pub struct AnalysisJsonReport {
    pub report_schema_version: &'static str,
    pub tool: JsonTool,
    pub analysis: JsonSyntaxAnalysis,
    pub inventory: JsonAnalysisInventory,
    pub analyzers: Vec<JsonAnalyzerRun>,
    pub diagnostics: Vec<JsonAnalysisDiagnostic>,
}

pub open spec fn opt_id_text(o: Option<SymbolId>) -> Option<Seq<char>> {
    match o {
        Some(i) => Some(i@),
        None => None,
    }
}

pub open spec fn is_json_diagnostic(j: JsonAnalysisDiagnostic, d: AnalysisDiagnostic) -> bool {
    j.severity == d.severity && j.code@ == d.code@ && j.message@ == d.message@ && j.span == d.span
}

pub open spec fn is_json_parameter(j: JsonParameter, p: Parameter) -> bool {
    j.name@ == p.name@ && j.kind == p.kind && j.span == p.span && j.has_default == p.has_default
        && j.has_annotation == p.has_annotation
}

pub open spec fn is_json_decorator(j: JsonDecorator, d: Decorator) -> bool {
    j.expression@ == d.expression@ && j.span == d.span
}

pub open spec fn is_json_measurement(j: JsonMeasurement, m: Measurement) -> bool {
    &&& j.id@ == m.id@
    &&& j.definition_version@ == m.definition_version@
    &&& j.unit@ == m.unit@
    &&& j.status == m.status
    &&& j.value == m.value
    &&& opt_text(j.reason) == opt_text(m.reason)
}

/// `j` is the report's record of the symbol `s`: everything but whether it
/// was declared directly, its documentation and its decision events.
pub open spec fn is_json_symbol(j: JsonSymbol, s: Symbol) -> bool {
    &&& j.id@ == s.id@
    &&& opt_text(j.parent_id) == opt_id_text(s.parent_id)
    &&& j.kind == s.kind
    &&& j.name@ == s.name@
    &&& j.qualified_name@ == s.qualified_name@
    &&& j.span == s.span
    &&& j.body_span == s.body_span
    &&& j.name_span == s.name_span
    &&& j.completeness == s.completeness
    &&& j.modifiers@ == s.modifiers@
    &&& j.parameters.len() == s.parameters.len()
    &&& forall|i: int| 0 <= i < j.parameters.len() ==> is_json_parameter(#[trigger] j.parameters[i], s.parameters[i])
    &&& j.decorators.len() == s.decorators.len()
    &&& forall|i: int| 0 <= i < j.decorators.len() ==> is_json_decorator(#[trigger] j.decorators[i], s.decorators[i])
    &&& j.nesting_events@ == s.nesting_events@
    &&& j.measurements.len() == s.measurements.len()
    &&& forall|i: int|
        0 <= i < j.measurements.len() ==> is_json_measurement(#[trigger] j.measurements[i], s.measurements[i])
}

/// `j` is the report's record of a dependency reference: everything but its
/// import context.
pub open spec fn is_json_dependency(j: JsonDependencyReference, d: DependencyReference) -> bool {
    &&& j.kind == d.kind
    &&& opt_text(j.module) == opt_text(d.module)
    &&& opt_text(j.imported_name) == opt_text(d.imported_name)
    &&& opt_text(j.alias) == opt_text(d.alias)
    &&& j.relative_level == d.relative_level
    &&& j.wildcard == d.wildcard
    &&& j.resolution == d.resolution
    &&& opt_text(j.enclosing_symbol) == opt_id_text(d.enclosing_symbol)
    &&& j.span == d.span
}

/// `j` is the report's record of a file's analysis: its path as the report
/// writes paths, its status, diagnostics, symbols and dependencies.
pub open spec fn is_json_file(j: JsonFileAnalysis, f: FileAnalysis) -> bool {
    &&& j.path@ == json_path_text(f.path@)
    &&& j.status == f.status
    &&& j.diagnostics.len() == f.diagnostics.len()
    &&& forall|i: int| 0 <= i < j.diagnostics.len() ==> is_json_diagnostic(#[trigger] j.diagnostics[i], f.diagnostics[i])
    &&& j.symbols.len() == f.facts.symbols.len()
    &&& forall|i: int| 0 <= i < j.symbols.len() ==> is_json_symbol(#[trigger] j.symbols[i], f.facts.symbols[i])
    &&& j.dependencies.len() == f.facts.dependencies.len()
    &&& forall|i: int|
        0 <= i < j.dependencies.len() ==> is_json_dependency(#[trigger] j.dependencies[i], f.facts.dependencies[i])
}

/// `j` is the report's record of an analyzer run.
pub open spec fn is_json_run(j: JsonAnalyzerRun, r: AnalyzerRun) -> bool {
    let d = r.descriptor;
    &&& j.id@ == d.id@
    &&& j.language@ == d.language@
    &&& j.version@ == d.version@
    &&& j.level == d.level
    &&& j.capabilities@ == d.capabilities@
    &&& (match (j.grammar, d.grammar) {
        (Some(a), Some(b)) => a.name@ == b.name@ && a.version@ == b.version@,
        (None, None) => true,
        _ => false,
    })
    &&& j.queries.len() == d.queries.len()
    &&& forall|i: int|
        0 <= i < j.queries.len() ==> (#[trigger] j.queries[i]).name@ == d.queries[i].name@ && j.queries[i].version@
            == d.queries[i].version@
    &&& texts(j.limitations@) == texts(d.limitations@)
    &&& j.counts == r.counts
    &&& j.files.len() == r.files.len()
    &&& forall|i: int| 0 <= i < j.files.len() ==> is_json_file(#[trigger] j.files[i], r.files[i])
}

pub open spec fn target_kind_text(k: AnalysisTargetKind) -> Seq<char> {
    match k {
        AnalysisTargetKind::Directory => "directory"@,
        AnalysisTargetKind::File => "file"@,
    }
}

pub open spec fn is_named_counts(j: Seq<(String, usize)>, v: Seq<(LanguageId, usize)>) -> bool {
    &&& j.len() == v.len()
    &&& forall|i: int| 0 <= i < j.len() ==> (#[trigger] j[i]).0@ == v[i].0@ && j[i].1 == v[i].1
}

/// `r` is the report of the analysis `a`, written by the tool version
/// `tool_version`.
pub open spec fn is_analysis_report(r: AnalysisJsonReport, a: RepositoryAnalysis, tool_version: Seq<char>) -> bool {
    &&& r.report_schema_version@ == ANALYSIS_REPORT_SCHEMA_VERSION@
    &&& r.tool.name@ == "codegraide"@
    &&& r.tool.version@ == tool_version
    &&& r.analysis.kind@ == "syntax-analysis"@
    &&& r.analysis.definition_version@ == SYNTAX_ANALYSIS_DEFINITION_VERSION@
    &&& r.analysis.selection.target_kind@ == target_kind_text(a.selection.target_kind)
    &&& texts(r.analysis.selection.match_patterns@) == texts(a.selection.match_patterns@)
    &&& texts(r.analysis.selection.files@) == json_paths_text(a.selection.selected_files@)
    &&& r.inventory.path_encoding@ == JSON_PATH_ENCODING@
    &&& r.inventory.inventoried_files == a.inventoried_files
    &&& is_named_counts(r.inventory.languages@, a.inventory_languages@)
    &&& is_named_counts(r.inventory.inventory_only_languages@, a.inventory_only_languages@)
    &&& r.analyzers.len() == a.analyzers.len()
    &&& forall|i: int| 0 <= i < r.analyzers.len() ==> is_json_run(#[trigger] r.analyzers[i], a.analyzers[i])
    &&& r.diagnostics.len() == a.diagnostics.len()
    &&& forall|i: int| 0 <= i < r.diagnostics.len() ==> is_json_diagnostic(#[trigger] r.diagnostics[i], a.diagnostics[i])
}

fn copy_values<T: Copy>(v: &Vec<T>) -> (r: Vec<T>)
    ensures
        r@ == v@,
{
    let mut out: Vec<T> = Vec::new();
    let mut i: usize = 0;
    while i < v.len()
        invariant
            i <= v.len(),
            out@ == v@.subrange(0, i as int),
        decreases v.len() - i,
    {
        out.push(v[i]);
        i = i + 1;
        assert(out@ =~= v@.subrange(0, i as int));
    }
    assert(out@ =~= v@);
    out
}

fn copy_strings(v: &Vec<String>) -> (r: Vec<String>)
    ensures
        texts(r@) == texts(v@),
{
    let mut out: Vec<String> = Vec::new();
    let mut i: usize = 0;
    while i < v.len()
        invariant
            i <= v.len(),
            out.len() == i,
            forall|j: int| 0 <= j < i ==> (#[trigger] out[j])@ == v[j]@,
        decreases v.len() - i,
    {
        out.push(copy_string(&v[i]));
        i = i + 1;
    }
    assert(texts(out@) =~= texts(v@));
    out
}

fn opt_id_string(o: &Option<SymbolId>) -> (r: Option<String>)
    ensures
        opt_text(r) == opt_id_text(*o),
{
    match o {
        Some(i) => Some(String::from_str(i.as_str())),
        None => None,
    }
}

fn json_diagnostic(d: &AnalysisDiagnostic) -> (r: JsonAnalysisDiagnostic)
    ensures
        is_json_diagnostic(r, *d),
{
    JsonAnalysisDiagnostic {
        severity: d.severity,
        code: copy_string(&d.code),
        message: copy_string(&d.message),
        span: d.span,
    }
}

fn json_diagnostics(v: &Vec<AnalysisDiagnostic>) -> (r: Vec<JsonAnalysisDiagnostic>)
    ensures
        r.len() == v.len(),
        forall|i: int| 0 <= i < r.len() ==> is_json_diagnostic(#[trigger] r[i], v[i]),
{
    let mut out: Vec<JsonAnalysisDiagnostic> = Vec::new();
    let mut i: usize = 0;
    while i < v.len()
        invariant
            i <= v.len(),
            out.len() == i,
            forall|j: int| 0 <= j < i ==> is_json_diagnostic(#[trigger] out[j], v[j]),
        decreases v.len() - i,
    {
        out.push(json_diagnostic(&v[i]));
        i = i + 1;
    }
    out
}

/// The report's record of a symbol.
pub fn json_symbol(s: &Symbol) -> (r: JsonSymbol)
    ensures
        is_json_symbol(r, *s),
{
    let mut parameters: Vec<JsonParameter> = Vec::new();
    let mut i: usize = 0;
    while i < s.parameters.len()
        invariant
            i <= s.parameters.len(),
            parameters.len() == i,
            forall|j: int| 0 <= j < i ==> is_json_parameter(#[trigger] parameters[j], s.parameters[j]),
        decreases s.parameters.len() - i,
    {
        let p = &s.parameters[i];
        parameters.push(
            JsonParameter {
                name: copy_string(&p.name),
                kind: p.kind,
                span: p.span,
                has_default: p.has_default,
                has_annotation: p.has_annotation,
            },
        );
        i = i + 1;
    }
    let mut decorators: Vec<JsonDecorator> = Vec::new();
    let mut i: usize = 0;
    while i < s.decorators.len()
        invariant
            i <= s.decorators.len(),
            decorators.len() == i,
            forall|j: int| 0 <= j < i ==> is_json_decorator(#[trigger] decorators[j], s.decorators[j]),
        decreases s.decorators.len() - i,
    {
        let d = &s.decorators[i];
        decorators.push(JsonDecorator { expression: copy_string(&d.expression), span: d.span });
        i = i + 1;
    }
    let mut measurements: Vec<JsonMeasurement> = Vec::new();
    let mut i: usize = 0;
    while i < s.measurements.len()
        invariant
            i <= s.measurements.len(),
            measurements.len() == i,
            forall|j: int| 0 <= j < i ==> is_json_measurement(#[trigger] measurements[j], s.measurements[j]),
        decreases s.measurements.len() - i,
    {
        let m = &s.measurements[i];
        measurements.push(
            JsonMeasurement {
                id: copy_string(&m.id),
                definition_version: copy_string(&m.definition_version),
                unit: copy_string(&m.unit),
                status: m.status,
                value: m.value,
                reason: copy_opt_string(&m.reason),
            },
        );
        i = i + 1;
    }
    JsonSymbol {
        id: String::from_str(s.id.as_str()),
        parent_id: opt_id_string(&s.parent_id),
        kind: s.kind,
        name: copy_string(&s.name),
        qualified_name: copy_string(&s.qualified_name),
        span: s.span,
        body_span: s.body_span,
        name_span: s.name_span,
        completeness: s.completeness,
        modifiers: copy_values(&s.modifiers),
        parameters,
        decorators,
        nesting_events: copy_values(&s.nesting_events),
        measurements,
    }
}

/// The report's record of a dependency reference.
pub fn json_dependency(d: &DependencyReference) -> (r: JsonDependencyReference)
    ensures
        is_json_dependency(r, *d),
{
    JsonDependencyReference {
        kind: d.kind,
        module: copy_opt_string(&d.module),
        imported_name: copy_opt_string(&d.imported_name),
        alias: copy_opt_string(&d.alias),
        relative_level: d.relative_level,
        wildcard: d.wildcard,
        resolution: d.resolution,
        enclosing_symbol: opt_id_string(&d.enclosing_symbol),
        span: d.span,
    }
}

/// The report's record of one file's analysis.
pub fn json_file(f: &FileAnalysis) -> (r: JsonFileAnalysis)
    ensures
        is_json_file(r, *f),
{
    let mut symbols: Vec<JsonSymbol> = Vec::new();
    let mut i: usize = 0;
    while i < f.facts.symbols.len()
        invariant
            i <= f.facts.symbols.len(),
            symbols.len() == i,
            forall|j: int| 0 <= j < i ==> is_json_symbol(#[trigger] symbols[j], f.facts.symbols[j]),
        decreases f.facts.symbols.len() - i,
    {
        symbols.push(json_symbol(&f.facts.symbols[i]));
        i = i + 1;
    }
    let mut dependencies: Vec<JsonDependencyReference> = Vec::new();
    let mut i: usize = 0;
    while i < f.facts.dependencies.len()
        invariant
            i <= f.facts.dependencies.len(),
            dependencies.len() == i,
            forall|j: int| 0 <= j < i ==> is_json_dependency(#[trigger] dependencies[j], f.facts.dependencies[j]),
        decreases f.facts.dependencies.len() - i,
    {
        dependencies.push(json_dependency(&f.facts.dependencies[i]));
        i = i + 1;
    }
    JsonFileAnalysis {
        path: json_path(f.path.as_str()),
        status: f.status,
        diagnostics: json_diagnostics(&f.diagnostics),
        symbols,
        dependencies,
    }
}

/// The report's record of an analyzer run.
pub fn json_run(run: &AnalyzerRun) -> (r: JsonAnalyzerRun)
    ensures
        is_json_run(r, *run),
{
    let d = &run.descriptor;
    let grammar = match &d.grammar {
        Some(g) => Some(JsonGrammar { name: copy_string(&g.name), version: copy_string(&g.version) }),
        None => None,
    };
    let mut queries: Vec<JsonQuery> = Vec::new();
    let mut i: usize = 0;
    while i < d.queries.len()
        invariant
            i <= d.queries.len(),
            queries.len() == i,
            forall|j: int|
                0 <= j < i ==> (#[trigger] queries[j]).name@ == d.queries[j].name@ && queries[j].version@
                    == d.queries[j].version@,
        decreases d.queries.len() - i,
    {
        queries.push(
            JsonQuery { name: copy_string(&d.queries[i].name), version: copy_string(&d.queries[i].version) },
        );
        i = i + 1;
    }
    let mut files: Vec<JsonFileAnalysis> = Vec::new();
    let mut i: usize = 0;
    while i < run.files.len()
        invariant
            i <= run.files.len(),
            files.len() == i,
            forall|j: int| 0 <= j < i ==> is_json_file(#[trigger] files[j], run.files[j]),
        decreases run.files.len() - i,
    {
        files.push(json_file(&run.files[i]));
        i = i + 1;
    }
    JsonAnalyzerRun {
        id: copy_string(&d.id),
        language: String::from_str(d.language.as_str()),
        version: copy_string(&d.version),
        level: d.level,
        capabilities: copy_values(&d.capabilities),
        grammar,
        queries,
        limitations: copy_strings(&d.limitations),
        counts: run.counts,
        files,
    }
}

fn named_counts(v: &Vec<(LanguageId, usize)>) -> (r: Vec<(String, usize)>)
    ensures
        is_named_counts(r@, v@),
{
    let mut out: Vec<(String, usize)> = Vec::new();
    let mut i: usize = 0;
    while i < v.len()
        invariant
            i <= v.len(),
            out.len() == i,
            forall|j: int| 0 <= j < i ==> (#[trigger] out[j]).0@ == v[j].0@ && out[j].1 == v[j].1,
        decreases v.len() - i,
    {
        out.push((String::from_str(v[i].0.as_str()), v[i].1));
        i = i + 1;
    }
    out
}

impl AnalysisJsonReport {
    /// The report of an analysis, written by the tool version given.
    pub fn from_analysis(analysis: &RepositoryAnalysis, tool_version: &str) -> (r: AnalysisJsonReport)
        ensures
            is_analysis_report(r, *analysis, tool_version@),
    {
        let mut analyzers: Vec<JsonAnalyzerRun> = Vec::new();
        let mut i: usize = 0;
        while i < analysis.analyzers.len()
            invariant
                i <= analysis.analyzers.len(),
                analyzers.len() == i,
                forall|j: int| 0 <= j < i ==> is_json_run(#[trigger] analyzers[j], analysis.analyzers[j]),
            decreases analysis.analyzers.len() - i,
        {
            analyzers.push(json_run(&analysis.analyzers[i]));
            i = i + 1;
        }
        let target_kind: &'static str = match analysis.selection.target_kind {
            AnalysisTargetKind::Directory => "directory",
            AnalysisTargetKind::File => "file",
        };
        proof {
            reveal_strlit("directory");
            reveal_strlit("file");
            reveal_strlit("codegraide");
            reveal_strlit("syntax-analysis");
        }
        AnalysisJsonReport {
            report_schema_version: ANALYSIS_REPORT_SCHEMA_VERSION,
            tool: JsonTool { name: "codegraide", version: String::from_str(tool_version) },
            analysis: JsonSyntaxAnalysis {
                kind: "syntax-analysis",
                definition_version: SYNTAX_ANALYSIS_DEFINITION_VERSION,
                selection: JsonAnalysisSelection {
                    target_kind,
                    match_patterns: copy_strings(&analysis.selection.match_patterns),
                    files: json_paths(&analysis.selection.selected_files),
                },
            },
            inventory: JsonAnalysisInventory {
                path_encoding: JSON_PATH_ENCODING,
                inventoried_files: analysis.inventoried_files,
                languages: named_counts(&analysis.inventory_languages),
                inventory_only_languages: named_counts(&analysis.inventory_only_languages),
            },
            analyzers,
            diagnostics: json_diagnostics(&analysis.diagnostics),
        }
    }
}

} // verus!
