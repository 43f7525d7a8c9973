//! The JSON report of a file inventory: the files of each category, the
//! counts by language and by extension, what ignore rules kept out, the
//! physical line counts and the diagnostics, with every path written as the
//! report writes paths.

use vstd::prelude::*;

use crate::json_output::{json_path, json_path_text};
use crate::lines::{LineCounts, RepositoryLineCounts};
use crate::report::{
    file_category_index, file_category_name, ExtensionId, FileCategory, InventoryDiagnostic, LanguageId,
    RepositoryInventory,
};
use crate::text::copy_string;

verus! {

pub const INVENTORY_REPORT_SCHEMA_VERSION: &'static str = "0.1.0";

pub const INVENTORY_REPORT_DEFINITION_VERSION: &'static str = "inventory-report-v1";

pub const PHYSICAL_LINE_DEFINITION_VERSION: &'static str = "physical-lines-v1";

/// How the report writes paths: UTF-8, with the other bytes percent-encoded.
pub const JSON_PATH_ENCODING: &'static str = "utf8-with-percent-encoded-bytes";

#[derive(Debug)]
pub struct JsonTool {
    pub name: &'static str,
    pub version: String,
}

#[derive(Debug)]
pub struct JsonAnalysis {
    pub kind: &'static str,
    pub definition_version: &'static str,
}

#[derive(Debug)]
pub struct JsonCategory {
    pub count: usize,
    pub files: Vec<String>,
}

#[derive(Debug)]
pub struct JsonIgnored {
    pub exact: bool,
    pub files: Vec<String>,
    pub directories: Vec<String>,
    pub builtin_directories: Vec<String>,
}

#[derive(Debug, Clone, Copy, PartialEq, Eq, Structural)]
pub struct JsonLineCountValues {
    pub files: usize,
    pub total_lines: usize,
    pub source_lines: usize,
    pub comment_lines: usize,
    pub blank_lines: usize,
}

/// Line counts in total and by language; `by_language` is an object keyed
/// by language name.
#[derive(Debug)]
pub struct JsonLineCounts {
    pub definition_version: &'static str,
    pub total: JsonLineCountValues,
    pub by_language: Vec<(String, JsonLineCountValues)>,
}

/// The inventory part of the report; `categories`, `languages` and
/// `uncategorized_extensions` are objects keyed by their first component.
#[derive(Debug)]
pub struct JsonInventory {
    pub path_encoding: &'static str,
    pub inventoried_files: usize,
    pub categories: Vec<(String, JsonCategory)>,
    pub languages: Vec<(String, usize)>,
    pub uncategorized_extensions: Vec<(String, usize)>,
    pub ignored: JsonIgnored,
    pub included_ignored_files: usize,
    pub line_counts: JsonLineCounts,
}

#[derive(Debug)]
pub struct JsonDiagnostic {
    pub severity: &'static str,
    pub code: String,
    pub message: String,
}

#[derive(Debug)]
pub struct InventoryJsonReport {
    pub report_schema_version: &'static str,
    pub tool: JsonTool,
    pub analysis: JsonAnalysis,
    pub inventory: JsonInventory,
    pub diagnostics: Vec<JsonDiagnostic>,
}

/// The category at a position of the fixed category order.
pub open spec fn category_at(i: int) -> FileCategory {
    if i == 0 {
        FileCategory::Source
    } else if i == 1 {
        FileCategory::Documentation
    } else if i == 2 {
        FileCategory::Configuration
    } else if i == 3 {
        FileCategory::Data
    } else if i == 4 {
        FileCategory::Assets
    } else {
        FileCategory::Uncategorized
    }
}

/// Paths as the report writes them, in the same order.
pub open spec fn json_paths_text(paths: Seq<String>) -> Seq<Seq<char>> {
    paths.map_values(|p: String| json_path_text(p@))
}

pub open spec fn texts(s: Seq<String>) -> Seq<Seq<char>> {
    s.map_values(|t: String| t@)
}

/// The report's record of one set of line counts.
pub open spec fn line_values(c: LineCounts) -> JsonLineCountValues {
    JsonLineCountValues {
        files: c.files,
        total_lines: c.total,
        source_lines: c.source,
        comment_lines: c.comment,
        blank_lines: c.blank,
    }
}

/// `r` is the report's record of the line counts `c`.
pub open spec fn is_json_line_counts(r: JsonLineCounts, c: RepositoryLineCounts) -> bool {
    &&& r.definition_version@ == PHYSICAL_LINE_DEFINITION_VERSION@
    &&& r.total == line_values(c.total)
    &&& r.by_language.len() == c.by_language.len()
    &&& forall|i: int|
        0 <= i < r.by_language.len() ==> (#[trigger] r.by_language[i]).0@ == c.by_language[i].0@
            && r.by_language[i].1 == line_values(c.by_language[i].1)
}

/// `r` is the report of the inventory `inv`, written by the tool version
/// `tool_version`.
pub open spec fn is_inventory_report(r: InventoryJsonReport, inv: RepositoryInventory, tool_version: Seq<char>) -> bool {
    &&& r.report_schema_version@ == INVENTORY_REPORT_SCHEMA_VERSION@
    &&& r.tool.name@ == "codegraide"@
    &&& r.tool.version@ == tool_version
    &&& r.analysis.kind@ == "inventory"@
    &&& r.analysis.definition_version@ == INVENTORY_REPORT_DEFINITION_VERSION@
    &&& r.inventory.path_encoding@ == JSON_PATH_ENCODING@
    &&& r.inventory.inventoried_files == inv.inventoried_files
    &&& r.inventory.categories.len() == 6
    &&& forall|i: int|
        0 <= i < 6 ==> (#[trigger] r.inventory.categories[i]).0@ == file_category_name(category_at(i))
            && r.inventory.categories[i].1.count == inv.files_by_category[i].len()
            && texts(r.inventory.categories[i].1.files@) == json_paths_text(inv.files_by_category[i]@)
    &&& r.inventory.languages.len() == inv.files_by_language.len()
    &&& forall|i: int|
        0 <= i < r.inventory.languages.len() ==> (#[trigger] r.inventory.languages[i]).0@
            == inv.files_by_language[i].0@ && r.inventory.languages[i].1 == inv.files_by_language[i].1
    &&& r.inventory.uncategorized_extensions.len() == inv.uncategorized_files_by_extension.len()
    &&& forall|i: int|
        0 <= i < r.inventory.uncategorized_extensions.len() ==> (
        #[trigger] r.inventory.uncategorized_extensions[i]).0@ == inv.uncategorized_files_by_extension[i].0@
            && r.inventory.uncategorized_extensions[i].1 == inv.uncategorized_files_by_extension[i].1
    &&& r.inventory.ignored.exact == inv.ignored.exact
    &&& texts(r.inventory.ignored.files@) == json_paths_text(inv.ignored.files@)
    &&& texts(r.inventory.ignored.directories@) == json_paths_text(inv.ignored.directories@)
    &&& texts(r.inventory.ignored.builtin_directories@) == json_paths_text(inv.ignored.builtin_directories@)
    &&& r.inventory.included_ignored_files == inv.num_included_ignored_files
    &&& is_json_line_counts(r.inventory.line_counts, inv.line_counts)
    &&& r.diagnostics.len() == inv.diagnostics.len()
    &&& forall|i: int|
        0 <= i < r.diagnostics.len() ==> (#[trigger] r.diagnostics[i]).severity@ == "warning"@
            && r.diagnostics[i].code@ == inv.diagnostics[i].code@ && r.diagnostics[i].message@
            == inv.diagnostics[i].message@
}

fn category_of_index(i: usize) -> (c: FileCategory)
    requires
        i < 6,
    ensures
        c == category_at(i as int),
        file_category_index(c) == i,
{
    if i == 0 {
        FileCategory::Source
    } else if i == 1 {
        FileCategory::Documentation
    } else if i == 2 {
        FileCategory::Configuration
    } else if i == 3 {
        FileCategory::Data
    } else if i == 4 {
        FileCategory::Assets
    } else {
        FileCategory::Uncategorized
    }
}

/// Writes each path as the report does.
pub fn json_paths(paths: &Vec<String>) -> (r: Vec<String>)
    ensures
        texts(r@) == json_paths_text(paths@),
{
    let mut out: Vec<String> = Vec::new();
    let mut i: usize = 0;
    while i < paths.len()
        invariant
            i <= paths.len(),
            out.len() == i,
            forall|j: int| 0 <= j < i ==> (#[trigger] out[j])@ == json_path_text(paths[j]@),
        decreases paths.len() - i,
    {
        out.push(json_path(paths[i].as_str()));
        i = i + 1;
    }
    assert(texts(out@) =~= json_paths_text(paths@));
    out
}

fn json_line_values(c: &LineCounts) -> (r: JsonLineCountValues)
    ensures
        r == line_values(*c),
{
    JsonLineCountValues {
        files: c.files,
        total_lines: c.total,
        source_lines: c.source,
        comment_lines: c.comment,
        blank_lines: c.blank,
    }
}

/// The report's record of a set of line counts.
pub fn json_line_counts(c: &RepositoryLineCounts) -> (r: JsonLineCounts)
    ensures
        is_json_line_counts(r, *c),
{
    let mut by_language: Vec<(String, JsonLineCountValues)> = Vec::new();
    let mut i: usize = 0;
    while i < c.by_language.len()
        invariant
            i <= c.by_language.len(),
            by_language.len() == i,
            forall|j: int|
                0 <= j < i ==> (#[trigger] by_language[j]).0@ == c.by_language[j].0@ && by_language[j].1
                    == line_values(c.by_language[j].1),
        decreases c.by_language.len() - i,
    {
        let name = String::from_str(c.by_language[i].0.as_str());
        by_language.push((name, json_line_values(&c.by_language[i].1)));
        i = i + 1;
    }
    JsonLineCounts {
        definition_version: PHYSICAL_LINE_DEFINITION_VERSION,
        total: json_line_values(&c.total),
        by_language,
    }
}

fn language_counts(v: &Vec<(LanguageId, usize)>) -> (r: Vec<(String, usize)>)
    ensures
        r.len() == v.len(),
        forall|i: int| 0 <= i < r.len() ==> (#[trigger] r[i]).0@ == v[i].0@ && r[i].1 == v[i].1,
{
    let mut out: Vec<(String, usize)> = Vec::new();
    let mut i: usize = 0;
    while i < v.len()
        invariant
            i <= v.len(),
            out.len() == i,
            forall|j: int| 0 <= j < i ==> (#[trigger] out[j]).0@ == v[j].0@ && out[j].1 == v[j].1,
        decreases v.len() - i,
    {
        out.push((String::from_str(v[i].0.as_str()), v[i].1));
        i = i + 1;
    }
    out
}

fn extension_counts(v: &Vec<(ExtensionId, usize)>) -> (r: Vec<(String, usize)>)
    ensures
        r.len() == v.len(),
        forall|i: int| 0 <= i < r.len() ==> (#[trigger] r[i]).0@ == v[i].0@ && r[i].1 == v[i].1,
{
    let mut out: Vec<(String, usize)> = Vec::new();
    let mut i: usize = 0;
    while i < v.len()
        invariant
            i <= v.len(),
            out.len() == i,
            forall|j: int| 0 <= j < i ==> (#[trigger] out[j]).0@ == v[j].0@ && out[j].1 == v[j].1,
        decreases v.len() - i,
    {
        out.push((String::from_str(v[i].0.as_str()), v[i].1));
        i = i + 1;
    }
    out
}

fn json_diagnostics(v: &Vec<InventoryDiagnostic>) -> (r: Vec<JsonDiagnostic>)
    ensures
        r.len() == v.len(),
        forall|i: int|
            0 <= i < r.len() ==> (#[trigger] r[i]).severity@ == "warning"@ && r[i].code@ == v[i].code@
                && r[i].message@ == v[i].message@,
{
    let mut out: Vec<JsonDiagnostic> = Vec::new();
    let mut i: usize = 0;
    while i < v.len()
        invariant
            i <= v.len(),
            out.len() == i,
            forall|j: int|
                0 <= j < i ==> (#[trigger] out[j]).severity@ == "warning"@ && out[j].code@ == v[j].code@
                    && out[j].message@ == v[j].message@,
        decreases v.len() - i,
    {
        let d = JsonDiagnostic {
            severity: "warning",
            code: copy_string(&v[i].code),
            message: copy_string(&v[i].message),
        };
        proof {
            reveal_strlit("warning");
        }
        out.push(d);
        i = i + 1;
    }
    out
}

impl InventoryJsonReport {
    /// The report of an inventory, written by the tool version given.
    pub fn from_inventory(inventory: &RepositoryInventory, tool_version: &str) -> (r: InventoryJsonReport)
        requires
            inventory.well_formed(),
        ensures
            is_inventory_report(r, *inventory, tool_version@),
    {
        let mut categories: Vec<(String, JsonCategory)> = Vec::new();
        let mut i: usize = 0;
        while i < 6
            invariant
                i <= 6,
                inventory.well_formed(),
                categories.len() == i,
                forall|j: int|
                    0 <= j < i ==> (#[trigger] categories[j]).0@ == file_category_name(category_at(j))
                        && categories[j].1.count == inventory.files_by_category[j].len()
                        && texts(categories[j].1.files@) == json_paths_text(inventory.files_by_category[j]@),
            decreases 6 - i,
        {
            let category = category_of_index(i);
            let files = json_paths(&inventory.files_by_category[i]);
            proof {
                assert(files.len() == texts(files@).len());
                assert(inventory.files_by_category[i as int].len() == json_paths_text(
                    inventory.files_by_category[i as int]@,
                ).len());
            }
            let count = files.len();
            categories.push((String::from_str(category.as_str()), JsonCategory { count, files }));
            i = i + 1;
        }
        let report = InventoryJsonReport {
            report_schema_version: INVENTORY_REPORT_SCHEMA_VERSION,
            tool: JsonTool { name: "codegraide", version: String::from_str(tool_version) },
            analysis: JsonAnalysis { kind: "inventory", definition_version: INVENTORY_REPORT_DEFINITION_VERSION },
            inventory: JsonInventory {
                path_encoding: JSON_PATH_ENCODING,
                inventoried_files: inventory.inventoried_files,
                categories,
                languages: language_counts(&inventory.files_by_language),
                uncategorized_extensions: extension_counts(&inventory.uncategorized_files_by_extension),
                ignored: JsonIgnored {
                    exact: inventory.ignored.exact,
                    files: json_paths(&inventory.ignored.files),
                    directories: json_paths(&inventory.ignored.directories),
                    builtin_directories: json_paths(&inventory.ignored.builtin_directories),
                },
                included_ignored_files: inventory.num_included_ignored_files,
                line_counts: json_line_counts(&inventory.line_counts),
            },
            diagnostics: json_diagnostics(&inventory.diagnostics),
        };
        proof {
            reveal_strlit("codegraide");
            reveal_strlit("inventory");
        }
        report
    }
}

} // verus!
