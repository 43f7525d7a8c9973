//! What one analysis of a repository selection produced: the selection, the
//! per-analyzer runs with their file counts, and the review evaluation.

use vstd::prelude::*;

use crate::analyzer::{AnalysisDiagnostic, AnalyzerDescriptor, AnalyzerRegistryError, FileAnalysis, FileAnalysisStatus};
use crate::error::InventoryError;
use crate::report::LanguageId;
use crate::review::{ReviewEvaluation, ReviewOptions, ReviewPolicyError};

verus! {

/// Whether the analysis target is a directory or a single file.
#[derive(Debug, Clone, Copy, PartialEq, Eq, Structural)]
pub enum AnalysisTargetKind {
    Directory,
    File,
}

/// The files an analysis selected below its root.
#[derive(Debug)]
pub struct AnalysisSelection {
    pub root: String,
    pub target_kind: AnalysisTargetKind,
    pub match_patterns: Vec<String>,
    pub selected_files: Vec<String>,
}

/// How many files one analyzer saw, by outcome.
#[derive(Debug, Clone, Copy, PartialEq, Eq, Structural)]
pub struct LanguageAnalysisCounts {
    pub analyzed: usize,
    pub successful: usize,
    pub partial: usize,
    pub failed: usize,
}

impl LanguageAnalysisCounts {
    /// All counts zero.
    pub fn zero() -> (r: LanguageAnalysisCounts)
        ensures
            r == (LanguageAnalysisCounts { analyzed: 0, successful: 0, partial: 0, failed: 0 }),
    {
        LanguageAnalysisCounts { analyzed: 0, successful: 0, partial: 0, failed: 0 }
    }

    /// Counts one more analyzed file with the given outcome.
    pub fn record(&mut self, status: FileAnalysisStatus)
        requires
            old(self).analyzed < usize::MAX,
            old(self).successful < usize::MAX,
            old(self).partial < usize::MAX,
            old(self).failed < usize::MAX,
        ensures
            final(self).analyzed == old(self).analyzed + 1,
            final(self).successful == old(self).successful + (if status
                == FileAnalysisStatus::Successful {
                1int
            } else {
                0
            }),
            final(self).partial == old(self).partial + (if status == FileAnalysisStatus::Partial {
                1int
            } else {
                0
            }),
            final(self).failed == old(self).failed + (if status == FileAnalysisStatus::Failed {
                1int
            } else {
                0
            }),
    {
        self.analyzed = self.analyzed + 1;
        match status {
            FileAnalysisStatus::Successful => self.successful = self.successful + 1,
            FileAnalysisStatus::Partial => self.partial = self.partial + 1,
            FileAnalysisStatus::Failed => self.failed = self.failed + 1,
        }
    }
}

/// One analyzer's run over the selected files of its language.
#[derive(Debug)]
pub struct AnalyzerRun {
    pub descriptor: AnalyzerDescriptor,
    pub counts: LanguageAnalysisCounts,
    pub files: Vec<FileAnalysis>,
}

/// What to analyze and how.
#[derive(Debug)]
pub struct AnalysisOptions {
    pub target: String,
    pub match_patterns: Vec<String>,
    pub include_ignored: Vec<String>,
    pub review: ReviewOptions,
}

impl Default for AnalysisOptions {
    fn default() -> (r: AnalysisOptions)
        ensures
            r.target@ == "."@,
            r.match_patterns.len() == 0,
            r.include_ignored.len() == 0,
            r.review.policy_path is None,
            r.review.complexity_review_at is None,
            r.review.complexity_block_at is None,
            !r.review.no_complexity_block,
            r.review.documentation_review_below is None,
    {
        AnalysisOptions {
            target: ".".to_owned(),
            match_patterns: Vec::new(),
            include_ignored: Vec::new(),
            review: ReviewOptions::default(),
        }
    }
}

/// The result of analyzing a selection of a repository. The language
/// tallies are sorted by language.
#[derive(Debug)]
pub struct RepositoryAnalysis {
    pub selection: AnalysisSelection,
    pub inventoried_files: usize,
    pub inventory_languages: Vec<(LanguageId, usize)>,
    pub inventory_only_languages: Vec<(LanguageId, usize)>,
    pub analyzers: Vec<AnalyzerRun>,
    pub diagnostics: Vec<AnalysisDiagnostic>,
    pub review: ReviewEvaluation,
}

/// Why an analysis failed. An I/O failure carries the text of the
/// underlying error.
#[derive(Debug)]
pub enum AnalysisError {
    Io { context: String, message: String },
    InvalidInput { message: String },
    Inventory(InventoryError),
    Registry(AnalyzerRegistryError),
    ReviewPolicy(ReviewPolicyError),
}

} // verus!

verus! {

/// The text of an analysis error.
pub open spec fn analysis_error_text(e: AnalysisError) -> Seq<char> {
    match e {
        AnalysisError::Io { context, message } => context@ + ": "@ + message@,
        AnalysisError::InvalidInput { message } => "invalid input: "@ + message@,
        AnalysisError::Inventory(i) => "inventory failed: "@ + crate::error::inventory_error_text(i),
        AnalysisError::Registry(r) => "analyzer registry failed: "@ + match r {
            AnalyzerRegistryError::DuplicateLanguage(l) => "analyzer already registered for "@ + l@,
        },
        AnalysisError::ReviewPolicy(p) => "review policy failed: "@ + crate::review::policy_error_text(p),
    }
}

impl AnalysisError {
    /// An I/O failure, with what was being done.
    pub fn io(context: &str, message: &str) -> (r: AnalysisError)
        ensures
            r matches AnalysisError::Io { context: c, message: m } && c@ == context@ && m@ == message@,
    {
        AnalysisError::Io { context: context.to_owned(), message: message.to_owned() }
    }

    /// An invalid input.
    pub fn invalid_input(message: &str) -> (r: AnalysisError)
        ensures
            r matches AnalysisError::InvalidInput { message: m } && m@ == message@,
    {
        AnalysisError::InvalidInput { message: message.to_owned() }
    }

    /// The error text.
    pub fn message(&self) -> (r: String)
        ensures
            r@ == analysis_error_text(*self),
    {
        let mut out = String::new();
        match self {
            AnalysisError::Io { context, message } => {
                crate::text::push_text(&mut out, context.as_str());
                crate::text::push_text(&mut out, ": ");
                crate::text::push_text(&mut out, message.as_str());
            },
            AnalysisError::InvalidInput { message } => {
                crate::text::push_text(&mut out, "invalid input: ");
                crate::text::push_text(&mut out, message.as_str());
            },
            AnalysisError::Inventory(i) => {
                crate::text::push_text(&mut out, "inventory failed: ");
                let m = i.message();
                crate::text::push_text(&mut out, m.as_str());
            },
            AnalysisError::Registry(r) => {
                crate::text::push_text(&mut out, "analyzer registry failed: ");
                let m = r.message();
                crate::text::push_text(&mut out, m.as_str());
            },
            AnalysisError::ReviewPolicy(p) => {
                crate::text::push_text(&mut out, "review policy failed: ");
                let m = p.message();
                crate::text::push_text(&mut out, m.as_str());
            },
        }
        assert(out@ =~= analysis_error_text(*self));
        out
    }
}

} // verus!
