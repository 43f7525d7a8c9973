//! Review policy: risk bands for complexity scores, approved exceptions, how
//! a policy is resolved from defaults, a policy file and command-line
//! options, and how an analysis is judged against it.

use vstd::prelude::*;

use crate::analysis::AnalyzerRun;
use crate::analyzer::{opt_text, FileAnalysis, FileAnalysisStatus, Measurement, SourceSpan, Symbol, SymbolKind};
use crate::documentation::{
    lemma_documentation_files_step, lemma_file_symbol_total_prefix, lemma_run_totals_prefix,
    file_symbol_total, run_file_total, run_symbol_total,
    path_order_key, path_order_key_exec, threshold_result, trim_white_space, trimmed, DocumentationCoverage,
    DocumentationCoverageStatus,
};
use crate::inventory::{detect_language, path_language};
use crate::report::LanguageId;
use crate::order::{is_permutation, is_stable_order, key_view, keys_view, sorted_order, AtomView, KeyAtom};
use crate::text::{copy_string, decimal, push_decimal, push_text, text_eq};

verus! {

pub const REVIEW_POLICY_VERSION: &'static str = "0.2.0";

pub const REVIEW_POLICY_DEFINITION_VERSION: &'static str = "review-policy-v2";

pub const PYTHON_CYCLOMATIC_COMPLEXITY: &'static str = "python-cyclomatic-complexity";

pub const PYTHON_CYCLOMATIC_COMPLEXITY_DEFINITION_VERSION: &'static str = "python-cyclomatic-complexity-v1";

/// Review settings given on the command line.
#[derive(Debug)]
pub struct ReviewOptions {
    pub policy_path: Option<String>,
    pub complexity_review_at: Option<u64>,
    pub complexity_block_at: Option<u64>,
    pub no_complexity_block: bool,
    pub documentation_review_below: Option<u8>,
}

impl Default for ReviewOptions {
    fn default() -> (r: ReviewOptions)
        ensures
            r.policy_path is None,
            r.complexity_review_at is None,
            r.complexity_block_at is None,
            !r.no_complexity_block,
            r.documentation_review_below is None,
    {
        ReviewOptions {
            policy_path: None,
            complexity_review_at: None,
            complexity_block_at: None,
            no_complexity_block: false,
            documentation_review_below: None,
        }
    }
}

/// The risk of a finding, from lowest to unknown.
#[derive(Debug, Clone, Copy, PartialEq, Eq, Structural, PartialOrd, Ord)]
pub enum RiskLevel {
    Low,
    Moderate,
    High,
    Critical,
    Unknown,
}

/// The position of a risk level in its order.
pub open spec fn risk_rank(r: RiskLevel) -> int {
    match r {
        RiskLevel::Low => 0,
        RiskLevel::Moderate => 1,
        RiskLevel::High => 2,
        RiskLevel::Critical => 3,
        RiskLevel::Unknown => 4,
    }
}

impl RiskLevel {
    /// The stable name.
    pub fn as_str(self) -> (r: &'static str)
        ensures
            r@ == match self {
                RiskLevel::Low => "low"@,
                RiskLevel::Moderate => "moderate"@,
                RiskLevel::High => "high"@,
                RiskLevel::Critical => "critical"@,
                RiskLevel::Unknown => "unknown"@,
            },
    {
        match self {
            RiskLevel::Low => "low",
            RiskLevel::Moderate => "moderate",
            RiskLevel::High => "high",
            RiskLevel::Critical => "critical",
            RiskLevel::Unknown => "unknown",
        }
    }

    fn rank(self) -> (r: u64)
        ensures
            r as int == risk_rank(self),
    {
        match self {
            RiskLevel::Low => 0,
            RiskLevel::Moderate => 1,
            RiskLevel::High => 2,
            RiskLevel::Critical => 3,
            RiskLevel::Unknown => 4,
        }
    }
}

/// What a finding asks for, from nothing to a block.
#[derive(Debug, Clone, Copy, PartialEq, Eq, Structural, PartialOrd, Ord)]
pub enum RequiredAction {
    NoAction,
    HumanReview,
    Block,
}

/// The position of an action in its order.
pub open spec fn action_rank(a: RequiredAction) -> int {
    match a {
        RequiredAction::NoAction => 0,
        RequiredAction::HumanReview => 1,
        RequiredAction::Block => 2,
    }
}

impl RequiredAction {
    /// The stable name.
    pub fn as_str(self) -> (r: &'static str)
        ensures
            r@ == match self {
                RequiredAction::NoAction => "none"@,
                RequiredAction::HumanReview => "human-review"@,
                RequiredAction::Block => "block"@,
            },
    {
        match self {
            RequiredAction::NoAction => "none",
            RequiredAction::HumanReview => "human-review",
            RequiredAction::Block => "block",
        }
    }

    fn rank(self) -> (r: u64)
        ensures
            r as int == action_rank(self),
    {
        match self {
            RequiredAction::NoAction => 0,
            RequiredAction::HumanReview => 1,
            RequiredAction::Block => 2,
        }
    }
}

/// The outcome of a review.
#[derive(Debug, Clone, Copy, PartialEq, Eq, Structural, PartialOrd, Ord)]
pub enum ReviewStatus {
    Pass,
    HumanReviewRequired,
    Blocked,
}

impl ReviewStatus {
    /// The stable name.
    pub fn as_str(self) -> (r: &'static str)
        ensures
            r@ == match self {
                ReviewStatus::Pass => "pass"@,
                ReviewStatus::HumanReviewRequired => "human-review-required"@,
                ReviewStatus::Blocked => "blocked"@,
            },
    {
        match self {
            ReviewStatus::Pass => "pass",
            ReviewStatus::HumanReviewRequired => "human-review-required",
            ReviewStatus::Blocked => "blocked",
        }
    }
}

/// The process exit code of a review outcome.
pub fn review_status_code(status: ReviewStatus) -> (r: u8)
    ensures
        r == match status {
            ReviewStatus::Pass => 0u8,
            ReviewStatus::HumanReviewRequired => 2u8,
            ReviewStatus::Blocked => 3u8,
        },
{
    match status {
        ReviewStatus::Pass => 0,
        ReviewStatus::HumanReviewRequired => 2,
        ReviewStatus::Blocked => 3,
    }
}

/// The scores at which complexity becomes moderate, high and critical risk.
#[derive(Debug, Clone, Copy, PartialEq, Eq, Structural)]
pub struct RiskBands {
    pub moderate_at: u64,
    pub high_at: u64,
    pub critical_at: u64,
}

/// The risk of a complexity score.
pub open spec fn band_risk(b: RiskBands, score: u64) -> RiskLevel {
    if score >= b.critical_at {
        RiskLevel::Critical
    } else if score >= b.high_at {
        RiskLevel::High
    } else if score >= b.moderate_at {
        RiskLevel::Moderate
    } else {
        RiskLevel::Low
    }
}

impl Default for RiskBands {
    fn default() -> (r: RiskBands)
        ensures
            r == (RiskBands { moderate_at: 6, high_at: 11, critical_at: 21 }),
    {
        RiskBands { moderate_at: 6, high_at: 11, critical_at: 21 }
    }
}

impl RiskBands {
    /// The risk of a complexity score.
    pub fn for_score(self, score: u64) -> (r: RiskLevel)
        ensures
            r == band_risk(self, score),
    {
        if score >= self.critical_at {
            RiskLevel::Critical
        } else if score >= self.high_at {
            RiskLevel::High
        } else if score >= self.moderate_at {
            RiskLevel::Moderate
        } else {
            RiskLevel::Low
        }
    }
}

/// An approved exception to the complexity threshold for one symbol.
#[derive(Debug)]
pub struct ReviewException {
    pub symbol_id: String,
    pub reason: String,
    pub approved_max: Option<u64>,
    pub unbounded: bool,
}

/// Whether an exception covers a score.
pub open spec fn acknowledges(e: ReviewException, score: u64) -> bool {
    e.unbounded || (e.approved_max matches Some(limit) && score <= limit)
}

impl ReviewException {
    /// Whether the exception covers a score: it is unbounded, or the score
    /// is at most its approved maximum.
    pub fn acknowledges(&self, score: u64) -> (r: bool)
        ensures
            r == acknowledges(*self, score),
    {
        self.unbounded || match self.approved_max {
            Some(limit) => score <= limit,
            None => false,
        }
    }

    pub fn copy(&self) -> (r: ReviewException)
        ensures
            r.symbol_id@ == self.symbol_id@,
            r.reason@ == self.reason@,
            r.approved_max == self.approved_max,
            r.unbounded == self.unbounded,
    {
        ReviewException {
            symbol_id: copy_string(&self.symbol_id),
            reason: copy_string(&self.reason),
            approved_max: self.approved_max,
            unbounded: self.unbounded,
        }
    }
}

/// Why a review policy could not be resolved.
#[derive(Debug)]
pub enum ReviewPolicyError {
    Io { path: String, message: String },
    Invalid { path: Option<String>, message: String },
}

/// The risk bands of a policy file, each optional.
#[derive(Debug)]
pub struct RawRiskBands {
    pub moderate_at: Option<u64>,
    pub high_at: Option<u64>,
    pub critical_at: Option<u64>,
}

/// An exception as a policy file writes it.
#[derive(Debug)]
pub struct RawException {
    pub symbol_id: String,
    pub reason: String,
    pub approved_max: Option<u64>,
    pub unbounded: Option<bool>,
}

/// The complexity section of a policy file.
#[derive(Debug)]
pub struct RawComplexityPolicy {
    pub human_review_at: Option<u64>,
    pub block_at: Option<u64>,
    pub risk_bands: Option<RawRiskBands>,
    pub exceptions: Vec<RawException>,
}

/// The documentation section of a policy file.
#[derive(Debug)]
pub struct RawDocumentationPolicy {
    pub human_review_below: Option<u8>,
}

/// A policy file as read.
#[derive(Debug)]
pub struct RawPolicy {
    pub policy_version: String,
    pub cyclomatic_complexity: RawComplexityPolicy,
    pub documentation_coverage: RawDocumentationPolicy,
}

/// Why an exception of a policy file is refused, if it is.
pub open spec fn exception_error(e: RawException) -> Option<Seq<char>> {
    let unbounded = match e.unbounded {
        Some(b) => b,
        None => false,
    };
    if e.symbol_id@.len() == 0 || trimmed(e.reason@).len() == 0 {
        Some("review exceptions require a symbol_id and nonblank reason"@)
    } else if (e.approved_max is Some) == unbounded {
        Some("exception for "@ + e.symbol_id@ + " must specify exactly one of approved_max or unbounded=true"@)
    } else if e.approved_max == Some(0u64) {
        Some("approved_max must be at least 1"@)
    } else {
        None
    }
}

/// Whether `r` is the exception that raw exception `e` becomes.
pub open spec fn converted_exception(r: ReviewException, e: RawException) -> bool {
    &&& r.symbol_id@ == e.symbol_id@
    &&& r.reason@ == e.reason@
    &&& r.approved_max == e.approved_max
    &&& r.unbounded == match e.unbounded {
        Some(b) => b,
        None => false,
    }
}

/// Converts one exception of a policy file.
pub fn convert_exception(e: &RawException) -> (r: Result<ReviewException, ReviewPolicyError>)
    ensures
        match r {
            Ok(x) => exception_error(*e) is None && converted_exception(x, *e),
            Err(ReviewPolicyError::Invalid { path, message }) => path is None && exception_error(*e) == Some(message@),
            Err(ReviewPolicyError::Io { .. }) => false,
        },
{
    let unbounded = match e.unbounded {
        Some(b) => b,
        None => false,
    };
    let chars = crate::order::text_chars(e.reason.as_str());
    let trimmed_reason = trim_white_space(&chars);
    if e.symbol_id.as_str().unicode_len() == 0 || trimmed_reason.len() == 0 {
        return Err(ReviewPolicyError::Invalid {
            path: None,
            message: "review exceptions require a symbol_id and nonblank reason".to_owned(),
        });
    }
    if e.approved_max.is_some() == unbounded {
        let mut message = String::new();
        push_text(&mut message, "exception for ");
        push_text(&mut message, e.symbol_id.as_str());
        push_text(&mut message, " must specify exactly one of approved_max or unbounded=true");
        return Err(ReviewPolicyError::Invalid { path: None, message });
    }
    if e.approved_max == Some(0u64) {
        return Err(ReviewPolicyError::Invalid {
            path: None,
            message: "approved_max must be at least 1".to_owned(),
        });
    }
    Ok(ReviewException {
        symbol_id: copy_string(&e.symbol_id),
        reason: copy_string(&e.reason),
        approved_max: e.approved_max,
        unbounded,
    })
}

/// A review policy: thresholds, risk bands and approved exceptions, with
/// where its settings came from.
#[derive(Debug)]
pub struct ReviewPolicy {
    pub definition_version: &'static str,
    pub sources: Vec<String>,
    pub risk_bands: RiskBands,
    pub complexity_review_at: u64,
    pub complexity_block_at: Option<u64>,
    pub documentation_review_below: Option<u8>,
    pub exceptions: Vec<ReviewException>,
}

/// The index of the first exception for a symbol, searching from `i`.
pub open spec fn exception_from(es: Seq<ReviewException>, id: Seq<char>, i: int) -> Option<int>
    decreases es.len() - i,
{
    if i >= es.len() || i < 0 {
        None
    } else if es[i].symbol_id@ == id {
        Some(i)
    } else {
        exception_from(es, id, i + 1)
    }
}

/// Why a resolved policy is refused, if it is.
pub open spec fn validation_error(review_at: u64, block_at: Option<u64>, bands: RiskBands, doc_below: Option<u8>) -> Option<Seq<char>> {
    if review_at == 0 {
        Some("complexity review threshold must be at least 1"@)
    } else if block_at matches Some(t) && t < review_at {
        Some("complexity block threshold cannot be below the review threshold"@)
    } else if bands.moderate_at < 2 || bands.moderate_at >= bands.high_at || bands.high_at >= bands.critical_at {
        Some("risk bands must be strictly increasing and start at 2 or above"@)
    } else if doc_below matches Some(t) && !(1 <= t <= 100) {
        Some("documentation review threshold must be between 1 and 100"@)
    } else {
        None
    }
}

pub open spec fn or_default(o: Option<u64>, d: u64) -> u64 {
    match o {
        Some(v) => v,
        None => d,
    }
}

/// The first refused exception of a policy file, if any.
pub open spec fn first_exception_error(es: Seq<RawException>) -> Option<Seq<char>>
    decreases es.len(),
{
    if es.len() == 0 {
        None
    } else {
        match first_exception_error(es.drop_last()) {
            Some(m) => Some(m),
            None => exception_error(es.last()),
        }
    }
}

/// The complexity review threshold: the command line, else the policy
/// file, else 11.
pub open spec fn merged_review_at(o: ReviewOptions, raw: Option<RawPolicy>) -> u64 {
    match o.complexity_review_at {
        Some(v) => v,
        None => match raw {
            Some(r) => or_default(r.cyclomatic_complexity.human_review_at, 11),
            None => 11,
        },
    }
}

/// The block threshold: none when blocking is switched off, else the
/// command line, else the policy file.
pub open spec fn merged_block_at(o: ReviewOptions, raw: Option<RawPolicy>) -> Option<u64> {
    if o.no_complexity_block {
        None
    } else if o.complexity_block_at is Some {
        o.complexity_block_at
    } else {
        match raw {
            Some(r) => r.cyclomatic_complexity.block_at,
            None => None,
        }
    }
}

/// The risk bands: each band of the policy file, else its default.
pub open spec fn merged_bands(raw: Option<RawPolicy>) -> RiskBands {
    match raw {
        Some(r) => match r.cyclomatic_complexity.risk_bands {
            Some(b) => RiskBands {
                moderate_at: or_default(b.moderate_at, 6),
                high_at: or_default(b.high_at, 11),
                critical_at: or_default(b.critical_at, 21),
            },
            None => RiskBands { moderate_at: 6, high_at: 11, critical_at: 21 },
        },
        None => RiskBands { moderate_at: 6, high_at: 11, critical_at: 21 },
    }
}

/// The documentation review threshold: the command line, else the policy
/// file.
pub open spec fn merged_doc_below(o: ReviewOptions, raw: Option<RawPolicy>) -> Option<u8> {
    if o.documentation_review_below is Some {
        o.documentation_review_below
    } else {
        match raw {
            Some(r) => r.documentation_coverage.human_review_below,
            None => None,
        }
    }
}

/// Whether any review setting came from the command line.
pub open spec fn cli_used(o: ReviewOptions) -> bool {
    o.complexity_review_at is Some || o.complexity_block_at is Some || o.no_complexity_block
        || o.documentation_review_below is Some
}

/// Where the settings came from, in order, each named once.
pub open spec fn policy_sources(o: ReviewOptions, raw: Option<RawPolicy>) -> Seq<Seq<char>> {
    seq!["built-in"@] + (if raw is Some { seq!["policy-file"@] } else { Seq::empty() }) + (if cli_used(o) {
        seq!["cli"@]
    } else {
        Seq::empty()
    })
}

/// The first reason resolution fails, with the path it names, if any.
pub open spec fn resolve_error(o: ReviewOptions, raw: Option<RawPolicy>) -> Option<(Option<Seq<char>>, Seq<char>)> {
    let file_error: Option<(Option<Seq<char>>, Seq<char>)> = match raw {
        Some(r) => if !(r.policy_version@ == "0.1.0"@ || r.policy_version@ == "0.2.0"@) {
            Some((crate::analyzer::opt_text(o.policy_path), "unsupported policy_version "@ + r.policy_version@
                + "; expected 0.1.0 or 0.2.0"@))
        } else if r.policy_version@ == "0.1.0"@ && r.documentation_coverage.human_review_below is Some {
            Some((crate::analyzer::opt_text(o.policy_path), "documentation_coverage requires policy_version 0.2.0"@))
        } else {
            match first_exception_error(r.cyclomatic_complexity.exceptions@) {
                Some(m) => Some((None, m)),
                None => None,
            }
        },
        None => None,
    };
    if file_error is Some {
        file_error
    } else if o.no_complexity_block && o.complexity_block_at is Some {
        Some((None, "--no-complexity-block cannot be combined with --complexity-block-at"@))
    } else {
        match validation_error(merged_review_at(o, raw), merged_block_at(o, raw), merged_bands(raw), merged_doc_below(o, raw)) {
            Some(m) => Some((None, m)),
            None => None,
        }
    }
}

/// Whether `p` is the policy resolved from options `o` and policy file `raw`.
pub open spec fn resolved_policy(p: ReviewPolicy, o: ReviewOptions, raw: Option<RawPolicy>) -> bool {
    &&& p.definition_version@ == REVIEW_POLICY_DEFINITION_VERSION@
    &&& p.sources@.map_values(|s: String| s@) == policy_sources(o, raw)
    &&& p.risk_bands == merged_bands(raw)
    &&& p.complexity_review_at == merged_review_at(o, raw)
    &&& p.complexity_block_at == merged_block_at(o, raw)
    &&& p.documentation_review_below == merged_doc_below(o, raw)
    &&& match raw {
        Some(r) => p.exceptions.len() == r.cyclomatic_complexity.exceptions.len() && forall|i: int|
            0 <= i < p.exceptions.len() ==> converted_exception(#[trigger] p.exceptions@[i], r.cyclomatic_complexity.exceptions@[i]),
        None => p.exceptions.len() == 0,
    }
}

fn invalid(path: Option<String>, message: &str) -> (r: ReviewPolicyError)
    ensures
        r matches ReviewPolicyError::Invalid { path: p, message: m } && crate::analyzer::opt_text(p) == crate::analyzer::opt_text(path)
            && m@ == message@,
{
    ReviewPolicyError::Invalid { path, message: message.to_owned() }
}

proof fn lemma_first_exception_error_prefix(es: Seq<RawException>, n: int)
    requires
        0 <= n <= es.len(),
        first_exception_error(es.take(n)) is Some,
    ensures
        first_exception_error(es) == first_exception_error(es.take(n)),
    decreases es.len() - n,
{
    if n < es.len() {
        assert(es.take(n + 1).drop_last() =~= es.take(n));
        lemma_first_exception_error_prefix(es, n + 1);
    } else {
        assert(es.take(n) =~= es);
    }
}

fn convert_exceptions(es: &Vec<RawException>) -> (r: Result<Vec<ReviewException>, ReviewPolicyError>)
    ensures
        match r {
            Ok(v) => first_exception_error(es@) is None && v.len() == es.len() && forall|i: int|
                0 <= i < v.len() ==> converted_exception(#[trigger] v@[i], es@[i]),
            Err(ReviewPolicyError::Invalid { path, message }) => path is None && first_exception_error(es@) == Some(message@),
            Err(ReviewPolicyError::Io { .. }) => false,
        },
{
    let mut v: Vec<ReviewException> = Vec::new();
    let mut i: usize = 0;
    while i < es.len()
        invariant
            i <= es.len(),
            first_exception_error(es@.take(i as int)) is None,
            v.len() == i,
            forall|k: int| 0 <= k < i ==> converted_exception(#[trigger] v@[k], es@[k]),
        decreases es.len() - i,
    {
        proof {
            assert(es@.take(i + 1).drop_last() =~= es@.take(i as int));
        }
        match convert_exception(&es[i]) {
            Ok(x) => {
                v.push(x);
            },
            Err(e) => {
                proof {
                    lemma_first_exception_error_prefix(es@, i + 1);
                }
                return Err(e);
            },
        }
        i = i + 1;
    }
    proof {
        assert(es@.take(es.len() as int) =~= es@);
    }
    Ok(v)
}

impl ReviewPolicy {
    /// Checks the thresholds and bands of a policy.
    pub fn validate(&self) -> (r: Result<(), ReviewPolicyError>)
        ensures
            match r {
                Ok(()) => validation_error(self.complexity_review_at, self.complexity_block_at, self.risk_bands,
                    self.documentation_review_below) is None,
                Err(ReviewPolicyError::Invalid { path, message }) => path is None && validation_error(
                    self.complexity_review_at, self.complexity_block_at, self.risk_bands,
                    self.documentation_review_below) == Some(message@),
                Err(ReviewPolicyError::Io { .. }) => false,
            },
    {
        if self.complexity_review_at == 0 {
            return Err(invalid(None, "complexity review threshold must be at least 1"));
        }
        if let Some(t) = self.complexity_block_at {
            if t < self.complexity_review_at {
                return Err(invalid(None, "complexity block threshold cannot be below the review threshold"));
            }
        }
        if self.risk_bands.moderate_at < 2 || self.risk_bands.moderate_at >= self.risk_bands.high_at
            || self.risk_bands.high_at >= self.risk_bands.critical_at {
            return Err(invalid(None, "risk bands must be strictly increasing and start at 2 or above"));
        }
        if let Some(t) = self.documentation_review_below {
            if !(1 <= t && t <= 100) {
                return Err(invalid(None, "documentation review threshold must be between 1 and 100"));
            }
        }
        Ok(())
    }

    /// The first exception for a symbol, if any.
    pub fn exception_for(&self, symbol_id: &str) -> (r: Option<&ReviewException>)
        ensures
            match exception_from(self.exceptions@, symbol_id@, 0) {
                Some(i) => r == Some(&self.exceptions@[i]),
                None => r is None,
            },
    {
        let mut i: usize = 0;
        while i < self.exceptions.len()
            invariant
                i <= self.exceptions.len(),
                exception_from(self.exceptions@, symbol_id@, 0) == exception_from(self.exceptions@, symbol_id@, i as int),
            decreases self.exceptions.len() - i,
        {
            if text_eq(self.exceptions[i].symbol_id.as_str(), symbol_id) {
                return Some(&self.exceptions[i]);
            }
            i = i + 1;
        }
        None
    }

    /// Resolves the review policy: the built-in defaults, overridden by the
    /// policy file `raw` when one was read from `options.policy_path`, then
    /// by the command-line options; the result is validated.
    pub fn resolve(options: &ReviewOptions, raw: Option<RawPolicy>) -> (r: Result<ReviewPolicy, ReviewPolicyError>)
        ensures
            match r {
                Ok(p) => resolve_error(*options, raw) is None && resolved_policy(p, *options, raw),
                Err(ReviewPolicyError::Invalid { path, message }) => resolve_error(*options, raw) == Some(
                    (crate::analyzer::opt_text(path), message@),
                ),
                Err(ReviewPolicyError::Io { .. }) => false,
            },
    {
        let ghost raw_view = raw;
        let mut sources: Vec<String> = Vec::new();
        sources.push("built-in".to_owned());
        let mut review_at: u64 = 11;
        let mut block_at: Option<u64> = None;
        let mut bands = RiskBands { moderate_at: 6, high_at: 11, critical_at: 21 };
        let mut doc_below: Option<u8> = None;
        let mut exceptions: Vec<ReviewException> = Vec::new();
        match &raw {
            Some(r) => {
                let v = r.policy_version.as_str();
                if !(text_eq(v, "0.1.0") || text_eq(v, REVIEW_POLICY_VERSION)) {
                    let mut message = String::new();
                    push_text(&mut message, "unsupported policy_version ");
                    push_text(&mut message, v);
                    push_text(&mut message, "; expected 0.1.0 or ");
                    push_text(&mut message, REVIEW_POLICY_VERSION);
                    proof {
                        reveal_strlit("0.2.0");
                        reveal_strlit("; expected 0.1.0 or ");
                        reveal_strlit("; expected 0.1.0 or 0.2.0");
                        assert("; expected 0.1.0 or "@ + "0.2.0"@ =~= "; expected 0.1.0 or 0.2.0"@);
                    }
                    return Err(ReviewPolicyError::Invalid {
                        path: crate::analyzer::copy_opt_string(&options.policy_path),
                        message,
                    });
                }
                if text_eq(v, "0.1.0") && r.documentation_coverage.human_review_below.is_some() {
                    return Err(invalid(
                        crate::analyzer::copy_opt_string(&options.policy_path),
                        "documentation_coverage requires policy_version 0.2.0",
                    ));
                }
                if let Some(value) = r.cyclomatic_complexity.human_review_at {
                    review_at = value;
                }
                if r.cyclomatic_complexity.block_at.is_some() {
                    block_at = r.cyclomatic_complexity.block_at;
                }
                if let Some(b) = &r.cyclomatic_complexity.risk_bands {
                    bands = RiskBands {
                        moderate_at: match b.moderate_at {
                            Some(x) => x,
                            None => bands.moderate_at,
                        },
                        high_at: match b.high_at {
                            Some(x) => x,
                            None => bands.high_at,
                        },
                        critical_at: match b.critical_at {
                            Some(x) => x,
                            None => bands.critical_at,
                        },
                    };
                }
                exceptions = match convert_exceptions(&r.cyclomatic_complexity.exceptions) {
                    Ok(v) => v,
                    Err(e) => return Err(e),
                };
                doc_below = r.documentation_coverage.human_review_below;
                sources.push("policy-file".to_owned());
            },
            None => {},
        }
        let mut cli = false;
        if let Some(value) = options.complexity_review_at {
            review_at = value;
            cli = true;
        }
        if options.complexity_block_at.is_some() {
            block_at = options.complexity_block_at;
            cli = true;
        }
        if options.no_complexity_block {
            if options.complexity_block_at.is_some() {
                return Err(invalid(None, "--no-complexity-block cannot be combined with --complexity-block-at"));
            }
            block_at = None;
            cli = true;
        }
        if options.documentation_review_below.is_some() {
            doc_below = options.documentation_review_below;
            cli = true;
        }
        if cli {
            sources.push("cli".to_owned());
        }
        let policy = ReviewPolicy {
            definition_version: REVIEW_POLICY_DEFINITION_VERSION,
            sources,
            risk_bands: bands,
            complexity_review_at: review_at,
            complexity_block_at: block_at,
            documentation_review_below: doc_below,
            exceptions,
        };
        proof {
            assert(policy.sources@.map_values(|s: String| s@) =~= policy_sources(*options, raw_view));
        }
        match policy.validate() {
            Ok(()) => Ok(policy),
            Err(e) => Err(e),
        }
    }
}

/// How much of the selection the review could judge.
#[derive(Debug, Clone, Copy, PartialEq, Eq, Structural)]
pub struct ReviewCoverage {
    pub selected_language_files: usize,
    pub unsupported_selected_files: usize,
    pub analyzed_files: usize,
    pub successful_files: usize,
    pub partial_files: usize,
    pub failed_files: usize,
    pub eligible_callables: usize,
    pub measured_callables: usize,
    pub unavailable_callables: usize,
}

/// One measured callable, ranked by complexity.
#[derive(Debug)]
pub struct ReviewRankingEntry {
    pub rank: usize,
    pub path: String,
    pub symbol_id: String,
    pub qualified_name: String,
    pub kind: SymbolKind,
    pub span: SourceSpan,
    pub score: u64,
    pub risk: RiskLevel,
}

/// One finding of a review.
#[derive(Debug)]
pub struct ReviewFinding {
    pub rule_id: String,
    pub risk: RiskLevel,
    pub required_action: RequiredAction,
    pub path: Option<String>,
    pub symbol_id: Option<String>,
    pub qualified_name: Option<String>,
    pub span: Option<SourceSpan>,
    pub observed_value: Option<u64>,
    pub threshold: Option<u64>,
    pub unit: Option<&'static str>,
    pub acknowledged: bool,
    pub message: String,
}

/// The outcome of a review, with the policy it applied.
#[derive(Debug)]
pub struct ReviewEvaluation {
    pub status: ReviewStatus,
    pub policy: ReviewPolicy,
    pub coverage: ReviewCoverage,
    pub rankings: Vec<ReviewRankingEntry>,
    pub findings: Vec<ReviewFinding>,
}

/// A finding with its text taken by value.
pub struct FindingView {
    pub rule_id: Seq<char>,
    pub risk: RiskLevel,
    pub required_action: RequiredAction,
    pub path: Option<Seq<char>>,
    pub symbol_id: Option<Seq<char>>,
    pub qualified_name: Option<Seq<char>>,
    pub span: Option<SourceSpan>,
    pub observed_value: Option<u64>,
    pub threshold: Option<u64>,
    pub unit: Option<Seq<char>>,
    pub acknowledged: bool,
    pub message: Seq<char>,
}

pub open spec fn opt_str(o: Option<&'static str>) -> Option<Seq<char>> {
    match o {
        Some(s) => Some(s@),
        None => None,
    }
}

impl View for ReviewFinding {
    type V = FindingView;

    open spec fn view(&self) -> FindingView {
        FindingView {
            rule_id: self.rule_id@,
            risk: self.risk,
            required_action: self.required_action,
            path: opt_text(self.path),
            symbol_id: opt_text(self.symbol_id),
            qualified_name: opt_text(self.qualified_name),
            span: self.span,
            observed_value: self.observed_value,
            threshold: self.threshold,
            unit: opt_str(self.unit),
            acknowledged: self.acknowledged,
            message: self.message@,
        }
    }
}

/// A ranking entry, its rank left out, with its text taken by value.
pub struct RankingView {
    pub path: Seq<char>,
    pub symbol_id: Seq<char>,
    pub qualified_name: Seq<char>,
    pub kind: SymbolKind,
    pub span: SourceSpan,
    pub score: u64,
    pub risk: RiskLevel,
}

impl View for ReviewRankingEntry {
    type V = RankingView;

    open spec fn view(&self) -> RankingView {
        RankingView {
            path: self.path@,
            symbol_id: self.symbol_id@,
            qualified_name: self.qualified_name@,
            kind: self.kind,
            span: self.span,
            score: self.score,
            risk: self.risk,
        }
    }
}

/// Whether a symbol is a callable: a function, method or lambda.
pub open spec fn is_callable(k: SymbolKind) -> bool {
    k == SymbolKind::Function || k == SymbolKind::Method || k == SymbolKind::Lambda
}

/// The index of the first cyclomatic complexity measurement from `i` on.
pub open spec fn complexity_index(ms: Seq<Measurement>, i: int) -> Option<int>
    decreases ms.len() - i,
{
    if i >= ms.len() || i < 0 {
        None
    } else if ms[i].id@ == PYTHON_CYCLOMATIC_COMPLEXITY@ {
        Some(i)
    } else {
        complexity_index(ms, i + 1)
    }
}

/// The cyclomatic complexity of a symbol, if it was measured.
pub open spec fn complexity_score(s: Symbol) -> Option<u64> {
    match complexity_index(s.measurements@, 0) {
        Some(i) => s.measurements@[i].value,
        None => None,
    }
}

pub open spec fn file_status_name(st: FileAnalysisStatus) -> Seq<char> {
    match st {
        FileAnalysisStatus::Successful => "successful"@,
        FileAnalysisStatus::Partial => "partial"@,
        FileAnalysisStatus::Failed => "failed"@,
    }
}

/// The finding for a file whose analysis is incomplete.
pub open spec fn incomplete_finding(f: FileAnalysis) -> FindingView {
    FindingView {
        rule_id: "analysis-incomplete"@,
        risk: RiskLevel::Unknown,
        required_action: RequiredAction::HumanReview,
        path: Some(f.path@),
        symbol_id: None,
        qualified_name: None,
        span: None,
        observed_value: None,
        threshold: None,
        unit: None,
        acknowledged: false,
        message: "analysis is "@ + file_status_name(f.status) + " for "@ + f.path@
            + "; complexity evidence is incomplete"@,
    }
}

/// The finding for a callable without a complexity score.
pub open spec fn unmeasured_finding(f: FileAnalysis, s: Symbol) -> FindingView {
    FindingView {
        rule_id: "complexity-unavailable"@,
        risk: RiskLevel::Unknown,
        required_action: RequiredAction::HumanReview,
        path: Some(f.path@),
        symbol_id: Some(s.id@),
        qualified_name: Some(s.qualified_name@),
        span: Some(s.span),
        observed_value: None,
        threshold: None,
        unit: Some("score"@),
        acknowledged: false,
        message: "cyclomatic complexity is unavailable for this callable"@,
    }
}

/// What a score at or above the review threshold asks for.
pub open spec fn threshold_action(p: ReviewPolicy, s: Symbol, score: u64) -> RequiredAction {
    match exception_from(p.exceptions@, s.id@, 0) {
        Some(i) if acknowledges(p.exceptions@[i], score) => RequiredAction::NoAction,
        _ => if p.complexity_block_at matches Some(t) && score >= t {
            RequiredAction::Block
        } else {
            RequiredAction::HumanReview
        },
    }
}

pub open spec fn threshold_message(p: ReviewPolicy, s: Symbol, score: u64) -> Seq<char> {
    match exception_from(p.exceptions@, s.id@, 0) {
        Some(i) => if acknowledges(p.exceptions@[i], score) {
            "cyclomatic complexity "@ + decimal(score as nat) + " is acknowledged by policy: "@
                + p.exceptions@[i].reason@
        } else {
            "cyclomatic complexity "@ + decimal(score as nat) + " exceeds the approved exception for "@
                + p.exceptions@[i].reason@
        },
        None => "cyclomatic complexity "@ + decimal(score as nat) + " meets or exceeds the review threshold "@
            + decimal(p.complexity_review_at as nat),
    }
}

/// The finding for a score at or above the review threshold.
pub open spec fn threshold_finding(p: ReviewPolicy, f: FileAnalysis, s: Symbol, score: u64) -> FindingView {
    let action = threshold_action(p, s, score);
    FindingView {
        rule_id: "cyclomatic-complexity-threshold"@,
        risk: band_risk(p.risk_bands, score),
        required_action: action,
        path: Some(f.path@),
        symbol_id: Some(s.id@),
        qualified_name: Some(s.qualified_name@),
        span: Some(s.span),
        observed_value: Some(score),
        threshold: Some(
            if action == RequiredAction::Block {
                or_default(p.complexity_block_at, p.complexity_review_at)
            } else {
                p.complexity_review_at
            },
        ),
        unit: Some("score"@),
        acknowledged: action == RequiredAction::NoAction,
        message: threshold_message(p, s, score),
    }
}

/// The findings one symbol raises.
pub open spec fn symbol_findings(p: ReviewPolicy, f: FileAnalysis, s: Symbol) -> Seq<FindingView> {
    if !is_callable(s.kind) {
        Seq::empty()
    } else {
        match complexity_score(s) {
            None => seq![unmeasured_finding(f, s)],
            Some(score) => if score < p.complexity_review_at {
                Seq::empty()
            } else {
                seq![threshold_finding(p, f, s, score)]
            },
        }
    }
}

/// The ranking entry one symbol adds, if it is a measured callable.
pub open spec fn symbol_rankings(p: ReviewPolicy, f: FileAnalysis, s: Symbol) -> Seq<RankingView> {
    if is_callable(s.kind) && complexity_score(s) is Some {
        let score = complexity_score(s)->0;
        seq![RankingView {
            path: f.path@,
            symbol_id: s.id@,
            qualified_name: s.qualified_name@,
            kind: s.kind,
            span: s.span,
            score,
            risk: band_risk(p.risk_bands, score),
        }]
    } else {
        Seq::empty()
    }
}

pub open spec fn symbols_findings(p: ReviewPolicy, f: FileAnalysis, syms: Seq<Symbol>) -> Seq<FindingView>
    decreases syms.len(),
{
    if syms.len() == 0 {
        Seq::empty()
    } else {
        symbols_findings(p, f, syms.drop_last()) + symbol_findings(p, f, syms.last())
    }
}

pub open spec fn symbols_rankings(p: ReviewPolicy, f: FileAnalysis, syms: Seq<Symbol>) -> Seq<RankingView>
    decreases syms.len(),
{
    if syms.len() == 0 {
        Seq::empty()
    } else {
        symbols_rankings(p, f, syms.drop_last()) + symbol_rankings(p, f, syms.last())
    }
}

/// The findings of one analyzed file, in order.
pub open spec fn file_findings(p: ReviewPolicy, f: FileAnalysis) -> Seq<FindingView> {
    (if f.status != FileAnalysisStatus::Successful {
        seq![incomplete_finding(f)]
    } else {
        Seq::empty()
    }) + symbols_findings(p, f, f.facts.symbols@)
}

pub open spec fn files_findings(p: ReviewPolicy, fs: Seq<FileAnalysis>) -> Seq<FindingView>
    decreases fs.len(),
{
    if fs.len() == 0 {
        Seq::empty()
    } else {
        files_findings(p, fs.drop_last()) + file_findings(p, fs.last())
    }
}

pub open spec fn files_rankings(p: ReviewPolicy, fs: Seq<FileAnalysis>) -> Seq<RankingView>
    decreases fs.len(),
{
    if fs.len() == 0 {
        Seq::empty()
    } else {
        files_rankings(p, fs.drop_last()) + symbols_rankings(p, fs.last(), fs.last().facts.symbols@)
    }
}

/// The analyzed files of all runs, in order.
pub open spec fn run_files(runs: Seq<AnalyzerRun>) -> Seq<FileAnalysis>
    decreases runs.len(),
{
    if runs.len() == 0 {
        Seq::empty()
    } else {
        run_files(runs.drop_last()) + runs.last().files@
    }
}

/// The symbols of files, in order.
pub open spec fn files_symbols(fs: Seq<FileAnalysis>) -> Seq<Symbol>
    decreases fs.len(),
{
    if fs.len() == 0 {
        Seq::empty()
    } else {
        files_symbols(fs.drop_last()) + fs.last().facts.symbols@
    }
}

/// Whether some analyzer covers a language.
pub open spec fn analyzer_language(runs: Seq<AnalyzerRun>, l: Seq<char>) -> bool {
    exists|i: int| 0 <= i < runs.len() && (#[trigger] runs[i]).descriptor.language@ == l
}

pub open spec fn language_path(p: String) -> bool {
    path_language(p@) is Some
}

pub open spec fn unanalyzed_path(runs: Seq<AnalyzerRun>, p: String) -> bool {
    path_language(p@) matches Some(l) && !analyzer_language(runs, l)
}

/// The coverage a review reports.
pub open spec fn review_coverage(c: ReviewCoverage, selected: Seq<String>, runs: Seq<AnalyzerRun>) -> bool {
    let fs = run_files(runs);
    let syms = files_symbols(fs);
    &&& c.selected_language_files == selected.filter(|p: String| language_path(p)).len()
    &&& c.unsupported_selected_files == selected.filter(|p: String| unanalyzed_path(runs, p)).len()
    &&& c.analyzed_files == fs.len()
    &&& c.successful_files == fs.filter(|f: FileAnalysis| f.status == FileAnalysisStatus::Successful).len()
    &&& c.partial_files == fs.filter(|f: FileAnalysis| f.status == FileAnalysisStatus::Partial).len()
    &&& c.failed_files == fs.filter(|f: FileAnalysis| f.status == FileAnalysisStatus::Failed).len()
    &&& c.eligible_callables == syms.filter(|s: Symbol| is_callable(s.kind)).len()
    &&& c.measured_callables == syms.filter(|s: Symbol| is_callable(s.kind) && complexity_score(s) is Some).len()
    &&& c.unavailable_callables == syms.filter(|s: Symbol| is_callable(s.kind) && complexity_score(s) is None).len()
}

/// The finding about the selection, if any.
pub open spec fn selection_findings(c: ReviewCoverage) -> Seq<FindingView> {
    if c.selected_language_files == 0 {
        seq![FindingView {
            rule_id: "analysis-incomplete"@,
            risk: RiskLevel::Unknown,
            required_action: RequiredAction::HumanReview,
            path: None,
            symbol_id: None,
            qualified_name: None,
            span: None,
            observed_value: None,
            threshold: None,
            unit: None,
            acknowledged: false,
            message: "no recognized source files were selected for review"@,
        }]
    } else if c.unsupported_selected_files > 0 {
        seq![FindingView {
            rule_id: "analysis-incomplete"@,
            risk: RiskLevel::Unknown,
            required_action: RequiredAction::HumanReview,
            path: None,
            symbol_id: None,
            qualified_name: None,
            span: None,
            observed_value: None,
            threshold: None,
            unit: None,
            acknowledged: false,
            message: decimal(c.unsupported_selected_files as nat) + " selected source file(s) have no registered analyzer"@,
        }]
    } else {
        Seq::empty()
    }
}

/// Two decimal digits.
pub open spec fn two_digits(n: nat) -> Seq<char> {
    if n < 10 {
        "0"@ + decimal(n)
    } else {
        decimal(n)
    }
}

pub open spec fn coverage_status_name(s: DocumentationCoverageStatus) -> Seq<char> {
    match s {
        DocumentationCoverageStatus::Disabled => "disabled"@,
        DocumentationCoverageStatus::NotApplicable => "not-applicable"@,
        DocumentationCoverageStatus::Complete => "complete"@,
        DocumentationCoverageStatus::Partial => "partial"@,
    }
}

/// The finding about documentation coverage, if any.
pub open spec fn documentation_findings(p: ReviewPolicy, d: DocumentationCoverage) -> Seq<FindingView> {
    match p.documentation_review_below {
        None => Seq::empty(),
        Some(t) => {
            let c = d.counts;
            let measured = c.documented + c.missing;
            let bp: nat = if measured > 0 { ((c.documented * 10000) / measured) as nat } else { 0 };
            match threshold_result(d.status, c, t as int) {
                Some(true) => Seq::empty(),
                Some(false) => seq![FindingView {
                    rule_id: "python-documentation-coverage-below-threshold"@,
                    risk: RiskLevel::Unknown,
                    required_action: RequiredAction::HumanReview,
                    path: None,
                    symbol_id: None,
                    qualified_name: None,
                    span: None,
                    observed_value: Some(bp as u64),
                    threshold: Some((t * 100) as u64),
                    unit: Some("basis-points"@),
                    acknowledged: false,
                    message: "Python documentation coverage is "@ + decimal(bp / 100) + "."@ + two_digits(bp % 100)
                        + "% ("@ + decimal(c.documented as nat) + "/"@ + decimal(measured as nat) + ") and is below the "@
                        + decimal(t as nat) + "% review threshold"@,
                }],
                None => seq![FindingView {
                    rule_id: "python-documentation-coverage-unavailable"@,
                    risk: RiskLevel::Unknown,
                    required_action: RequiredAction::HumanReview,
                    path: None,
                    symbol_id: None,
                    qualified_name: None,
                    span: None,
                    observed_value: if measured > 0 { Some(bp as u64) } else { None },
                    threshold: Some((t * 100) as u64),
                    unit: Some("basis-points"@),
                    acknowledged: false,
                    message: "Python documentation coverage cannot be evaluated against the "@ + decimal(t as nat)
                        + "% review threshold because analysis is "@ + coverage_status_name(d.status),
                }],
            }
        },
    }
}

/// The ordering key of a path inside a finding key: absent paths first.
pub open spec fn optional_path_key(p: Option<Seq<char>>) -> Seq<AtomView> {
    match p {
        None => seq![AtomView::Num(0)],
        Some(q) => seq![AtomView::Num(1)] + path_order_key(q),
    }
}

pub open spec fn optional_text_key(t: Option<Seq<char>>) -> Seq<AtomView> {
    match t {
        None => seq![AtomView::Num(0)],
        Some(q) => seq![AtomView::Num(1), AtomView::Text(q)],
    }
}

/// Findings are ordered by action and risk, both descending, then path,
/// symbol id and rule id.
pub open spec fn finding_key(f: FindingView) -> Seq<AtomView> {
    seq![AtomView::Num(2 - action_rank(f.required_action)), AtomView::Num(4 - risk_rank(f.risk))]
        + optional_path_key(f.path) + optional_text_key(f.symbol_id) + seq![AtomView::Text(f.rule_id)]
}

/// Rankings are ordered by score descending, then path, start byte and
/// symbol id.
pub open spec fn ranking_key(r: RankingView) -> Seq<AtomView> {
    seq![AtomView::Num(u64::MAX - r.score)] + path_order_key(r.path) + seq![
        AtomView::Num(r.span.start_byte as int),
        AtomView::Text(r.symbol_id),
    ]
}

/// The status a list of findings gives.
pub open spec fn findings_status(fs: Seq<FindingView>) -> ReviewStatus {
    if exists|i: int| 0 <= i < fs.len() && (#[trigger] fs[i]).required_action == RequiredAction::Block {
        ReviewStatus::Blocked
    } else if exists|i: int| 0 <= i < fs.len() && (#[trigger] fs[i]).required_action == RequiredAction::HumanReview {
        ReviewStatus::HumanReviewRequired
    } else {
        ReviewStatus::Pass
    }
}

/// `out` is `xs` stably sorted by finding key.
pub open spec fn sorted_findings(out: Seq<FindingView>, xs: Seq<FindingView>) -> bool {
    exists|order: Seq<usize>|
        is_stable_order(xs.map_values(|x: FindingView| finding_key(x)), order) && out.len() == order.len()
            && forall|i: int| 0 <= i < out.len() ==> #[trigger] out[i] == xs[order[i] as int]
}

/// `out` is `xs` stably sorted by ranking key, ranked from one.
pub open spec fn sorted_rankings(out: Seq<ReviewRankingEntry>, xs: Seq<RankingView>) -> bool {
    exists|order: Seq<usize>|
        is_stable_order(xs.map_values(|x: RankingView| ranking_key(x)), order) && out.len() == order.len()
            && forall|i: int| 0 <= i < out.len() ==> (#[trigger] out[i])@ == xs[order[i] as int] && out[i].rank == i + 1
}

/// The cyclomatic complexity of a symbol, if it was measured.
pub fn complexity_of(s: &Symbol) -> (r: Option<u64>)
    ensures
        r == complexity_score(*s),
{
    let mut i: usize = 0;
    while i < s.measurements.len()
        invariant
            i <= s.measurements.len(),
            complexity_index(s.measurements@, 0) == complexity_index(s.measurements@, i as int),
        decreases s.measurements.len() - i,
    {
        if text_eq(s.measurements[i].id.as_str(), PYTHON_CYCLOMATIC_COMPLEXITY) {
            return s.measurements[i].value;
        }
        i = i + 1;
    }
    None
}

fn file_status_text(st: FileAnalysisStatus) -> (r: &'static str)
    ensures
        r@ == file_status_name(st),
{
    st.as_str()
}

fn incomplete_finding_exec(f: &FileAnalysis) -> (r: ReviewFinding)
    ensures
        r@ == incomplete_finding(*f),
{
    let mut message = String::new();
    push_text(&mut message, "analysis is ");
    push_text(&mut message, file_status_text(f.status));
    push_text(&mut message, " for ");
    push_text(&mut message, f.path.as_str());
    push_text(&mut message, "; complexity evidence is incomplete");
    ReviewFinding {
        rule_id: "analysis-incomplete".to_owned(),
        risk: RiskLevel::Unknown,
        required_action: RequiredAction::HumanReview,
        path: Some(copy_string(&f.path)),
        symbol_id: None,
        qualified_name: None,
        span: None,
        observed_value: None,
        threshold: None,
        unit: None,
        acknowledged: false,
        message,
    }
}

fn unmeasured_finding_exec(f: &FileAnalysis, s: &Symbol) -> (r: ReviewFinding)
    ensures
        r@ == unmeasured_finding(*f, *s),
{
    ReviewFinding {
        rule_id: "complexity-unavailable".to_owned(),
        risk: RiskLevel::Unknown,
        required_action: RequiredAction::HumanReview,
        path: Some(copy_string(&f.path)),
        symbol_id: Some(s.id.as_str().to_owned()),
        qualified_name: Some(copy_string(&s.qualified_name)),
        span: Some(s.span),
        observed_value: None,
        threshold: None,
        unit: Some("score"),
        acknowledged: false,
        message: "cyclomatic complexity is unavailable for this callable".to_owned(),
    }
}

fn threshold_finding_exec(p: &ReviewPolicy, f: &FileAnalysis, s: &Symbol, score: u64) -> (r: ReviewFinding)
    ensures
        r@ == threshold_finding(*p, *f, *s, score),
{
    let exception = p.exception_for(s.id.as_str());
    let acknowledged = match exception {
        Some(e) => e.acknowledges(score),
        None => false,
    };
    let required_action = if acknowledged {
        RequiredAction::NoAction
    } else if match p.complexity_block_at {
        Some(t) => score >= t,
        None => false,
    } {
        RequiredAction::Block
    } else {
        RequiredAction::HumanReview
    };
    let mut message = String::new();
    push_text(&mut message, "cyclomatic complexity ");
    push_decimal(&mut message, score);
    match exception {
        Some(e) => {
            if acknowledged {
                push_text(&mut message, " is acknowledged by policy: ");
            } else {
                push_text(&mut message, " exceeds the approved exception for ");
            }
            push_text(&mut message, e.reason.as_str());
        },
        None => {
            push_text(&mut message, " meets or exceeds the review threshold ");
            push_decimal(&mut message, p.complexity_review_at);
        },
    }
    let threshold = if required_action == RequiredAction::Block {
        match p.complexity_block_at {
            Some(t) => t,
            None => p.complexity_review_at,
        }
    } else {
        p.complexity_review_at
    };
    ReviewFinding {
        rule_id: "cyclomatic-complexity-threshold".to_owned(),
        risk: p.risk_bands.for_score(score),
        required_action,
        path: Some(copy_string(&f.path)),
        symbol_id: Some(s.id.as_str().to_owned()),
        qualified_name: Some(copy_string(&s.qualified_name)),
        span: Some(s.span),
        observed_value: Some(score),
        threshold: Some(threshold),
        unit: Some("score"),
        acknowledged: required_action == RequiredAction::NoAction,
        message,
    }
}

/// Running review totals over the files processed so far.
struct ReviewTally {
    coverage: ReviewCoverage,
    findings: Vec<ReviewFinding>,
    rankings: Vec<ReviewRankingEntry>,
}

pub open spec fn findings_view(v: Seq<ReviewFinding>) -> Seq<FindingView> {
    v.map_values(|x: ReviewFinding| x@)
}

pub open spec fn rankings_view(v: Seq<ReviewRankingEntry>) -> Seq<RankingView> {
    v.map_values(|x: ReviewRankingEntry| x@)
}

spec fn review_tally_of(t: ReviewTally, p: ReviewPolicy, fs: Seq<FileAnalysis>) -> bool {
    let syms = files_symbols(fs);
    &&& findings_view(t.findings@) == files_findings(p, fs)
    &&& rankings_view(t.rankings@) == files_rankings(p, fs)
    &&& t.coverage.analyzed_files == fs.len()
    &&& t.coverage.successful_files == fs.filter(|f: FileAnalysis| f.status == FileAnalysisStatus::Successful).len()
    &&& t.coverage.partial_files == fs.filter(|f: FileAnalysis| f.status == FileAnalysisStatus::Partial).len()
    &&& t.coverage.failed_files == fs.filter(|f: FileAnalysis| f.status == FileAnalysisStatus::Failed).len()
    &&& t.coverage.eligible_callables == syms.filter(|s: Symbol| is_callable(s.kind)).len()
    &&& t.coverage.measured_callables == syms.filter(|s: Symbol| is_callable(s.kind) && complexity_score(s) is Some).len()
    &&& t.coverage.unavailable_callables == syms.filter(|s: Symbol| is_callable(s.kind) && complexity_score(s) is None).len()
}

proof fn lemma_filter_push<A>(p: Seq<A>, x: A, pred: spec_fn(A) -> bool)
    ensures
        p.push(x).filter(pred) == if pred(x) { p.filter(pred).push(x) } else { p.filter(pred) },
{
    reveal_with_fuel(Seq::<_>::filter, 1);
    assert(p.push(x).drop_last() =~= p);
}

fn review_file(t: &mut ReviewTally, p: &ReviewPolicy, f: &FileAnalysis, Ghost(fs): Ghost<Seq<FileAnalysis>>)
    requires
        review_tally_of(*old(t), *p, fs),
        fs.len() + 1 < usize::MAX,
        files_symbols(fs).len() + f.facts.symbols.len() < usize::MAX,
    ensures
        review_tally_of(*final(t), *p, fs.push(*f)),
        final(t).coverage.selected_language_files == old(t).coverage.selected_language_files,
        final(t).coverage.unsupported_selected_files == old(t).coverage.unsupported_selected_files,
{
    let ghost base_syms = files_symbols(fs);
    let ghost fs2 = fs.push(*f);
    proof {
        assert(fs2.drop_last() =~= fs);
        fs.lemma_filter_len(|f: FileAnalysis| f.status == FileAnalysisStatus::Successful);
        fs.lemma_filter_len(|f: FileAnalysis| f.status == FileAnalysisStatus::Partial);
        fs.lemma_filter_len(|f: FileAnalysis| f.status == FileAnalysisStatus::Failed);
        lemma_filter_push(fs, *f, |f: FileAnalysis| f.status == FileAnalysisStatus::Successful);
        lemma_filter_push(fs, *f, |f: FileAnalysis| f.status == FileAnalysisStatus::Partial);
        lemma_filter_push(fs, *f, |f: FileAnalysis| f.status == FileAnalysisStatus::Failed);
    }
    t.coverage.analyzed_files = t.coverage.analyzed_files + 1;
    match f.status {
        FileAnalysisStatus::Successful => t.coverage.successful_files = t.coverage.successful_files + 1,
        FileAnalysisStatus::Partial => t.coverage.partial_files = t.coverage.partial_files + 1,
        FileAnalysisStatus::Failed => t.coverage.failed_files = t.coverage.failed_files + 1,
    }
    let ghost start = findings_view(t.findings@);
    if f.status != FileAnalysisStatus::Successful {
        t.findings.push(incomplete_finding_exec(f));
        proof {
            assert(findings_view(t.findings@) =~= start.push(incomplete_finding(*f)));
        }
    }
    let ghost head = files_findings(*p, fs) + (if f.status != FileAnalysisStatus::Successful {
        seq![incomplete_finding(*f)]
    } else {
        Seq::empty()
    });
    proof {
        assert(findings_view(t.findings@) =~= head + symbols_findings(*p, *f, f.facts.symbols@.take(0)));
        assert(rankings_view(t.rankings@) =~= files_rankings(*p, fs) + symbols_rankings(*p, *f, f.facts.symbols@.take(0)));
        assert(base_syms + f.facts.symbols@.take(0) =~= base_syms);
    }
    let syms = &f.facts.symbols;
    let mut k: usize = 0;
    while k < syms.len()
        invariant
            k <= syms.len(),
            syms == &f.facts.symbols,
            base_syms.len() + syms.len() < usize::MAX,
            findings_view(t.findings@) == head + symbols_findings(*p, *f, syms@.take(k as int)),
            rankings_view(t.rankings@) == files_rankings(*p, fs) + symbols_rankings(*p, *f, syms@.take(k as int)),
            t.coverage.eligible_callables == (base_syms + syms@.take(k as int)).filter(|s: Symbol| is_callable(s.kind)).len(),
            t.coverage.measured_callables == (base_syms + syms@.take(k as int)).filter(
                |s: Symbol| is_callable(s.kind) && complexity_score(s) is Some).len(),
            t.coverage.unavailable_callables == (base_syms + syms@.take(k as int)).filter(
                |s: Symbol| is_callable(s.kind) && complexity_score(s) is None).len(),
            t.coverage.analyzed_files == fs2.len(),
            t.coverage.successful_files == fs2.filter(|f: FileAnalysis| f.status == FileAnalysisStatus::Successful).len(),
            t.coverage.partial_files == fs2.filter(|f: FileAnalysis| f.status == FileAnalysisStatus::Partial).len(),
            t.coverage.failed_files == fs2.filter(|f: FileAnalysis| f.status == FileAnalysisStatus::Failed).len(),
            t.coverage.selected_language_files == old(t).coverage.selected_language_files,
            t.coverage.unsupported_selected_files == old(t).coverage.unsupported_selected_files,
        decreases syms.len() - k,
    {
        let s = &syms[k];
        let ghost pre = base_syms + syms@.take(k as int);
        let ghost fb = findings_view(t.findings@);
        let ghost rb = rankings_view(t.rankings@);
        proof {
            assert(syms@.take(k + 1).drop_last() =~= syms@.take(k as int));
            assert(syms@.take(k + 1).last() == *s);
            assert(base_syms + syms@.take(k + 1) =~= pre.push(*s));
            lemma_filter_push(pre, *s, |s: Symbol| is_callable(s.kind));
            lemma_filter_push(pre, *s, |s: Symbol| is_callable(s.kind) && complexity_score(s) is Some);
            lemma_filter_push(pre, *s, |s: Symbol| is_callable(s.kind) && complexity_score(s) is None);
            pre.lemma_filter_len(|s: Symbol| is_callable(s.kind));
            pre.lemma_filter_len(|s: Symbol| is_callable(s.kind) && complexity_score(s) is Some);
            pre.lemma_filter_len(|s: Symbol| is_callable(s.kind) && complexity_score(s) is None);
            assert(head + symbols_findings(*p, *f, syms@.take(k + 1)) =~= head + symbols_findings(*p, *f, syms@.take(k as int))
                + symbol_findings(*p, *f, *s));
            assert(files_rankings(*p, fs) + symbols_rankings(*p, *f, syms@.take(k + 1)) =~= files_rankings(*p, fs)
                + symbols_rankings(*p, *f, syms@.take(k as int)) + symbol_rankings(*p, *f, *s));
        }
        if s.kind == SymbolKind::Function || s.kind == SymbolKind::Method || s.kind == SymbolKind::Lambda {
            t.coverage.eligible_callables = t.coverage.eligible_callables + 1;
            match complexity_of(s) {
                None => {
                    t.coverage.unavailable_callables = t.coverage.unavailable_callables + 1;
                    t.findings.push(unmeasured_finding_exec(f, s));
                    proof {
                        assert(findings_view(t.findings@) =~= fb + symbol_findings(*p, *f, *s));
                        assert(rankings_view(t.rankings@) =~= rb + symbol_rankings(*p, *f, *s));
                    }
                },
                Some(score) => {
                    t.coverage.measured_callables = t.coverage.measured_callables + 1;
                    let entry = ReviewRankingEntry {
                        rank: 0,
                        path: copy_string(&f.path),
                        symbol_id: s.id.as_str().to_owned(),
                        qualified_name: copy_string(&s.qualified_name),
                        kind: s.kind,
                        span: s.span,
                        score,
                        risk: p.risk_bands.for_score(score),
                    };
                    t.rankings.push(entry);
                    proof {
                        assert(rankings_view(t.rankings@) =~= rb + symbol_rankings(*p, *f, *s));
                    }
                    if score >= p.complexity_review_at {
                        t.findings.push(threshold_finding_exec(p, f, s, score));
                        proof {
                            assert(findings_view(t.findings@) =~= fb + symbol_findings(*p, *f, *s));
                        }
                    } else {
                        proof {
                            assert(findings_view(t.findings@) =~= fb + symbol_findings(*p, *f, *s));
                        }
                    }
                },
            }
        } else {
            proof {
                assert(findings_view(t.findings@) =~= fb + symbol_findings(*p, *f, *s));
                assert(rankings_view(t.rankings@) =~= rb + symbol_rankings(*p, *f, *s));
            }
        }
        k = k + 1;
    }
    proof {
        assert(syms@.take(syms.len() as int) =~= syms@);
        assert(files_symbols(fs2) == base_syms + syms@);
        assert(files_findings(*p, fs2) =~= head + symbols_findings(*p, *f, syms@));
    }
}

fn analyzer_language_exec(analyzers: &[AnalyzerRun], l: &LanguageId) -> (r: bool)
    ensures
        r == analyzer_language(analyzers@, l@),
{
    let mut i: usize = 0;
    while i < analyzers.len()
        invariant
            i <= analyzers.len(),
            forall|j: int| 0 <= j < i ==> (#[trigger] analyzers@[j]).descriptor.language@ != l@,
        decreases analyzers.len() - i,
    {
        if analyzers[i].descriptor.language.same(l) {
            return true;
        }
        i = i + 1;
    }
    false
}

fn selection_counts(selected: &[String], analyzers: &[AnalyzerRun]) -> (r: (usize, usize))
    ensures
        r.0 == selected@.filter(|p: String| language_path(p)).len(),
        r.1 == selected@.filter(|p: String| unanalyzed_path(analyzers@, p)).len(),
{
    let mut known: usize = 0;
    let mut unanalyzed: usize = 0;
    let mut i: usize = 0;
    while i < selected.len()
        invariant
            i <= selected.len(),
            known == selected@.take(i as int).filter(|p: String| language_path(p)).len(),
            unanalyzed == selected@.take(i as int).filter(|p: String| unanalyzed_path(analyzers@, p)).len(),
        decreases selected.len() - i,
    {
        proof {
            assert(selected@.take(i + 1) =~= selected@.take(i as int).push(selected@[i as int]));
            lemma_filter_push(selected@.take(i as int), selected@[i as int], |p: String| language_path(p));
            lemma_filter_push(selected@.take(i as int), selected@[i as int], |p: String| unanalyzed_path(analyzers@, p));
            selected@.take(i as int).lemma_filter_len(|p: String| language_path(p));
            selected@.take(i as int).lemma_filter_len(|p: String| unanalyzed_path(analyzers@, p));
        }
        match detect_language(selected[i].as_str()) {
            Some(l) => {
                known = known + 1;
                if !analyzer_language_exec(analyzers, &l) {
                    unanalyzed = unanalyzed + 1;
                }
            },
            None => {},
        }
        i = i + 1;
    }
    proof {
        assert(selected@.take(selected.len() as int) =~= selected@);
    }
    (known, unanalyzed)
}

fn selection_findings_exec(c: &ReviewCoverage) -> (r: Vec<ReviewFinding>)
    ensures
        findings_view(r@) == selection_findings(*c),
{
    let mut r: Vec<ReviewFinding> = Vec::new();
    if c.selected_language_files == 0 {
        r.push(ReviewFinding {
            rule_id: "analysis-incomplete".to_owned(),
            risk: RiskLevel::Unknown,
            required_action: RequiredAction::HumanReview,
            path: None,
            symbol_id: None,
            qualified_name: None,
            span: None,
            observed_value: None,
            threshold: None,
            unit: None,
            acknowledged: false,
            message: "no recognized source files were selected for review".to_owned(),
        });
    } else if c.unsupported_selected_files > 0 {
        let mut message = String::new();
        push_decimal(&mut message, c.unsupported_selected_files as u64);
        push_text(&mut message, " selected source file(s) have no registered analyzer");
        r.push(ReviewFinding {
            rule_id: "analysis-incomplete".to_owned(),
            risk: RiskLevel::Unknown,
            required_action: RequiredAction::HumanReview,
            path: None,
            symbol_id: None,
            qualified_name: None,
            span: None,
            observed_value: None,
            threshold: None,
            unit: None,
            acknowledged: false,
            message,
        });
    }
    assert(findings_view(r@) =~= selection_findings(*c));
    r
}

fn push_two_digits(s: &mut String, n: u64)
    requires
        n < 100,
    ensures
        final(s)@ == old(s)@ + two_digits(n as nat),
{
    if n < 10 {
        push_text(s, "0");
    }
    push_decimal(s, n);
    proof {
        if n < 10 {
            assert(final(s)@ =~= old(s)@ + two_digits(n as nat));
        }
    }
}

fn documentation_findings_exec(p: &ReviewPolicy, d: &DocumentationCoverage) -> (r: Vec<ReviewFinding>)
    requires
        d.counts.documented + d.counts.missing <= usize::MAX,
        p.documentation_review_below matches Some(t) ==> t * (d.counts.documented + d.counts.missing) <= usize::MAX,
        d.counts.documented * 10000 <= usize::MAX,
    ensures
        findings_view(r@) == documentation_findings(*p, *d),
{
    let mut r: Vec<ReviewFinding> = Vec::new();
    let t = match p.documentation_review_below {
        None => {
            return r;
        },
        Some(t) => t,
    };
    let bp = d.counts.coverage_basis_points();
    match d.threshold_is_met(t) {
        Some(true) => {},
        Some(false) => {
            let b: u16 = match bp {
                Some(b) => b,
                None => 0,
            };
            let measured = d.counts.measured();
            let mut message = String::new();
            push_text(&mut message, "Python documentation coverage is ");
            push_decimal(&mut message, (b / 100) as u64);
            push_text(&mut message, ".");
            push_two_digits(&mut message, (b % 100) as u64);
            push_text(&mut message, "% (");
            push_decimal(&mut message, d.counts.documented as u64);
            push_text(&mut message, "/");
            push_decimal(&mut message, measured as u64);
            push_text(&mut message, ") and is below the ");
            push_decimal(&mut message, t as u64);
            push_text(&mut message, "% review threshold");
            r.push(ReviewFinding {
                rule_id: "python-documentation-coverage-below-threshold".to_owned(),
                risk: RiskLevel::Unknown,
                required_action: RequiredAction::HumanReview,
                path: None,
                symbol_id: None,
                qualified_name: None,
                span: None,
                observed_value: Some(b as u64),
                threshold: Some(t as u64 * 100),
                unit: Some("basis-points"),
                acknowledged: false,
                message,
            });
        },
        None => {
            let mut message = String::new();
            push_text(&mut message, "Python documentation coverage cannot be evaluated against the ");
            push_decimal(&mut message, t as u64);
            push_text(&mut message, "% review threshold because analysis is ");
            push_text(&mut message, d.status.as_str());
            r.push(ReviewFinding {
                rule_id: "python-documentation-coverage-unavailable".to_owned(),
                risk: RiskLevel::Unknown,
                required_action: RequiredAction::HumanReview,
                path: None,
                symbol_id: None,
                qualified_name: None,
                span: None,
                observed_value: match bp {
                    Some(b) => Some(b as u64),
                    None => None,
                },
                threshold: Some(t as u64 * 100),
                unit: Some("basis-points"),
                acknowledged: false,
                message,
            });
        },
    }
    assert(findings_view(r@) =~= documentation_findings(*p, *d));
    r
}

fn copy_finding(f: &ReviewFinding) -> (r: ReviewFinding)
    ensures
        r@ == f@,
{
    ReviewFinding {
        rule_id: copy_string(&f.rule_id),
        risk: f.risk,
        required_action: f.required_action,
        path: opt_copy(&f.path),
        symbol_id: opt_copy(&f.symbol_id),
        qualified_name: opt_copy(&f.qualified_name),
        span: f.span,
        observed_value: f.observed_value,
        threshold: f.threshold,
        unit: f.unit,
        acknowledged: f.acknowledged,
        message: copy_string(&f.message),
    }
}

fn opt_copy(o: &Option<String>) -> (r: Option<String>)
    ensures
        opt_text(r) == opt_text(*o),
{
    crate::analyzer::copy_opt_string(o)
}

fn finding_key_exec(f: &ReviewFinding) -> (k: Vec<KeyAtom>)
    ensures
        key_view(k@) == finding_key(f@),
{
    let mut k: Vec<KeyAtom> = Vec::new();
    k.push(KeyAtom::Num(2 - f.required_action.rank()));
    k.push(KeyAtom::Num(4 - f.risk.rank()));
    let ghost head = key_view(k@);
    match &f.path {
        None => {
            k.push(KeyAtom::Num(0));
        },
        Some(p) => {
            k.push(KeyAtom::Num(1));
            let pk = path_order_key_exec(p.as_str());
            let mut i: usize = 0;
            let ghost mid = key_view(k@);
            while i < pk.len()
                invariant
                    i <= pk.len(),
                    key_view(k@) == mid + key_view(pk@).take(i as int),
                decreases pk.len() - i,
            {
                let a = copy_atom(&pk[i]);
                let ghost before = key_view(k@);
                k.push(a);
                proof {
                    assert(key_view(k@) =~= before.push(pk@[i as int]@));
                    assert(key_view(pk@).take(i + 1) =~= key_view(pk@).take(i as int).push(pk@[i as int]@));
                }
                i = i + 1;
            }
            proof {
                assert(key_view(pk@).take(pk.len() as int) =~= key_view(pk@));
            }
        },
    }
    proof {
        assert(key_view(k@) =~= head + optional_path_key(opt_text(f.path)));
    }
    let ghost with_path = key_view(k@);
    match &f.symbol_id {
        None => {
            k.push(KeyAtom::Num(0));
        },
        Some(id) => {
            k.push(KeyAtom::Num(1));
            k.push(KeyAtom::Text(crate::order::text_chars(id.as_str())));
        },
    }
    proof {
        assert(key_view(k@) =~= with_path + optional_text_key(opt_text(f.symbol_id)));
    }
    let ghost with_symbol = key_view(k@);
    let rule = crate::order::text_chars(f.rule_id.as_str());
    k.push(KeyAtom::Text(rule));
    proof {
        assert(key_view(k@) =~= with_symbol + seq![AtomView::Text(f.rule_id@)]);
        assert(head =~= seq![AtomView::Num(2 - action_rank(f.required_action)), AtomView::Num(4 - risk_rank(f.risk))]);
        assert(key_view(k@) =~= finding_key(f@));
    }
    k
}

fn copy_atom(a: &KeyAtom) -> (r: KeyAtom)
    ensures
        r@ == a@,
{
    match a {
        KeyAtom::Num(n) => KeyAtom::Num(*n),
        KeyAtom::Text(t) => KeyAtom::Text(t.clone()),
    }
}

fn sort_findings(v: &Vec<ReviewFinding>) -> (r: Vec<ReviewFinding>)
    ensures
        sorted_findings(findings_view(r@), findings_view(v@)),
{
    let ghost xs = findings_view(v@);
    let mut keys: Vec<Vec<KeyAtom>> = Vec::new();
    let mut i: usize = 0;
    while i < v.len()
        invariant
            i <= v.len(),
            xs == findings_view(v@),
            keys.len() == i,
            forall|j: int| 0 <= j < i ==> #[trigger] keys_view(keys@)[j] == finding_key(xs[j]),
        decreases v.len() - i,
    {
        let ghost before = keys@;
        let k = finding_key_exec(&v[i]);
        keys.push(k);
        proof {
            assert(keys_view(keys@) =~= keys_view(before).push(key_view(k@)));
        }
        i = i + 1;
    }
    proof {
        assert(keys_view(keys@) =~= xs.map_values(|x: FindingView| finding_key(x)));
    }
    let order = sorted_order(&keys);
    let mut r: Vec<ReviewFinding> = Vec::new();
    let mut j: usize = 0;
    while j < order.len()
        invariant
            j <= order.len(),
            xs == findings_view(v@),
            is_permutation(order@, keys.len() as nat),
            keys.len() == v.len(),
            r.len() == j,
            forall|k: int| 0 <= k < j ==> #[trigger] findings_view(r@)[k] == xs[order[k] as int],
        decreases order.len() - j,
    {
        let ghost before = r@;
        assert(order[j as int] < v.len());
        let e = copy_finding(&v[order[j]]);
        r.push(e);
        proof {
            assert(findings_view(r@) =~= findings_view(before).push(e@));
        }
        j = j + 1;
    }
    proof {
        assert(is_stable_order(xs.map_values(|x: FindingView| finding_key(x)), order@));
    }
    r
}

fn ranking_key_exec(e: &ReviewRankingEntry) -> (k: Vec<KeyAtom>)
    ensures
        key_view(k@) == ranking_key(e@),
{
    let mut k: Vec<KeyAtom> = Vec::new();
    k.push(KeyAtom::Num(u64::MAX - e.score));
    let pk = path_order_key_exec(e.path.as_str());
    let ghost mid = key_view(k@);
    let mut i: usize = 0;
    while i < pk.len()
        invariant
            i <= pk.len(),
            key_view(k@) == mid + key_view(pk@).take(i as int),
        decreases pk.len() - i,
    {
        let a = copy_atom(&pk[i]);
        let ghost before = key_view(k@);
        k.push(a);
        proof {
            assert(key_view(k@) =~= before.push(pk@[i as int]@));
            assert(key_view(pk@).take(i + 1) =~= key_view(pk@).take(i as int).push(pk@[i as int]@));
        }
        i = i + 1;
    }
    proof {
        assert(key_view(pk@).take(pk.len() as int) =~= key_view(pk@));
    }
    let ghost with_path = key_view(k@);
    k.push(KeyAtom::Num(e.span.start_byte as u64));
    let id = crate::order::text_chars(e.symbol_id.as_str());
    k.push(KeyAtom::Text(id));
    proof {
        assert(key_view(k@) =~= with_path + seq![AtomView::Num(e.span.start_byte as int), AtomView::Text(e.symbol_id@)]);
        assert(mid =~= seq![AtomView::Num(u64::MAX - e.score)]);
        assert(key_view(k@) =~= ranking_key(e@));
    }
    k
}

fn sort_rankings(v: &Vec<ReviewRankingEntry>) -> (r: Vec<ReviewRankingEntry>)
    ensures
        sorted_rankings(r@, rankings_view(v@)),
{
    let ghost xs = rankings_view(v@);
    let mut keys: Vec<Vec<KeyAtom>> = Vec::new();
    let mut i: usize = 0;
    while i < v.len()
        invariant
            i <= v.len(),
            xs == rankings_view(v@),
            keys.len() == i,
            forall|j: int| 0 <= j < i ==> #[trigger] keys_view(keys@)[j] == ranking_key(xs[j]),
        decreases v.len() - i,
    {
        let ghost before = keys@;
        let k = ranking_key_exec(&v[i]);
        keys.push(k);
        proof {
            assert(keys_view(keys@) =~= keys_view(before).push(key_view(k@)));
        }
        i = i + 1;
    }
    proof {
        assert(keys_view(keys@) =~= xs.map_values(|x: RankingView| ranking_key(x)));
    }
    let order = sorted_order(&keys);
    let mut r: Vec<ReviewRankingEntry> = Vec::new();
    let mut j: usize = 0;
    while j < order.len()
        invariant
            j <= order.len(),
            xs == rankings_view(v@),
            is_permutation(order@, keys.len() as nat),
            keys.len() == v.len(),
            r.len() == j,
            forall|k: int| 0 <= k < j ==> (#[trigger] r@[k])@ == xs[order[k] as int] && r@[k].rank == k + 1,
        decreases order.len() - j,
    {
        assert(order[j as int] < v.len());
        let src = &v[order[j]];
        let e = ReviewRankingEntry {
            rank: j + 1,
            path: copy_string(&src.path),
            symbol_id: copy_string(&src.symbol_id),
            qualified_name: copy_string(&src.qualified_name),
            kind: src.kind,
            span: src.span,
            score: src.score,
            risk: src.risk,
        };
        r.push(e);
        j = j + 1;
    }
    proof {
        assert(is_stable_order(xs.map_values(|x: RankingView| ranking_key(x)), order@));
    }
    r
}

fn status_of_findings(v: &Vec<ReviewFinding>) -> (r: ReviewStatus)
    ensures
        r == findings_status(findings_view(v@)),
{
    let ghost xs = findings_view(v@);
    let mut block = false;
    let mut human = false;
    let mut i: usize = 0;
    while i < v.len()
        invariant
            i <= v.len(),
            xs == findings_view(v@),
            block == exists|j: int| 0 <= j < i && (#[trigger] xs[j]).required_action == RequiredAction::Block,
            human == exists|j: int| 0 <= j < i && (#[trigger] xs[j]).required_action == RequiredAction::HumanReview,
        decreases v.len() - i,
    {
        assert(xs[i as int] == v@[i as int]@);
        if v[i].required_action == RequiredAction::Block {
            block = true;
        }
        if v[i].required_action == RequiredAction::HumanReview {
            human = true;
        }
        i = i + 1;
    }
    if block {
        ReviewStatus::Blocked
    } else if human {
        ReviewStatus::HumanReviewRequired
    } else {
        ReviewStatus::Pass
    }
}

/// The findings of a review before they are sorted: those of the analyzed
/// files in order, then the one about the selection, then the one about
/// documentation coverage.
pub open spec fn review_findings(p: ReviewPolicy, runs: Seq<AnalyzerRun>, c: ReviewCoverage, d: DocumentationCoverage) -> Seq<FindingView> {
    files_findings(p, run_files(runs)) + selection_findings(c) + documentation_findings(p, d)
}

/// Judges an analysis against a review policy: counts what could be
/// judged, ranks the measured callables by complexity, raises findings for
/// incomplete analysis, unmeasured callables, complexity at or above the
/// review threshold, an unsupported selection and documentation coverage
/// below its threshold, and derives the review status from the findings.
pub fn evaluate_review(
    selected_files: &[String],
    analyzers: &[AnalyzerRun],
    documentation: &DocumentationCoverage,
    policy: ReviewPolicy,
) -> (r: ReviewEvaluation)
    requires
        run_file_total(analyzers@) < usize::MAX - 1,
        run_symbol_total(analyzers@) < usize::MAX,
        documentation.counts.documented + documentation.counts.missing <= usize::MAX,
        policy.documentation_review_below matches Some(t) ==> t * (documentation.counts.documented
            + documentation.counts.missing) <= usize::MAX,
        documentation.counts.documented * 10000 <= usize::MAX,
    ensures
        r.policy == policy,
        review_coverage(r.coverage, selected_files@, analyzers@),
        sorted_rankings(r.rankings@, files_rankings(policy, run_files(analyzers@))),
        sorted_findings(findings_view(r.findings@), review_findings(policy, analyzers@, r.coverage, *documentation)),
        r.status == findings_status(review_findings(policy, analyzers@, r.coverage, *documentation)),
{
    let ghost runs = analyzers@;
    let (known, unanalyzed) = selection_counts(selected_files, analyzers);
    let mut t = ReviewTally {
        coverage: ReviewCoverage {
            selected_language_files: known,
            unsupported_selected_files: unanalyzed,
            analyzed_files: 0,
            successful_files: 0,
            partial_files: 0,
            failed_files: 0,
            eligible_callables: 0,
            measured_callables: 0,
            unavailable_callables: 0,
        },
        findings: Vec::new(),
        rankings: Vec::new(),
    };
    proof {
        assert(runs.take(0) =~= Seq::<AnalyzerRun>::empty());
        assert(findings_view(t.findings@) =~= Seq::<FindingView>::empty());
        assert(rankings_view(t.rankings@) =~= Seq::<RankingView>::empty());
    }
    let mut ri: usize = 0;
    while ri < analyzers.len()
        invariant
            ri <= analyzers.len(),
            runs == analyzers@,
            run_file_total(runs) < usize::MAX - 1,
            run_symbol_total(runs) < usize::MAX,
            review_tally_of(t, policy, run_files(runs.take(ri as int))),
            run_files(runs.take(ri as int)).len() == run_file_total(runs.take(ri as int)),
            files_symbols(run_files(runs.take(ri as int))).len() == run_symbol_total(runs.take(ri as int)),
            t.coverage.selected_language_files == known,
            t.coverage.unsupported_selected_files == unanalyzed,
        decreases analyzers.len() - ri,
    {
        let run = &analyzers[ri];
        let ghost before = run_files(runs.take(ri as int));
        proof {
            lemma_documentation_files_step(runs, ri as int);
            lemma_run_totals_prefix(runs, ri + 1);
            assert(runs.take(ri + 1).drop_last() =~= runs.take(ri as int));
            assert(before + run.files@.take(0) =~= before);
            assert(run.files@.take(0) =~= Seq::<FileAnalysis>::empty());
        }
        let mut fi: usize = 0;
        while fi < run.files.len()
            invariant
                fi <= run.files.len(),
                ri < analyzers.len(),
                runs == analyzers@,
                run == &analyzers[ri as int],
                before == run_files(runs.take(ri as int)),
                run_file_total(runs.take(ri as int)) + run.files.len() < usize::MAX - 1,
                run_symbol_total(runs.take(ri as int)) + file_symbol_total(run.files@) < usize::MAX,
                review_tally_of(t, policy, before + run.files@.take(fi as int)),
                before.len() == run_file_total(runs.take(ri as int)),
                files_symbols(before + run.files@.take(fi as int)).len() == run_symbol_total(runs.take(ri as int))
                    + file_symbol_total(run.files@.take(fi as int)),
                t.coverage.selected_language_files == known,
                t.coverage.unsupported_selected_files == unanalyzed,
            decreases run.files.len() - fi,
        {
            let f = &run.files[fi];
            let ghost fs = before + run.files@.take(fi as int);
            proof {
                assert(before + run.files@.take(fi + 1) =~= fs.push(*f));
                assert(run.files@.take(fi + 1).drop_last() =~= run.files@.take(fi as int));
                lemma_file_symbol_total_prefix(run.files@, fi + 1);
                assert(fs.push(*f).drop_last() =~= fs);
            }
            review_file(&mut t, &policy, f, Ghost(fs));
            fi = fi + 1;
        }
        proof {
            assert(run.files@.take(run.files.len() as int) =~= run.files@);
        }
        ri = ri + 1;
    }
    proof {
        assert(runs.take(analyzers.len() as int) =~= runs);
    }
    let coverage = t.coverage;
    let selection = selection_findings_exec(&coverage);
    let doc = documentation_findings_exec(&policy, documentation);
    let ghost files_part = findings_view(t.findings@);
    let mut raw = t.findings;
    let mut i: usize = 0;
    while i < selection.len()
        invariant
            i <= selection.len(),
            findings_view(raw@) == files_part + findings_view(selection@).take(i as int),
        decreases selection.len() - i,
    {
        let ghost b = findings_view(raw@);
        let x = copy_finding(&selection[i]);
        raw.push(x);
        proof {
            assert(findings_view(raw@) =~= b.push(x@));
            assert(findings_view(selection@).take(i + 1) =~= findings_view(selection@).take(i as int).push(selection@[i as int]@));
        }
        i = i + 1;
    }
    proof {
        assert(findings_view(selection@).take(selection.len() as int) =~= findings_view(selection@));
    }
    let ghost with_selection = findings_view(raw@);
    let mut i: usize = 0;
    while i < doc.len()
        invariant
            i <= doc.len(),
            findings_view(raw@) == with_selection + findings_view(doc@).take(i as int),
        decreases doc.len() - i,
    {
        let ghost b = findings_view(raw@);
        let x = copy_finding(&doc[i]);
        raw.push(x);
        proof {
            assert(findings_view(raw@) =~= b.push(x@));
            assert(findings_view(doc@).take(i + 1) =~= findings_view(doc@).take(i as int).push(doc@[i as int]@));
        }
        i = i + 1;
    }
    proof {
        assert(findings_view(doc@).take(doc.len() as int) =~= findings_view(doc@));
        assert(findings_view(raw@) =~= review_findings(policy, runs, coverage, *documentation));
    }
    let status = status_of_findings(&raw);
    let findings = sort_findings(&raw);
    let rankings = sort_rankings(&t.rankings);
    ReviewEvaluation { status, policy, coverage, rankings, findings }
}

/// An exception acknowledges exactly the scores it was approved for: an
/// unbounded one every score, a bounded one the scores up to its approved
/// maximum and no higher, and one with neither no score.
pub proof fn lemma_exception_covers_up_to_its_maximum(e: ReviewException, score: u64)
    ensures
        e.unbounded ==> acknowledges(e, score),
        !e.unbounded && e.approved_max == Some(score) ==> acknowledges(e, score),
        !e.unbounded && (e.approved_max matches Some(m) && score > m) ==> !acknowledges(e, score),
        !e.unbounded && (e.approved_max matches Some(m) && score <= m) ==> acknowledges(e, score),
        !e.unbounded && e.approved_max is None ==> !acknowledges(e, score),
{
}

/// A score above the approved maximum of a symbol's bounded exception is
/// not acknowledged: its threshold finding asks for a human review or a
/// block and says that the score exceeds the exception. A score within
/// the maximum is acknowledged and asks for nothing.
pub proof fn lemma_bounded_exception_finding(p: ReviewPolicy, f: FileAnalysis, s: Symbol, score: u64, i: int, m: u64)
    requires
        exception_from(p.exceptions@, s.id@, 0) == Some(i),
        !p.exceptions@[i].unbounded,
        p.exceptions@[i].approved_max == Some(m),
    ensures
        score > m ==> {
            let fv = threshold_finding(p, f, s, score);
            &&& fv.required_action == RequiredAction::HumanReview || fv.required_action == RequiredAction::Block
            &&& !fv.acknowledged
            &&& fv.message == "cyclomatic complexity "@ + decimal(score as nat)
                + " exceeds the approved exception for "@ + p.exceptions@[i].reason@
        },
        score <= m ==> {
            let fv = threshold_finding(p, f, s, score);
            &&& fv.required_action == RequiredAction::NoAction
            &&& fv.acknowledged
            &&& fv.message == "cyclomatic complexity "@ + decimal(score as nat) + " is acknowledged by policy: "@
                + p.exceptions@[i].reason@
        },
{
}

} // verus!

verus! {

/// The text of a review policy error.
pub open spec fn policy_error_text(e: ReviewPolicyError) -> Seq<char> {
    match e {
        ReviewPolicyError::Io { path, message } => "cannot read policy "@ + path@ + ": "@ + message@,
        ReviewPolicyError::Invalid { path, message } => match path {
            Some(p) => "invalid policy "@ + p@ + ": "@ + message@,
            None => "invalid review policy: "@ + message@,
        },
    }
}

impl ReviewPolicyError {
    /// The error text.
    pub fn message(&self) -> (r: String)
        ensures
            r@ == policy_error_text(*self),
    {
        let mut out = String::new();
        match self {
            ReviewPolicyError::Io { path, message } => {
                push_text(&mut out, "cannot read policy ");
                push_text(&mut out, path.as_str());
                push_text(&mut out, ": ");
                push_text(&mut out, message.as_str());
            },
            ReviewPolicyError::Invalid { path, message } => {
                match path {
                    Some(p) => {
                        push_text(&mut out, "invalid policy ");
                        push_text(&mut out, p.as_str());
                        push_text(&mut out, ": ");
                    },
                    None => {
                        push_text(&mut out, "invalid review policy: ");
                    },
                }
                push_text(&mut out, message.as_str());
            },
        }
        assert(out@ =~= policy_error_text(*self));
        out
    }
}

} // verus!
