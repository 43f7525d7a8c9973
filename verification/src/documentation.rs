//! Documentation coverage of Python callables and classes: which symbols are
//! eligible, how overload declarations collapse into one logical symbol, and
//! how the counts compare with a review threshold.

use vstd::prelude::*;

use crate::analysis::AnalyzerRun;
use crate::report::LanguageId;
use crate::analyzer::{
    AnalyzerCapability, DocumentationStatus, FileAnalysis, FileAnalysisStatus, SourceSpan, Symbol,
    SymbolKind,
};
use crate::order::{is_permutation, is_stable_order, key_view, keys_view, sorted_order, AtomView, KeyAtom};
use crate::paths::{
    components, file_name, is_named_piece, lemma_file_name_of_last_piece, lemma_split_concat, lemma_split_plain,
    path_components, path_file_name, split_pieces,
};
use crate::text::{string_from_chars, text_ends_with, text_eq, text_starts_with};

verus! {

pub const PYTHON_DOCUMENTATION_COVERAGE_DEFINITION_VERSION: &'static str = "python-documentation-coverage-v1";

/// Whether coverage was measured, and how completely.
#[derive(Debug, Clone, Copy, PartialEq, Eq, Structural, PartialOrd, Ord)]
pub enum DocumentationCoverageStatus {
    Disabled,
    NotApplicable,
    Complete,
    Partial,
}

impl DocumentationCoverageStatus {
    /// The stable name.
    pub fn as_str(self) -> (r: &'static str)
        ensures
            r@ == match self {
                DocumentationCoverageStatus::Disabled => "disabled"@,
                DocumentationCoverageStatus::NotApplicable => "not-applicable"@,
                DocumentationCoverageStatus::Complete => "complete"@,
                DocumentationCoverageStatus::Partial => "partial"@,
            },
    {
        match self {
            DocumentationCoverageStatus::Disabled => "disabled",
            DocumentationCoverageStatus::NotApplicable => "not-applicable",
            DocumentationCoverageStatus::Complete => "complete",
            DocumentationCoverageStatus::Partial => "partial",
        }
    }
}

/// Eligible symbols by documentation outcome.
#[derive(Debug, Clone, Copy, PartialEq, Eq, Structural)]
pub struct DocumentationCounts {
    pub eligible: usize,
    pub documented: usize,
    pub missing: usize,
    pub unavailable: usize,
}

/// The counts of a sequence of outcomes.
pub open spec fn status_count(s: Seq<DocumentationStatus>, st: DocumentationStatus) -> nat
    decreases s.len(),
{
    if s.len() == 0 {
        0
    } else {
        status_count(s.drop_last(), st) + (if s.last() == st {
            1nat
        } else {
            0nat
        })
    }
}

/// Whether `c` holds the counts of the outcomes `s`.
pub open spec fn counts_match(c: DocumentationCounts, s: Seq<DocumentationStatus>) -> bool {
    &&& c.eligible == s.len()
    &&& c.documented == status_count(s, DocumentationStatus::Documented)
    &&& c.missing == status_count(s, DocumentationStatus::Missing)
    &&& c.unavailable == status_count(s, DocumentationStatus::Unavailable)
}

proof fn lemma_status_count_push(s: Seq<DocumentationStatus>, x: DocumentationStatus, st: DocumentationStatus)
    ensures
        status_count(s.push(x), st) == status_count(s, st) + (if x == st { 1nat } else { 0nat }),
{
    assert(s.push(x).drop_last() =~= s);
}

proof fn lemma_status_count_concat(a: Seq<DocumentationStatus>, b: Seq<DocumentationStatus>, st: DocumentationStatus)
    ensures
        status_count(a + b, st) == status_count(a, st) + status_count(b, st),
    decreases b.len(),
{
    if b.len() == 0 {
        assert(a + b =~= a);
    } else {
        lemma_status_count_concat(a, b.drop_last(), st);
        assert((a + b).drop_last() =~= a + b.drop_last());
    }
}

proof fn lemma_status_count_bound(s: Seq<DocumentationStatus>, st: DocumentationStatus)
    ensures
        status_count(s, st) <= s.len(),
    decreases s.len(),
{
    if s.len() > 0 {
        lemma_status_count_bound(s.drop_last(), st);
    }
}

/// Every eligible symbol is documented, missing or unavailable: the three
/// counts add up to the number of eligible symbols.
pub proof fn lemma_counts_partition(s: Seq<DocumentationStatus>)
    ensures
        status_count(s, DocumentationStatus::Documented) + status_count(s, DocumentationStatus::Missing)
            + status_count(s, DocumentationStatus::Unavailable) == s.len(),
    decreases s.len(),
{
    if s.len() > 0 {
        lemma_counts_partition(s.drop_last());
    }
}

impl DocumentationCounts {
    pub open spec fn zero_value() -> DocumentationCounts {
        DocumentationCounts { eligible: 0, documented: 0, missing: 0, unavailable: 0 }
    }

    /// All counts zero.
    pub fn zero() -> (r: DocumentationCounts)
        ensures
            counts_match(r, Seq::empty()),
            r == DocumentationCounts::zero_value(),
    {
        DocumentationCounts { eligible: 0, documented: 0, missing: 0, unavailable: 0 }
    }

    /// Symbols whose documentation was observed: documented or missing.
    pub fn measured(self) -> (r: usize)
        requires
            self.documented + self.missing <= usize::MAX,
        ensures
            r == self.documented + self.missing,
    {
        self.documented + self.missing
    }

    /// Documented symbols per ten thousand measured ones, rounded down;
    /// `None` when nothing was measured.
    pub fn coverage_basis_points(self) -> (r: Option<u16>)
        requires
            self.documented + self.missing <= usize::MAX,
            self.documented * 10000 <= usize::MAX,
        ensures
            self.documented + self.missing == 0 ==> r is None,
            self.documented + self.missing > 0 ==> (r matches Some(b) && b as int == (self.documented
                * 10000) / (self.documented + self.missing)),
            r matches Some(b) ==> b <= 10000,
    {
        let measured = self.measured();
        if measured > 0 {
            let scaled = self.documented * 10000;
            let b = scaled / measured;
            proof {
                assert(b <= 10000) by (nonlinear_arith)
                    requires
                        scaled == self.documented * 10000,
                        b == scaled / measured,
                        self.documented <= measured,
                        measured > 0,
                ;
            }
            Some(b as u16)
        } else {
            None
        }
    }

    /// Counts one more eligible symbol with the given outcome.
    pub fn record(&mut self, status: DocumentationStatus)
        requires
            old(self).eligible < usize::MAX,
            old(self).documented < usize::MAX,
            old(self).missing < usize::MAX,
            old(self).unavailable < usize::MAX,
        ensures
            final(self).eligible == old(self).eligible + 1,
            final(self).documented == old(self).documented + (if status
                == DocumentationStatus::Documented {
                1int
            } else {
                0
            }),
            final(self).missing == old(self).missing + (if status == DocumentationStatus::Missing {
                1int
            } else {
                0
            }),
            final(self).unavailable == old(self).unavailable + (if status
                == DocumentationStatus::Unavailable {
                1int
            } else {
                0
            }),
            forall|s: Seq<DocumentationStatus>|
                counts_match(*old(self), s) ==> #[trigger] counts_match(*final(self), s.push(status)),
    {
        let ghost before = *self;
        self.eligible = self.eligible + 1;
        match status {
            DocumentationStatus::Documented => self.documented = self.documented + 1,
            DocumentationStatus::Missing => self.missing = self.missing + 1,
            DocumentationStatus::Unavailable => self.unavailable = self.unavailable + 1,
        }
        proof {
            assert forall|s: Seq<DocumentationStatus>| counts_match(before, s) implies #[trigger] counts_match(*self, s.push(status)) by {
                lemma_status_count_push(s, status, DocumentationStatus::Documented);
                lemma_status_count_push(s, status, DocumentationStatus::Missing);
                lemma_status_count_push(s, status, DocumentationStatus::Unavailable);
            }
        }
    }

    /// Adds another set of counts to these.
    pub fn add(&mut self, other: DocumentationCounts)
        requires
            old(self).eligible + other.eligible <= usize::MAX,
            old(self).documented + other.documented <= usize::MAX,
            old(self).missing + other.missing <= usize::MAX,
            old(self).unavailable + other.unavailable <= usize::MAX,
        ensures
            final(self).eligible == old(self).eligible + other.eligible,
            final(self).documented == old(self).documented + other.documented,
            final(self).missing == old(self).missing + other.missing,
            final(self).unavailable == old(self).unavailable + other.unavailable,
    {
        self.eligible = self.eligible + other.eligible;
        self.documented = self.documented + other.documented;
        self.missing = self.missing + other.missing;
        self.unavailable = self.unavailable + other.unavailable;
    }
}

/// Counts add up: the counts of two runs of symbols, added field by field,
/// are the counts of the two runs together.
pub proof fn lemma_counts_concat(a: DocumentationCounts, sa: Seq<DocumentationStatus>, b: DocumentationCounts, sb: Seq<DocumentationStatus>, c: DocumentationCounts)
    requires
        counts_match(a, sa),
        counts_match(b, sb),
        c.eligible == a.eligible + b.eligible,
        c.documented == a.documented + b.documented,
        c.missing == a.missing + b.missing,
        c.unavailable == a.unavailable + b.unavailable,
    ensures
        counts_match(c, sa + sb),
{
    lemma_status_count_concat(sa, sb, DocumentationStatus::Documented);
    lemma_status_count_concat(sa, sb, DocumentationStatus::Missing);
    lemma_status_count_concat(sa, sb, DocumentationStatus::Unavailable);
}

/// One eligible symbol whose documentation is missing or unavailable.
#[derive(Debug)]
pub struct DocumentationSymbol {
    pub path: String,
    pub symbol_id: String,
    pub qualified_name: String,
    pub kind: SymbolKind,
    pub span: SourceSpan,
    pub docstring_span: Option<SourceSpan>,
    pub reason: Option<String>,
}

/// The counts of one file.
#[derive(Debug)]
pub struct DocumentationFileCoverage {
    pub path: String,
    pub status: FileAnalysisStatus,
    pub counts: DocumentationCounts,
}

/// The documentation coverage of an analysis. `by_kind` lists the symbol
/// kinds that had eligible symbols, in kind order.
#[derive(Debug)]
pub struct DocumentationCoverage {
    pub definition_version: &'static str,
    pub status: DocumentationCoverageStatus,
    pub applicable_files: usize,
    pub skipped_test_files: usize,
    pub unsupported_selected_files: usize,
    pub counts: DocumentationCounts,
    pub by_kind: Vec<(SymbolKind, DocumentationCounts)>,
    pub files: Vec<DocumentationFileCoverage>,
    pub missing_symbols: Vec<DocumentationSymbol>,
    pub unavailable_symbols: Vec<DocumentationSymbol>,
}

/// Whether the coverage meets a percentage threshold: `None` unless the
/// analysis was complete, something was measured and nothing was
/// unavailable.
pub open spec fn threshold_result(status: DocumentationCoverageStatus, c: DocumentationCounts, threshold: int) -> Option<bool> {
    if status != DocumentationCoverageStatus::Complete || c.documented + c.missing == 0 || c.unavailable > 0 {
        None
    } else {
        Some(c.documented * 100 >= threshold * (c.documented + c.missing))
    }
}

impl DocumentationCoverage {
    /// The coverage of an analysis that did not measure documentation.
    pub fn disabled(selected_files: &[String]) -> (r: DocumentationCoverage)
        ensures
            r.definition_version@ == PYTHON_DOCUMENTATION_COVERAGE_DEFINITION_VERSION@,
            r.status == DocumentationCoverageStatus::Disabled,
            r.applicable_files == 0,
            r.skipped_test_files == 0,
            r.unsupported_selected_files == 0,
            counts_match(r.counts, Seq::empty()),
            r.by_kind.len() == 0,
            r.files.len() == 0,
            r.missing_symbols.len() == 0,
            r.unavailable_symbols.len() == 0,
    {
        DocumentationCoverage {
            definition_version: PYTHON_DOCUMENTATION_COVERAGE_DEFINITION_VERSION,
            status: DocumentationCoverageStatus::Disabled,
            applicable_files: 0,
            skipped_test_files: 0,
            unsupported_selected_files: 0,
            counts: DocumentationCounts::zero(),
            by_kind: Vec::new(),
            files: Vec::new(),
            missing_symbols: Vec::new(),
            unavailable_symbols: Vec::new(),
        }
    }

    /// Whether documented symbols make up at least `threshold_percent`
    /// percent of the measured ones; `None` where the coverage cannot be
    /// judged.
    pub fn threshold_is_met(&self, threshold_percent: u8) -> (r: Option<bool>)
        requires
            self.counts.documented + self.counts.missing <= usize::MAX,
            self.counts.documented * 100 <= usize::MAX,
            threshold_percent * (self.counts.documented + self.counts.missing) <= usize::MAX,
        ensures
            r == threshold_result(self.status, self.counts, threshold_percent as int),
    {
        if self.status != DocumentationCoverageStatus::Complete || self.counts.measured() == 0
            || self.counts.unavailable > 0 {
            return None;
        }
        let measured = self.counts.measured();
        let t = threshold_percent as usize;
        Some(self.counts.documented * 100 >= t * measured)
    }
}

/// Whether a path follows the Python test-file conventions: a `test` or
/// `tests` component, or a file named `conftest.py`, `test_*` or `*_test.py`.
pub open spec fn is_test_path(p: Seq<char>) -> bool {
    ||| exists|i: int| 0 <= i < components(p).len() && (#[trigger] components(p)[i] == "test"@ || components(p)[i] == "tests"@)
    ||| match file_name(p) {
        Some(n) => n == "conftest.py"@ || ("test_"@.len() <= n.len() && n.subrange(0, 5) == "test_"@)
            || ("_test.py"@.len() <= n.len() && n.subrange(n.len() - 8, n.len() as int) == "_test.py"@),
        None => false,
    }
}

/// Whether a path follows the Python test-file conventions.
pub fn is_conventional_python_test(path: &str) -> (r: bool)
    ensures
        r == is_test_path(path@),
{
    proof {
        reveal_strlit("test_");
        reveal_strlit("_test.py");
    }
    let comps = path_components(path);
    let ghost cv = comps@.map_values(|v: Vec<char>| v@);
    let mut i: usize = 0;
    while i < comps.len()
        invariant
            i <= comps.len(),
            cv == comps@.map_values(|v: Vec<char>| v@),
            cv == components(path@),
            forall|j: int| 0 <= j < i ==> cv[j] != "test"@ && cv[j] != "tests"@,
        decreases comps.len() - i,
    {
        let s = string_from_chars(&comps[i]);
        assert(cv[i as int] == comps[i as int]@);
        if text_eq(s.as_str(), "test") || text_eq(s.as_str(), "tests") {
            return true;
        }
        i = i + 1;
    }
    match path_file_name(path) {
        None => false,
        Some(name) => {
            let s = string_from_chars(&name);
            text_eq(s.as_str(), "conftest.py") || text_starts_with(s.as_str(), "test_")
                || text_ends_with(s.as_str(), "_test.py")
        },
    }
}


/// The Unicode `White_Space` property of a character: the 25 code points
/// U+0009 to U+000D, U+0020, U+0085, U+00A0, U+1680, U+2000 to U+200A,
/// U+2028, U+2029, U+202F, U+205F and U+3000.
pub open spec fn white_space(c: char) -> bool {
    let u = c as u32;
    ||| 0x9 <= u <= 0xD
    ||| u == 0x20
    ||| u == 0x85
    ||| u == 0xA0
    ||| u == 0x1680
    ||| 0x2000 <= u <= 0x200A
    ||| u == 0x2028
    ||| u == 0x2029
    ||| u == 0x202F
    ||| u == 0x205F
    ||| u == 0x3000
}

/// Whether a character is white space.
pub fn is_white_space(c: char) -> (r: bool)
    ensures
        r == white_space(c),
{
    let u = c as u32;
    (0x9 <= u && u <= 0xD) || u == 0x20 || u == 0x85 || u == 0xA0 || u == 0x1680 || (0x2000 <= u && u <= 0x200A)
        || u == 0x2028 || u == 0x2029 || u == 0x202F || u == 0x205F || u == 0x3000
}

/// The index of the first character at or after `i` that is not white space.
pub open spec fn lead_end(s: Seq<char>, i: int) -> int
    decreases s.len() - i,
{
    if i >= s.len() || i < 0 || !white_space(s[i]) {
        i
    } else {
        lead_end(s, i + 1)
    }
}

/// The end of `s` once trailing white space after `lo` is dropped.
pub open spec fn trail_end(s: Seq<char>, j: int, lo: int) -> int
    decreases j - lo,
{
    if j <= lo || !white_space(s[j - 1]) {
        j
    } else {
        trail_end(s, j - 1, lo)
    }
}

/// `s` without leading and trailing white space.
pub open spec fn trimmed(s: Seq<char>) -> Seq<char> {
    let a = lead_end(s, 0);
    s.subrange(a, trail_end(s, s.len() as int, a))
}

proof fn lemma_lead_end(s: Seq<char>, i: int)
    requires
        0 <= i <= s.len(),
    ensures
        i <= lead_end(s, i) <= s.len(),
    decreases s.len() - i,
{
    if i < s.len() && white_space(s[i]) {
        lemma_lead_end(s, i + 1);
    }
}

proof fn lemma_trail_end(s: Seq<char>, j: int, lo: int)
    requires
        0 <= lo <= j <= s.len(),
    ensures
        lo <= trail_end(s, j, lo) <= j,
    decreases j - lo,
{
    if j > lo && white_space(s[j - 1]) {
        lemma_trail_end(s, j - 1, lo);
    }
}

/// Drops leading and trailing white space.
pub fn trim_white_space(s: &Vec<char>) -> (r: Vec<char>)
    ensures
        r@ == trimmed(s@),
{
    let mut a: usize = 0;
    while a < s.len() && is_white_space(s[a])
        invariant
            a <= s.len(),
            lead_end(s@, 0) == lead_end(s@, a as int),
        decreases s.len() - a,
    {
        a = a + 1;
    }
    let mut b: usize = s.len();
    while b > a && is_white_space(s[b - 1])
        invariant
            a <= b <= s.len(),
            trail_end(s@, s.len() as int, a as int) == trail_end(s@, b as int, a as int),
        decreases b,
    {
        b = b - 1;
    }
    let mut r: Vec<char> = Vec::new();
    let mut k: usize = a;
    while k < b
        invariant
            a <= k <= b,
            b <= s.len(),
            r@ == s@.subrange(a as int, k as int),
        decreases b - k,
    {
        r.push(s[k]);
        k = k + 1;
        assert(r@ =~= s@.subrange(a as int, k as int));
    }
    r
}

/// Whether a decorator expression names `overload`: after trimming, its
/// last dot-separated segment is `overload`.
pub open spec fn names_overload(expression: Seq<char>) -> bool {
    let t = trimmed(expression);
    t == "overload"@ || (t.len() >= 9 && t.subrange(t.len() - 9, t.len() as int) == ".overload"@)
}

/// Whether a symbol carries an `overload` decorator.
pub open spec fn is_overload(s: Symbol) -> bool {
    exists|i: int| 0 <= i < s.decorators.len() && names_overload(#[trigger] s.decorators@[i].expression@)
}

fn decorator_names_overload(expression: &String) -> (r: bool)
    ensures
        r == names_overload(expression@),
{
    let chars = crate::order::text_chars(expression.as_str());
    let t = trim_white_space(&chars);
    let s = string_from_chars(&t);
    proof {
        reveal_strlit("overload");
        reveal_strlit(".overload");
    }
    text_eq(s.as_str(), "overload") || text_ends_with(s.as_str(), ".overload")
}

/// Whether a symbol carries an `overload` decorator.
pub fn symbol_is_overload(s: &Symbol) -> (r: bool)
    ensures
        r == is_overload(*s),
{
    let mut i: usize = 0;
    while i < s.decorators.len()
        invariant
            i <= s.decorators.len(),
            forall|j: int| 0 <= j < i ==> !names_overload(#[trigger] s.decorators@[j].expression@),
        decreases s.decorators.len() - i,
    {
        if decorator_names_overload(&s.decorators[i].expression) {
            return true;
        }
        i = i + 1;
    }
    false
}

/// The index below `n` of the last symbol with this id: the one a lookup by
/// id finds.
pub open spec fn last_with_id(syms: Seq<Symbol>, id: Seq<char>, n: int) -> Option<int>
    decreases n,
{
    if n <= 0 {
        None
    } else if syms[n - 1].id@ == id {
        Some(n - 1)
    } else {
        last_with_id(syms, id, n - 1)
    }
}

/// The symbol a lookup by id finds.
pub open spec fn symbol_by_id(syms: Seq<Symbol>, id: Seq<char>) -> Option<Symbol> {
    match last_with_id(syms, id, syms.len() as int) {
        Some(i) => Some(syms[i]),
        None => None,
    }
}

/// The parent of a symbol, looked up by its parent id.
pub open spec fn parent_of(syms: Seq<Symbol>, s: Symbol) -> Option<Symbol> {
    match s.parent_id {
        Some(p) => symbol_by_id(syms, p@),
        None => None,
    }
}

/// Whether a symbol's documentation counts: a top-level module, a class or
/// function declared directly in a module, or a method declared directly in
/// such a class. Lambdas never count.
pub open spec fn is_eligible(s: Symbol, syms: Seq<Symbol>) -> bool {
    match s.kind {
        SymbolKind::Module => s.parent_id is None,
        SymbolKind::Class | SymbolKind::Function => s.direct_declaration && (parent_of(syms, s) matches Some(p)
            && p.kind == SymbolKind::Module),
        SymbolKind::Method => s.direct_declaration && (parent_of(syms, s) matches Some(c) && c.kind
            == SymbolKind::Class && c.direct_declaration && (parent_of(syms, c) matches Some(m) && m.kind
            == SymbolKind::Module)),
        SymbolKind::Lambda => false,
    }
}

proof fn lemma_last_with_id(syms: Seq<Symbol>, id: Seq<char>, n: int)
    requires
        0 <= n <= syms.len(),
    ensures
        last_with_id(syms, id, n) matches Some(i) ==> 0 <= i < n && syms[i].id@ == id,
    decreases n,
{
    if n > 0 {
        lemma_last_with_id(syms, id, n - 1);
    }
}

/// The index of the symbol a lookup by id finds.
pub fn find_symbol(syms: &Vec<Symbol>, id: &crate::analyzer::SymbolId) -> (r: Option<usize>)
    ensures
        match r {
            Some(i) => last_with_id(syms@, id@, syms.len() as int) == Some(i as int),
            None => last_with_id(syms@, id@, syms.len() as int) is None,
        },
{
    let mut n: usize = syms.len();
    while n > 0
        invariant
            n <= syms.len(),
            last_with_id(syms@, id@, syms.len() as int) == last_with_id(syms@, id@, n as int),
        decreases n,
    {
        if text_eq(syms[n - 1].id.as_str(), id.as_str()) {
            return Some(n - 1);
        }
        n = n - 1;
    }
    None
}

/// The index of a symbol's parent.
fn parent_index(syms: &Vec<Symbol>, i: usize) -> (r: Option<usize>)
    requires
        i < syms.len(),
    ensures
        match r {
            Some(p) => p < syms.len() && parent_of(syms@, syms@[i as int]) == Some(syms@[p as int]),
            None => parent_of(syms@, syms@[i as int]) is None,
        },
{
    match &syms[i].parent_id {
        None => None,
        Some(p) => {
            let r = find_symbol(syms, p);
            proof {
                lemma_last_with_id(syms@, p@, syms.len() as int);
            }
            r
        },
    }
}

/// Whether the symbol at `i` is eligible.
pub fn symbol_is_eligible(syms: &Vec<Symbol>, i: usize) -> (r: bool)
    requires
        i < syms.len(),
    ensures
        r == is_eligible(syms@[i as int], syms@),
{
    let s = &syms[i];
    match s.kind {
        SymbolKind::Module => s.parent_id.is_none(),
        SymbolKind::Class | SymbolKind::Function => {
            if !s.direct_declaration {
                return false;
            }
            match parent_index(syms, i) {
                Some(p) => syms[p].kind == SymbolKind::Module,
                None => false,
            }
        },
        SymbolKind::Method => {
            if !s.direct_declaration {
                return false;
            }
            match parent_index(syms, i) {
                Some(c) => {
                    if syms[c].kind != SymbolKind::Class || !syms[c].direct_declaration {
                        return false;
                    }
                    match parent_index(syms, c) {
                        Some(m) => syms[m].kind == SymbolKind::Module,
                        None => false,
                    }
                },
                None => false,
            }
        },
        SymbolKind::Lambda => false,
    }
}

/// The identifier of a symbol's parent, as text.
pub open spec fn parent_text(s: Symbol) -> Option<Seq<char>> {
    match s.parent_id {
        Some(p) => Some(p@),
        None => None,
    }
}

/// Whether two symbols are declarations of one logical symbol: the same
/// parent, kind and qualified name.
pub open spec fn same_group(a: Symbol, b: Symbol) -> bool {
    &&& parent_text(a) == parent_text(b)
    &&& a.kind == b.kind
    &&& a.qualified_name@ == b.qualified_name@
}

fn same_group_exec(a: &Symbol, b: &Symbol) -> (r: bool)
    ensures
        r == same_group(*a, *b),
{
    let parents = match (&a.parent_id, &b.parent_id) {
        (None, None) => true,
        (Some(x), Some(y)) => text_eq(x.as_str(), y.as_str()),
        _ => false,
    };
    parents && a.kind == b.kind && text_eq(a.qualified_name.as_str(), b.qualified_name.as_str())
}

/// The eligible symbols of a file, in declaration order.
pub open spec fn eligible_symbols(syms: Seq<Symbol>) -> Seq<Symbol> {
    syms.filter(|s: Symbol| is_eligible(s, syms))
}

/// The documentation outcome of a symbol; no documentation fact counts as
/// unavailable.
pub open spec fn symbol_status(s: Symbol) -> DocumentationStatus {
    match s.documentation {
        Some(d) => d.status,
        None => DocumentationStatus::Unavailable,
    }
}

pub open spec fn has_documentation_status(s: Symbol, st: DocumentationStatus) -> bool {
    s.documentation matches Some(d) && d.status == st
}

/// The index of the first symbol of `g` that is not an overload, else the
/// first documented one, else the first whose documentation is unavailable,
/// else the first.
pub open spec fn representative_index(g: Seq<Symbol>) -> int {
    if exists|i: int| 0 <= i < g.len() && !is_overload(#[trigger] g[i]) {
        choose|i: int| 0 <= i < g.len() && !is_overload(g[i]) && forall|j: int| 0 <= j < i ==> is_overload(#[trigger] g[j])
    } else if exists|i: int| 0 <= i < g.len() && has_documentation_status(#[trigger] g[i], DocumentationStatus::Documented) {
        choose|i: int| 0 <= i < g.len() && has_documentation_status(g[i], DocumentationStatus::Documented)
            && forall|j: int| 0 <= j < i ==> !has_documentation_status(#[trigger] g[j], DocumentationStatus::Documented)
    } else if exists|i: int| 0 <= i < g.len() && has_documentation_status(#[trigger] g[i], DocumentationStatus::Unavailable) {
        choose|i: int| 0 <= i < g.len() && has_documentation_status(g[i], DocumentationStatus::Unavailable)
            && forall|j: int| 0 <= j < i ==> !has_documentation_status(#[trigger] g[j], DocumentationStatus::Unavailable)
    } else {
        0
    }
}

/// Whether some overload declaration belongs to the group of `s`.
pub open spec fn group_has_overload(e: Seq<Symbol>, s: Symbol) -> bool {
    exists|j: int| 0 <= j < e.len() && is_overload(#[trigger] e[j]) && same_group(e[j], s)
}

/// Whether no earlier symbol belongs to the group of `e[i]`.
pub open spec fn first_of_group(e: Seq<Symbol>, i: int) -> bool {
    forall|j: int| 0 <= j < i ==> !same_group(#[trigger] e[j], e[i])
}

/// The declarations of the group of `s`, in order.
pub open spec fn group_of(e: Seq<Symbol>, s: Symbol) -> Seq<Symbol> {
    e.filter(|t: Symbol| same_group(t, s))
}

/// What `e[i]` contributes: itself when its group has no overload; the
/// group's representative at the group's first declaration; otherwise
/// nothing.
pub open spec fn contribution(e: Seq<Symbol>, i: int) -> Seq<Symbol> {
    if !group_has_overload(e, e[i]) {
        seq![e[i]]
    } else if first_of_group(e, i) {
        let g = group_of(e, e[i]);
        seq![g[representative_index(g)]]
    } else {
        Seq::empty()
    }
}

pub open spec fn documented_prefix(e: Seq<Symbol>, n: int) -> Seq<Symbol>
    decreases n,
{
    if n <= 0 {
        Seq::empty()
    } else {
        documented_prefix(e, n - 1) + contribution(e, n - 1)
    }
}

/// The symbols whose documentation a file's coverage counts, in order.
pub open spec fn documentation_symbols(syms: Seq<Symbol>) -> Seq<Symbol> {
    let e = eligible_symbols(syms);
    documented_prefix(e, e.len() as int)
}

pub open spec fn symbols_at(syms: Seq<Symbol>, idx: Seq<usize>) -> Seq<Symbol> {
    idx.map_values(|i: usize| syms[i as int])
}

/// The indices of the eligible symbols.
fn eligible_indices(syms: &Vec<Symbol>) -> (r: Vec<usize>)
    ensures
        symbols_at(syms@, r@) == eligible_symbols(syms@),
        r.len() <= syms.len(),
        forall|k: int| 0 <= k < r.len() ==> #[trigger] r[k] < syms.len(),
{
    let mut r: Vec<usize> = Vec::new();
    let mut i: usize = 0;
    while i < syms.len()
        invariant
            i <= syms.len(),
            symbols_at(syms@, r@) == syms@.take(i as int).filter(|s: Symbol| is_eligible(s, syms@)),
            forall|k: int| 0 <= k < r.len() ==> #[trigger] r[k] < syms.len(),
            r.len() <= i,
        decreases syms.len() - i,
    {
        let ghost before = symbols_at(syms@, r@);
        proof {
            let t = syms@.take(i + 1);
            assert(t.drop_last() =~= syms@.take(i as int));
            assert(t.filter(|s: Symbol| is_eligible(s, syms@)) == if is_eligible(t.last(), syms@) {
                t.drop_last().filter(|s: Symbol| is_eligible(s, syms@)).push(t.last())
            } else {
                t.drop_last().filter(|s: Symbol| is_eligible(s, syms@))
            }) by {
                reveal_with_fuel(Seq::<_>::filter, 1);
            }
        }
        if symbol_is_eligible(syms, i) {
            r.push(i);
            proof {
                assert(symbols_at(syms@, r@) =~= before.push(syms@[i as int]));
            }
        }
        i = i + 1;
    }
    proof {
        assert(syms@.take(syms.len() as int) =~= syms@);
    }
    r
}

/// The position in `g` of the group's representative.
fn representative_position(syms: &Vec<Symbol>, g: &Vec<usize>) -> (r: usize)
    requires
        g.len() > 0,
        forall|k: int| 0 <= k < g.len() ==> #[trigger] g[k] < syms.len(),
    ensures
        r < g.len(),
        r == representative_index(symbols_at(syms@, g@)),
{
    let ghost gv = symbols_at(syms@, g@);
    let mut i: usize = 0;
    while i < g.len()
        invariant
            i <= g.len(),
            gv == symbols_at(syms@, g@),
            forall|k: int| 0 <= k < g.len() ==> #[trigger] g[k] < syms.len(),
            forall|j: int| 0 <= j < i ==> is_overload(#[trigger] gv[j]),
        decreases g.len() - i,
    {
        if !symbol_is_overload(&syms[g[i]]) {
            proof {
                assert(!is_overload(gv[i as int]));
                let c = choose|c: int| 0 <= c < gv.len() && !is_overload(gv[c]) && forall|j: int| 0 <= j < c ==> is_overload(#[trigger] gv[j]);
                if c < i {
                    assert(is_overload(gv[c]));
                } else if c > i {
                    assert(is_overload(gv[i as int]));
                }
            }
            return i;
        }
        i = i + 1;
    }
    let mut i: usize = 0;
    while i < g.len()
        invariant
            i <= g.len(),
            gv == symbols_at(syms@, g@),
            forall|k: int| 0 <= k < g.len() ==> #[trigger] g[k] < syms.len(),
            forall|j: int| 0 <= j < g.len() ==> is_overload(#[trigger] gv[j]),
            forall|j: int| 0 <= j < i ==> !has_documentation_status(#[trigger] gv[j], DocumentationStatus::Documented),
        decreases g.len() - i,
    {
        let found = match &syms[g[i]].documentation {
            Some(d) => d.status == DocumentationStatus::Documented,
            None => false,
        };
        if found {
            proof {
                assert(has_documentation_status(gv[i as int], DocumentationStatus::Documented));
                let c = choose|c: int| 0 <= c < gv.len() && has_documentation_status(gv[c], DocumentationStatus::Documented)
                    && forall|j: int| 0 <= j < c ==> !has_documentation_status(#[trigger] gv[j], DocumentationStatus::Documented);
                if c < i {
                    assert(!has_documentation_status(gv[c], DocumentationStatus::Documented));
                } else if c > i {
                    assert(!has_documentation_status(gv[i as int], DocumentationStatus::Documented));
                }
                assert(!(exists|j: int| 0 <= j < gv.len() && !is_overload(#[trigger] gv[j])));
            }
            return i;
        }
        i = i + 1;
    }
    let mut i: usize = 0;
    while i < g.len()
        invariant
            i <= g.len(),
            gv == symbols_at(syms@, g@),
            forall|k: int| 0 <= k < g.len() ==> #[trigger] g[k] < syms.len(),
            forall|j: int| 0 <= j < g.len() ==> is_overload(#[trigger] gv[j]),
            forall|j: int| 0 <= j < g.len() ==> !has_documentation_status(#[trigger] gv[j], DocumentationStatus::Documented),
            forall|j: int| 0 <= j < i ==> !has_documentation_status(#[trigger] gv[j], DocumentationStatus::Unavailable),
        decreases g.len() - i,
    {
        let found = match &syms[g[i]].documentation {
            Some(d) => d.status == DocumentationStatus::Unavailable,
            None => false,
        };
        if found {
            proof {
                assert(has_documentation_status(gv[i as int], DocumentationStatus::Unavailable));
                let c = choose|c: int| 0 <= c < gv.len() && has_documentation_status(gv[c], DocumentationStatus::Unavailable)
                    && forall|j: int| 0 <= j < c ==> !has_documentation_status(#[trigger] gv[j], DocumentationStatus::Unavailable);
                if c < i {
                    assert(!has_documentation_status(gv[c], DocumentationStatus::Unavailable));
                } else if c > i {
                    assert(!has_documentation_status(gv[i as int], DocumentationStatus::Unavailable));
                }
                assert(!(exists|j: int| 0 <= j < gv.len() && !is_overload(#[trigger] gv[j])));
                assert(!(exists|j: int| 0 <= j < gv.len() && has_documentation_status(#[trigger] gv[j], DocumentationStatus::Documented)));
            }
            return i;
        }
        i = i + 1;
    }
    proof {
        assert(!(exists|j: int| 0 <= j < gv.len() && !is_overload(#[trigger] gv[j])));
        assert(!(exists|j: int| 0 <= j < gv.len() && has_documentation_status(#[trigger] gv[j], DocumentationStatus::Documented)));
        assert(!(exists|j: int| 0 <= j < gv.len() && has_documentation_status(#[trigger] gv[j], DocumentationStatus::Unavailable)));
    }
    0
}

fn group_has_overload_exec(syms: &Vec<Symbol>, elig: &Vec<usize>, ov: &Vec<bool>, i: usize) -> (r: bool)
    requires
        i < elig.len(),
        forall|k: int| 0 <= k < elig.len() ==> #[trigger] elig[k] < syms.len(),
        ov.len() == elig.len(),
        forall|k: int| 0 <= k < elig.len() ==> ov[k] == is_overload(#[trigger] symbols_at(syms@, elig@)[k]),
    ensures
        r == group_has_overload(symbols_at(syms@, elig@), symbols_at(syms@, elig@)[i as int]),
{
    let ghost e = symbols_at(syms@, elig@);
    let ghost si = e[i as int];
    let mut grouped = false;
    let mut j: usize = 0;
    while j < elig.len()
        invariant
            j <= elig.len(),
            i < elig.len(),
            e == symbols_at(syms@, elig@),
            si == e[i as int],
            forall|k: int| 0 <= k < elig.len() ==> #[trigger] elig[k] < syms.len(),
            ov.len() == elig.len(),
            forall|k: int| 0 <= k < elig.len() ==> ov[k] == is_overload(#[trigger] e[k]),
            grouped == exists|k: int| 0 <= k < j && is_overload(#[trigger] e[k]) && same_group(e[k], si),
        decreases elig.len() - j,
    {
        assert(e[j as int] == syms@[elig[j as int] as int]);
        assert(si == syms@[elig[i as int] as int]);
        if !grouped && ov[j] && same_group_exec(&syms[elig[j]], &syms[elig[i]]) {
            grouped = true;
        }
        j = j + 1;
    }
    grouped
}

fn first_of_group_exec(syms: &Vec<Symbol>, elig: &Vec<usize>, i: usize) -> (r: bool)
    requires
        i < elig.len(),
        forall|k: int| 0 <= k < elig.len() ==> #[trigger] elig[k] < syms.len(),
    ensures
        r == first_of_group(symbols_at(syms@, elig@), i as int),
{
    let ghost e = symbols_at(syms@, elig@);
    let ghost si = e[i as int];
    let mut first = true;
    let mut j: usize = 0;
    while j < i
        invariant
            j <= i,
            i < elig.len(),
            e == symbols_at(syms@, elig@),
            si == e[i as int],
            forall|k: int| 0 <= k < elig.len() ==> #[trigger] elig[k] < syms.len(),
            first == forall|k: int| 0 <= k < j ==> !same_group(#[trigger] e[k], si),
        decreases i - j,
    {
        assert(e[j as int] == syms@[elig[j as int] as int]);
        assert(si == syms@[elig[i as int] as int]);
        if first && same_group_exec(&syms[elig[j]], &syms[elig[i]]) {
            first = false;
        }
        j = j + 1;
    }
    first
}

fn group_members(syms: &Vec<Symbol>, elig: &Vec<usize>, i: usize) -> (g: Vec<usize>)
    requires
        i < elig.len(),
        forall|k: int| 0 <= k < elig.len() ==> #[trigger] elig[k] < syms.len(),
    ensures
        symbols_at(syms@, g@) == group_of(symbols_at(syms@, elig@), symbols_at(syms@, elig@)[i as int]),
        g.len() > 0,
        forall|k: int| 0 <= k < g.len() ==> #[trigger] g[k] < syms.len(),
{
    let ghost e = symbols_at(syms@, elig@);
    let ghost si = e[i as int];
    let mut g: Vec<usize> = Vec::new();
    let mut j: usize = 0;
    while j < elig.len()
        invariant
            j <= elig.len(),
            i < elig.len(),
            e == symbols_at(syms@, elig@),
            si == e[i as int],
            forall|k: int| 0 <= k < elig.len() ==> #[trigger] elig[k] < syms.len(),
            forall|k: int| 0 <= k < g.len() ==> #[trigger] g[k] < syms.len(),
            symbols_at(syms@, g@) == e.take(j as int).filter(|t: Symbol| same_group(t, si)),
            j > i ==> g.len() > 0,
        decreases elig.len() - j,
    {
        let ghost gb = symbols_at(syms@, g@);
        proof {
            let t = e.take(j + 1);
            assert(t.drop_last() =~= e.take(j as int));
            assert(t.filter(|t: Symbol| same_group(t, si)) == if same_group(t.last(), si) {
                t.drop_last().filter(|t: Symbol| same_group(t, si)).push(t.last())
            } else {
                t.drop_last().filter(|t: Symbol| same_group(t, si))
            }) by {
                reveal_with_fuel(Seq::<_>::filter, 1);
            }
            assert(e[j as int] == syms@[elig[j as int] as int]);
            assert(si == syms@[elig[i as int] as int]);
        }
        if same_group_exec(&syms[elig[j]], &syms[elig[i]]) {
            g.push(elig[j]);
            proof {
                assert(symbols_at(syms@, g@) =~= gb.push(e[j as int]));
            }
        }
        j = j + 1;
    }
    proof {
        assert(e.take(elig.len() as int) =~= e);
    }
    g
}

/// The indices of the symbols whose documentation a file's coverage counts:
/// the eligible symbols, each group of overload declarations collapsed into
/// its representative at the place of its first declaration.
#[verifier::rlimit(40)]
pub fn documentation_indices(syms: &Vec<Symbol>) -> (r: Vec<usize>)
    ensures
        symbols_at(syms@, r@) == documentation_symbols(syms@),
        r.len() <= syms.len(),
        forall|k: int| 0 <= k < r.len() ==> #[trigger] r[k] < syms.len(),
{
    let elig = eligible_indices(syms);
    let ghost e = eligible_symbols(syms@);
    let mut ov: Vec<bool> = Vec::new();
    let mut j: usize = 0;
    while j < elig.len()
        invariant
            j <= elig.len(),
            e == symbols_at(syms@, elig@),
            forall|k: int| 0 <= k < elig.len() ==> #[trigger] elig[k] < syms.len(),
            ov.len() == j,
            forall|k: int| 0 <= k < j ==> ov[k] == is_overload(#[trigger] e[k]),
        decreases elig.len() - j,
    {
        ov.push(symbol_is_overload(&syms[elig[j]]));
        j = j + 1;
    }
    let mut r: Vec<usize> = Vec::new();
    let mut i: usize = 0;
    while i < elig.len()
        invariant
            i <= elig.len(),
            e == symbols_at(syms@, elig@),
            e.len() == elig.len(),
            forall|k: int| 0 <= k < elig.len() ==> #[trigger] elig[k] < syms.len(),
            ov.len() == elig.len(),
            forall|k: int| 0 <= k < elig.len() ==> ov[k] == is_overload(#[trigger] e[k]),
            symbols_at(syms@, r@) == documented_prefix(e, i as int),
            forall|k: int| 0 <= k < r.len() ==> #[trigger] r[k] < syms.len(),
            r.len() <= i,
            elig.len() <= syms.len(),
        decreases elig.len() - i,
    {
        let ghost before = symbols_at(syms@, r@);
        if !group_has_overload_exec(syms, &elig, &ov, i) {
            r.push(elig[i]);
            proof {
                assert(symbols_at(syms@, r@) =~= before + contribution(e, i as int));
            }
        } else if first_of_group_exec(syms, &elig, i) {
            let g = group_members(syms, &elig, i);
            let p = representative_position(syms, &g);
            r.push(g[p]);
            proof {
                assert(symbols_at(syms@, r@) =~= before + contribution(e, i as int));
            }
        } else {
            proof {
                assert(contribution(e, i as int) =~= Seq::<Symbol>::empty());
                assert(symbols_at(syms@, r@) =~= before + contribution(e, i as int));
            }
        }
        i = i + 1;
    }
    r
}

/// Whether an analyzer reports documentation facts.
pub open spec fn documentation_capable(run: AnalyzerRun) -> bool {
    run.descriptor.capabilities@.contains(AnalyzerCapability::Documentation)
}

/// The files of the documentation-capable analyzers, in run order.
pub open spec fn documentation_files(runs: Seq<AnalyzerRun>) -> Seq<FileAnalysis>
    decreases runs.len(),
{
    if runs.len() == 0 {
        Seq::empty()
    } else {
        documentation_files(runs.drop_last()) + (if documentation_capable(runs.last()) {
            runs.last().files@
        } else {
            Seq::empty()
        })
    }
}

/// Whether a file's documentation is counted: test files only when asked.
pub open spec fn counted_file(f: FileAnalysis, include_tests: bool) -> bool {
    include_tests || !is_test_path(f.path@)
}

/// The symbols a file's coverage counts.
pub open spec fn file_symbols(f: FileAnalysis) -> Seq<Symbol> {
    documentation_symbols(f.facts.symbols@)
}

/// The outcomes of a file's counted symbols.
pub open spec fn file_statuses(f: FileAnalysis) -> Seq<DocumentationStatus> {
    file_symbols(f).map_values(|s: Symbol| symbol_status(s))
}

/// The outcomes of the counted symbols of `files`, in order.
pub open spec fn all_statuses(files: Seq<FileAnalysis>) -> Seq<DocumentationStatus>
    decreases files.len(),
{
    if files.len() == 0 {
        Seq::empty()
    } else {
        all_statuses(files.drop_last()) + file_statuses(files.last())
    }
}

/// The outcomes of the counted symbols of one kind.
pub open spec fn kind_statuses(files: Seq<FileAnalysis>, k: SymbolKind) -> Seq<DocumentationStatus>
    decreases files.len(),
{
    if files.len() == 0 {
        Seq::empty()
    } else {
        kind_statuses(files.drop_last(), k) + file_symbols(files.last()).filter(|s: Symbol| s.kind == k).map_values(
            |s: Symbol| symbol_status(s),
        )
    }
}

/// The counted symbols with one outcome, each with its file, in order.
pub open spec fn flagged(files: Seq<FileAnalysis>, st: DocumentationStatus) -> Seq<(FileAnalysis, Symbol)>
    decreases files.len(),
{
    if files.len() == 0 {
        Seq::empty()
    } else {
        let f = files.last();
        flagged(files.drop_last(), st) + file_symbols(f).filter(|s: Symbol| symbol_status(s) == st).map_values(
            |s: Symbol| (f, s),
        )
    }
}

/// Whether `e` records symbol `s` of file `f`.
pub open spec fn evidence_matches(e: DocumentationSymbol, f: FileAnalysis, s: Symbol) -> bool {
    &&& e.path@ == f.path@
    &&& e.symbol_id@ == s.id@
    &&& e.qualified_name@ == s.qualified_name@
    &&& e.kind == s.kind
    &&& e.span == s.span
    &&& e.docstring_span == match s.documentation {
        Some(d) => d.span,
        None => None,
    }
    &&& crate::analyzer::opt_text(e.reason) == match s.documentation {
        Some(d) => crate::analyzer::opt_text(d.reason),
        None => Some("documentation fact is unavailable"@),
    }
}

/// The ordering key of a path: its components.
pub open spec fn path_order_key(p: Seq<char>) -> Seq<AtomView> {
    components(p).map_values(|c: Seq<char>| AtomView::Text(c))
}

/// The ordering key of a flagged symbol: path, start byte, symbol id.
pub open spec fn evidence_key(x: (FileAnalysis, Symbol)) -> Seq<AtomView> {
    path_order_key(x.0.path@) + seq![AtomView::Num(x.1.span.start_byte as int), AtomView::Text(x.1.id@)]
}

/// `out` is the flagged symbols `xs`, recorded and stably sorted by key.
pub open spec fn sorted_evidence(out: Seq<DocumentationSymbol>, xs: Seq<(FileAnalysis, Symbol)>) -> bool {
    exists|order: Seq<usize>|
        is_stable_order(xs.map_values(|x: (FileAnalysis, Symbol)| evidence_key(x)), order) && out.len() == order.len()
            && forall|i: int| 0 <= i < out.len() ==> evidence_matches(#[trigger] out[i], xs[order[i] as int].0, xs[order[i] as int].1)
}

/// Whether `e` records the counts of file `f`.
pub open spec fn file_entry_matches(e: DocumentationFileCoverage, f: FileAnalysis) -> bool {
    &&& e.path@ == f.path@
    &&& e.status == f.status
    &&& counts_match(e.counts, file_statuses(f))
}

/// `out` records the files `fs`, stably sorted by path.
pub open spec fn sorted_file_entries(out: Seq<DocumentationFileCoverage>, fs: Seq<FileAnalysis>) -> bool {
    exists|order: Seq<usize>|
        is_stable_order(fs.map_values(|f: FileAnalysis| path_order_key(f.path@)), order) && out.len() == order.len()
            && forall|i: int| 0 <= i < out.len() ==> file_entry_matches(#[trigger] out[i], fs[order[i] as int])
}

/// The symbol kinds in kind order.
pub open spec fn all_kinds() -> Seq<SymbolKind> {
    seq![SymbolKind::Module, SymbolKind::Class, SymbolKind::Function, SymbolKind::Method, SymbolKind::Lambda]
}

/// The per-kind counts: the kinds with counted symbols, in kind order.
pub open spec fn kinds_match(by_kind: Seq<(SymbolKind, DocumentationCounts)>, files: Seq<FileAnalysis>) -> bool {
    &&& by_kind.map_values(|e: (SymbolKind, DocumentationCounts)| e.0) == all_kinds().filter(
        |k: SymbolKind| kind_statuses(files, k).len() > 0,
    )
    &&& forall|i: int| 0 <= i < by_kind.len() ==> counts_match(#[trigger] by_kind[i].1, kind_statuses(files, by_kind[i].0))
}

/// Whether some selected path has a language that no documentation-capable
/// analyzer covers.
pub open spec fn documentation_language(runs: Seq<AnalyzerRun>, l: Seq<char>) -> bool {
    exists|i: int| 0 <= i < runs.len() && documentation_capable(#[trigger] runs[i]) && runs[i].descriptor.language@ == l
}

pub open spec fn unsupported_path(runs: Seq<AnalyzerRun>, p: Seq<char>) -> bool {
    crate::inventory::path_language(p) matches Some(l) && !documentation_language(runs, l)
}

/// The coverage status of the counted files.
pub open spec fn coverage_status(files: Seq<FileAnalysis>) -> DocumentationCoverageStatus {
    if files.len() == 0 {
        DocumentationCoverageStatus::NotApplicable
    } else if (exists|i: int| 0 <= i < files.len() && (#[trigger] files[i]).status != FileAnalysisStatus::Successful)
        || status_count(all_statuses(files), DocumentationStatus::Unavailable) > 0 {
        DocumentationCoverageStatus::Partial
    } else {
        DocumentationCoverageStatus::Complete
    }
}

/// The number of symbols of all files of all runs.
pub open spec fn run_symbol_total(runs: Seq<AnalyzerRun>) -> int
    decreases runs.len(),
{
    if runs.len() == 0 {
        0
    } else {
        run_symbol_total(runs.drop_last()) + file_symbol_total(runs.last().files@)
    }
}

pub open spec fn file_symbol_total(files: Seq<FileAnalysis>) -> int
    decreases files.len(),
{
    if files.len() == 0 {
        0
    } else {
        file_symbol_total(files.drop_last()) + files.last().facts.symbols.len()
    }
}

/// The number of files of all runs.
pub open spec fn run_file_total(runs: Seq<AnalyzerRun>) -> int
    decreases runs.len(),
{
    if runs.len() == 0 {
        0
    } else {
        run_file_total(runs.drop_last()) + runs.last().files.len()
    }
}

/// What the coverage of an enabled analysis is.
pub open spec fn coverage_of(c: DocumentationCoverage, include_tests: bool, selected: Seq<String>, runs: Seq<AnalyzerRun>) -> bool {
    let all = documentation_files(runs);
    let counted = all.filter(|f: FileAnalysis| counted_file(f, include_tests));
    &&& c.definition_version@ == PYTHON_DOCUMENTATION_COVERAGE_DEFINITION_VERSION@
    &&& c.status == coverage_status(counted)
    &&& c.applicable_files == counted.len()
    &&& c.skipped_test_files == all.len() - counted.len()
    &&& c.unsupported_selected_files == selected.filter(|p: String| unsupported_path(runs, p@)).len()
    &&& counts_match(c.counts, all_statuses(counted))
    &&& kinds_match(c.by_kind@, counted)
    &&& sorted_file_entries(c.files@, counted)
    &&& sorted_evidence(c.missing_symbols@, flagged(counted, DocumentationStatus::Missing))
    &&& sorted_evidence(c.unavailable_symbols@, flagged(counted, DocumentationStatus::Unavailable))
}

/// Whether the counted files leave the coverage incomplete.
pub open spec fn coverage_incomplete(files: Seq<FileAnalysis>) -> bool {
    (exists|i: int| 0 <= i < files.len() && (#[trigger] files[i]).status != FileAnalysisStatus::Successful)
        || status_count(all_statuses(files), DocumentationStatus::Unavailable) > 0
}

/// The index of a kind in kind order.
pub open spec fn kind_index(k: SymbolKind) -> int {
    match k {
        SymbolKind::Module => 0,
        SymbolKind::Class => 1,
        SymbolKind::Function => 2,
        SymbolKind::Method => 3,
        SymbolKind::Lambda => 4,
    }
}

fn kind_position(k: SymbolKind) -> (r: usize)
    ensures
        r as int == kind_index(k),
        r < 5,
        all_kinds()[r as int] == k,
{
    match k {
        SymbolKind::Module => 0,
        SymbolKind::Class => 1,
        SymbolKind::Function => 2,
        SymbolKind::Method => 3,
        SymbolKind::Lambda => 4,
    }
}

/// Running totals over the files processed so far, in processing order.
struct Tally {
    counts: DocumentationCounts,
    kinds: Vec<DocumentationCounts>,
    files: Vec<DocumentationFileCoverage>,
    missing: Vec<DocumentationSymbol>,
    unavailable: Vec<DocumentationSymbol>,
    incomplete: bool,
}

spec fn evidence_list_matches(out: Seq<DocumentationSymbol>, xs: Seq<(FileAnalysis, Symbol)>) -> bool {
    out.len() == xs.len() && forall|i: int| 0 <= i < out.len() ==> evidence_matches(#[trigger] out[i], xs[i].0, xs[i].1)
}

spec fn tally_of(t: Tally, fs: Seq<FileAnalysis>) -> bool {
    &&& counts_match(t.counts, all_statuses(fs))
    &&& t.kinds.len() == 5
    &&& forall|k: int| 0 <= k < 5 ==> counts_match(#[trigger] t.kinds[k], kind_statuses(fs, all_kinds()[k]))
    &&& t.files.len() == fs.len()
    &&& forall|i: int| 0 <= i < fs.len() ==> file_entry_matches(#[trigger] t.files[i], fs[i])
    &&& evidence_list_matches(t.missing@, flagged(fs, DocumentationStatus::Missing))
    &&& evidence_list_matches(t.unavailable@, flagged(fs, DocumentationStatus::Unavailable))
    &&& t.incomplete == coverage_incomplete(fs)
}

proof fn lemma_kind_statuses_len(fs: Seq<FileAnalysis>, k: SymbolKind)
    ensures
        kind_statuses(fs, k).len() <= all_statuses(fs).len(),
    decreases fs.len(),
{
    if fs.len() > 0 {
        lemma_kind_statuses_len(fs.drop_last(), k);
        file_symbols(fs.last()).lemma_filter_len(|s: Symbol| s.kind == k);
    }
}

fn make_evidence(f: &FileAnalysis, s: &Symbol) -> (e: DocumentationSymbol)
    ensures
        evidence_matches(e, *f, *s),
{
    let (docstring_span, reason) = match &s.documentation {
        Some(d) => (d.span, crate::analyzer::copy_opt_string(&d.reason)),
        None => (None, Some("documentation fact is unavailable".to_owned())),
    };
    DocumentationSymbol {
        path: crate::text::copy_string(&f.path),
        symbol_id: s.id.as_str().to_owned(),
        qualified_name: crate::text::copy_string(&s.qualified_name),
        kind: s.kind,
        span: s.span,
        docstring_span,
        reason,
    }
}

fn status_of(s: &Symbol) -> (r: DocumentationStatus)
    ensures
        r == symbol_status(*s),
{
    match &s.documentation {
        Some(d) => d.status,
        None => DocumentationStatus::Unavailable,
    }
}

/// Filtering a sequence with one more element at the end.
pub(crate) proof fn lemma_filter_push_pub<A>(p: Seq<A>, x: A, pred: spec_fn(A) -> bool)
    ensures
        p.push(x).filter(pred) == if pred(x) { p.filter(pred).push(x) } else { p.filter(pred) },
{
    lemma_filter_push(p, x, pred);
}

proof fn lemma_filter_push<A>(p: Seq<A>, x: A, pred: spec_fn(A) -> bool)
    ensures
        p.push(x).filter(pred) == if pred(x) { p.filter(pred).push(x) } else { p.filter(pred) },
{
    reveal_with_fuel(Seq::<_>::filter, 1);
    assert(p.push(x).drop_last() =~= p);
}

fn process_file(t: &mut Tally, f: &FileAnalysis, Ghost(fs): Ghost<Seq<FileAnalysis>>)
    requires
        tally_of(*old(t), fs),
        all_statuses(fs).len() + f.facts.symbols.len() < usize::MAX,
    ensures
        tally_of(*final(t), fs.push(*f)),
        all_statuses(fs.push(*f)).len() <= all_statuses(fs).len() + f.facts.symbols.len(),
{
    let syms = &f.facts.symbols;
    let idx = documentation_indices(syms);
    let ghost fsyms = file_symbols(*f);
    let ghost base = all_statuses(fs).len();
    let ghost old_counts = t.counts;
    let ghost old_files = t.files@;
    let ghost old_incomplete = t.incomplete;
    let mut fc = DocumentationCounts::zero();
    proof {
        assert(fsyms.take(0) =~= Seq::<Symbol>::empty());
        assert forall|k: int| 0 <= k < 5 implies counts_match(#[trigger] t.kinds[k], kind_statuses(fs, all_kinds()[k])
            + fsyms.take(0).filter(|s: Symbol| s.kind == all_kinds()[k]).map_values(|s: Symbol| symbol_status(s))) by {
            assert(kind_statuses(fs, all_kinds()[k]) + fsyms.take(0).filter(|s: Symbol| s.kind == all_kinds()[k]).map_values(|s: Symbol| symbol_status(s))
                =~= kind_statuses(fs, all_kinds()[k]));
        }
        assert(flagged(fs, DocumentationStatus::Missing) + fsyms.take(0).filter(|s: Symbol| symbol_status(s) == DocumentationStatus::Missing).map_values(
            |s: Symbol| (*f, s)) =~= flagged(fs, DocumentationStatus::Missing));
        assert(flagged(fs, DocumentationStatus::Unavailable) + fsyms.take(0).filter(|s: Symbol| symbol_status(s) == DocumentationStatus::Unavailable).map_values(
            |s: Symbol| (*f, s)) =~= flagged(fs, DocumentationStatus::Unavailable));
    }
    let mut q: usize = 0;
    while q < idx.len()
        invariant
            q <= idx.len(),
            idx.len() <= syms.len(),
            syms == &f.facts.symbols,
            forall|k: int| 0 <= k < idx.len() ==> #[trigger] idx[k] < syms.len(),
            fsyms == symbols_at(syms@, idx@),
            fsyms == file_symbols(*f),
            base == all_statuses(fs).len(),
            base + syms.len() < usize::MAX,
            counts_match(fc, fsyms.take(q as int).map_values(|s: Symbol| symbol_status(s))),
            t.kinds.len() == 5,
            forall|k: int| 0 <= k < 5 ==> counts_match(#[trigger] t.kinds[k], kind_statuses(fs, all_kinds()[k])
                + fsyms.take(q as int).filter(|s: Symbol| s.kind == all_kinds()[k]).map_values(|s: Symbol| symbol_status(s))),
            evidence_list_matches(t.missing@, flagged(fs, DocumentationStatus::Missing) + fsyms.take(q as int).filter(
                |s: Symbol| symbol_status(s) == DocumentationStatus::Missing).map_values(|s: Symbol| (*f, s))),
            evidence_list_matches(t.unavailable@, flagged(fs, DocumentationStatus::Unavailable) + fsyms.take(q as int).filter(
                |s: Symbol| symbol_status(s) == DocumentationStatus::Unavailable).map_values(|s: Symbol| (*f, s))),
            t.counts == old_counts,
            t.files@ == old_files,
            t.incomplete == old_incomplete,
        decreases idx.len() - q,
    {
        let s = &syms[idx[q]];
        let ghost x = fsyms[q as int];
        let ghost p = fsyms.take(q as int);
        proof {
            assert(x == syms@[idx[q as int] as int]);
            assert(fsyms.take(q + 1) =~= p.push(x));
            assert(p.map_values(|s: Symbol| symbol_status(s)).len() == q);
        }
        let st = status_of(s);
        proof {
            lemma_status_count_bound(p.map_values(|s: Symbol| symbol_status(s)), DocumentationStatus::Documented);
            lemma_status_count_bound(p.map_values(|s: Symbol| symbol_status(s)), DocumentationStatus::Missing);
            lemma_status_count_bound(p.map_values(|s: Symbol| symbol_status(s)), DocumentationStatus::Unavailable);
        }
        fc.record(st);
        proof {
            assert(p.push(x).map_values(|s: Symbol| symbol_status(s)) =~= p.map_values(|s: Symbol| symbol_status(s)).push(st));
        }
        let kp = kind_position(s.kind);
        let mut kc = t.kinds[kp];
        proof {
            let kk = all_kinds()[kp as int];
            let ks = kind_statuses(fs, kk) + p.filter(|s: Symbol| s.kind == kk).map_values(|s: Symbol| symbol_status(s));
            lemma_kind_statuses_len(fs, kk);
            p.lemma_filter_len(|s: Symbol| s.kind == kk);
            lemma_status_count_bound(ks, DocumentationStatus::Documented);
            lemma_status_count_bound(ks, DocumentationStatus::Missing);
            lemma_status_count_bound(ks, DocumentationStatus::Unavailable);
        }
        kc.record(st);
        t.kinds.set(kp, kc);
        proof {
            assert forall|k: int| 0 <= k < 5 implies counts_match(#[trigger] t.kinds[k], kind_statuses(fs, all_kinds()[k])
                + p.push(x).filter(|s: Symbol| s.kind == all_kinds()[k]).map_values(|s: Symbol| symbol_status(s))) by {
                let kk = all_kinds()[k];
                lemma_filter_push(p, x, |s: Symbol| s.kind == kk);
                if k == kp {
                    assert(kind_statuses(fs, kk) + p.push(x).filter(|s: Symbol| s.kind == kk).map_values(|s: Symbol| symbol_status(s))
                        =~= (kind_statuses(fs, kk) + p.filter(|s: Symbol| s.kind == kk).map_values(|s: Symbol| symbol_status(s))).push(st));
                } else {
                    assert(kind_statuses(fs, kk) + p.push(x).filter(|s: Symbol| s.kind == kk).map_values(|s: Symbol| symbol_status(s))
                        =~= kind_statuses(fs, kk) + p.filter(|s: Symbol| s.kind == kk).map_values(|s: Symbol| symbol_status(s)));
                }
            }
        }
        let ghost miss_before = t.missing@;
        let ghost unav_before = t.unavailable@;
        proof {
            lemma_filter_push(p, x, |s: Symbol| symbol_status(s) == DocumentationStatus::Missing);
            lemma_filter_push(p, x, |s: Symbol| symbol_status(s) == DocumentationStatus::Unavailable);
        }
        if st == DocumentationStatus::Missing {
            t.missing.push(make_evidence(f, s));
            proof {
                let xs = flagged(fs, DocumentationStatus::Missing) + p.filter(|s: Symbol| symbol_status(s) == DocumentationStatus::Missing).map_values(|s: Symbol| (*f, s));
                assert(flagged(fs, DocumentationStatus::Missing) + p.push(x).filter(|s: Symbol| symbol_status(s) == DocumentationStatus::Missing).map_values(|s: Symbol| (*f, s))
                    =~= xs.push((*f, x)));
                assert(t.missing@ =~= miss_before.push(t.missing@.last()));
                assert forall|i: int| 0 <= i < t.missing.len() implies evidence_matches(#[trigger] t.missing@[i], xs.push((*f, x))[i].0, xs.push((*f, x))[i].1) by {
                    if i < miss_before.len() {
                        assert(t.missing@[i] == miss_before[i]);
                    }
                }
                assert(flagged(fs, DocumentationStatus::Unavailable) + p.push(x).filter(|s: Symbol| symbol_status(s) == DocumentationStatus::Unavailable).map_values(|s: Symbol| (*f, s))
                    =~= flagged(fs, DocumentationStatus::Unavailable) + p.filter(|s: Symbol| symbol_status(s) == DocumentationStatus::Unavailable).map_values(|s: Symbol| (*f, s)));
            }
        } else if st == DocumentationStatus::Unavailable {
            t.unavailable.push(make_evidence(f, s));
            proof {
                let xs = flagged(fs, DocumentationStatus::Unavailable) + p.filter(|s: Symbol| symbol_status(s) == DocumentationStatus::Unavailable).map_values(|s: Symbol| (*f, s));
                assert(flagged(fs, DocumentationStatus::Unavailable) + p.push(x).filter(|s: Symbol| symbol_status(s) == DocumentationStatus::Unavailable).map_values(|s: Symbol| (*f, s))
                    =~= xs.push((*f, x)));
                assert forall|i: int| 0 <= i < t.unavailable.len() implies evidence_matches(#[trigger] t.unavailable@[i], xs.push((*f, x))[i].0, xs.push((*f, x))[i].1) by {
                    if i < unav_before.len() {
                        assert(t.unavailable@[i] == unav_before[i]);
                    }
                }
                assert(flagged(fs, DocumentationStatus::Missing) + p.push(x).filter(|s: Symbol| symbol_status(s) == DocumentationStatus::Missing).map_values(|s: Symbol| (*f, s))
                    =~= flagged(fs, DocumentationStatus::Missing) + p.filter(|s: Symbol| symbol_status(s) == DocumentationStatus::Missing).map_values(|s: Symbol| (*f, s)));
            }
        } else {
            proof {
                assert(flagged(fs, DocumentationStatus::Missing) + p.push(x).filter(|s: Symbol| symbol_status(s) == DocumentationStatus::Missing).map_values(|s: Symbol| (*f, s))
                    =~= flagged(fs, DocumentationStatus::Missing) + p.filter(|s: Symbol| symbol_status(s) == DocumentationStatus::Missing).map_values(|s: Symbol| (*f, s)));
                assert(flagged(fs, DocumentationStatus::Unavailable) + p.push(x).filter(|s: Symbol| symbol_status(s) == DocumentationStatus::Unavailable).map_values(|s: Symbol| (*f, s))
                    =~= flagged(fs, DocumentationStatus::Unavailable) + p.filter(|s: Symbol| symbol_status(s) == DocumentationStatus::Unavailable).map_values(|s: Symbol| (*f, s)));
            }
        }
        q = q + 1;
    }
    proof {
        assert(fsyms.take(idx.len() as int) =~= fsyms);
        let all2 = fs.push(*f);
        assert(all2.drop_last() =~= fs);
        assert(all_statuses(all2) == all_statuses(fs) + file_statuses(*f));
        lemma_status_count_bound(all_statuses(fs), DocumentationStatus::Documented);
        lemma_status_count_bound(all_statuses(fs), DocumentationStatus::Missing);
        lemma_status_count_bound(all_statuses(fs), DocumentationStatus::Unavailable);
        lemma_status_count_bound(file_statuses(*f), DocumentationStatus::Documented);
        lemma_status_count_bound(file_statuses(*f), DocumentationStatus::Missing);
        lemma_status_count_bound(file_statuses(*f), DocumentationStatus::Unavailable);
    }
    let ghost before_counts = t.counts;
    t.counts.add(fc);
    proof {
        lemma_counts_concat(before_counts, all_statuses(fs), fc, file_statuses(*f), t.counts);
    }
    let entry = DocumentationFileCoverage { path: crate::text::copy_string(&f.path), status: f.status, counts: fc };
    t.files.push(entry);
    let bad_file = f.status != FileAnalysisStatus::Successful;
    t.incomplete = t.incomplete || bad_file || fc.unavailable > 0;
    proof {
        let all2 = fs.push(*f);
        lemma_status_count_concat(all_statuses(fs), file_statuses(*f), DocumentationStatus::Unavailable);
        assert forall|i: int| 0 <= i < all2.len() implies file_entry_matches(#[trigger] t.files[i], all2[i]) by {
            if i < fs.len() {
                assert(t.files[i] == old_files[i]);
            }
        }
        if bad_file {
            assert(all2[fs.len() as int].status != FileAnalysisStatus::Successful);
        }
        if exists|i: int| 0 <= i < fs.len() && (#[trigger] fs[i]).status != FileAnalysisStatus::Successful {
            let i = choose|i: int| 0 <= i < fs.len() && (#[trigger] fs[i]).status != FileAnalysisStatus::Successful;
            assert(all2[i] == fs[i]);
        }
        if exists|i: int| 0 <= i < all2.len() && (#[trigger] all2[i]).status != FileAnalysisStatus::Successful {
            let i = choose|i: int| 0 <= i < all2.len() && (#[trigger] all2[i]).status != FileAnalysisStatus::Successful;
            if i < fs.len() {
                assert(fs[i] == all2[i]);
            }
        }
        assert forall|k: int| 0 <= k < 5 implies counts_match(#[trigger] t.kinds[k], kind_statuses(all2, all_kinds()[k])) by {}
        assert(flagged(all2, DocumentationStatus::Missing) == flagged(fs, DocumentationStatus::Missing) + fsyms.filter(
            |s: Symbol| symbol_status(s) == DocumentationStatus::Missing).map_values(|s: Symbol| (*f, s)));
        assert(flagged(all2, DocumentationStatus::Unavailable) == flagged(fs, DocumentationStatus::Unavailable) + fsyms.filter(
            |s: Symbol| symbol_status(s) == DocumentationStatus::Unavailable).map_values(|s: Symbol| (*f, s)));
    }
}

/// The ordering key of a path.
pub fn path_order_key_exec(p: &str) -> (k: Vec<KeyAtom>)
    ensures
        key_view(k@) == path_order_key(p@),
{
    let comps = path_components(p);
    let ghost cv = comps@.map_values(|v: Vec<char>| v@);
    let mut k: Vec<KeyAtom> = Vec::new();
    let mut i: usize = 0;
    while i < comps.len()
        invariant
            i <= comps.len(),
            cv == comps@.map_values(|v: Vec<char>| v@),
            cv == components(p@),
            key_view(k@) == cv.take(i as int).map_values(|c: Seq<char>| AtomView::Text(c)),
        decreases comps.len() - i,
    {
        let ghost before = k@;
        k.push(KeyAtom::Text(comps[i].clone()));
        proof {
            assert(cv[i as int] == comps[i as int]@);
            assert(key_view(k@) =~= key_view(before).push(AtomView::Text(cv[i as int])));
            assert(cv.take(i + 1).map_values(|c: Seq<char>| AtomView::Text(c)) =~= cv.take(i as int).map_values(
                |c: Seq<char>| AtomView::Text(c)).push(AtomView::Text(cv[i as int])));
        }
        i = i + 1;
    }
    proof {
        assert(cv.take(comps.len() as int) =~= cv);
    }
    k
}

fn copy_file_entry(e: &DocumentationFileCoverage) -> (r: DocumentationFileCoverage)
    ensures
        r.path@ == e.path@,
        r.status == e.status,
        r.counts == e.counts,
{
    DocumentationFileCoverage { path: crate::text::copy_string(&e.path), status: e.status, counts: e.counts }
}

fn copy_evidence(e: &DocumentationSymbol) -> (r: DocumentationSymbol)
    ensures
        r.path@ == e.path@,
        r.symbol_id@ == e.symbol_id@,
        r.qualified_name@ == e.qualified_name@,
        r.kind == e.kind,
        r.span == e.span,
        r.docstring_span == e.docstring_span,
        crate::analyzer::opt_text(r.reason) == crate::analyzer::opt_text(e.reason),
{
    DocumentationSymbol {
        path: crate::text::copy_string(&e.path),
        symbol_id: crate::text::copy_string(&e.symbol_id),
        qualified_name: crate::text::copy_string(&e.qualified_name),
        kind: e.kind,
        span: e.span,
        docstring_span: e.docstring_span,
        reason: crate::analyzer::copy_opt_string(&e.reason),
    }
}

fn sort_file_entries(v: &Vec<DocumentationFileCoverage>, Ghost(fs): Ghost<Seq<FileAnalysis>>) -> (r: Vec<DocumentationFileCoverage>)
    requires
        v.len() == fs.len(),
        forall|i: int| 0 <= i < fs.len() ==> file_entry_matches(#[trigger] v[i], fs[i]),
    ensures
        sorted_file_entries(r@, fs),
{
    let mut keys: Vec<Vec<KeyAtom>> = Vec::new();
    let mut i: usize = 0;
    while i < v.len()
        invariant
            i <= v.len(),
            v.len() == fs.len(),
            forall|j: int| 0 <= j < fs.len() ==> file_entry_matches(#[trigger] v[j], fs[j]),
            keys.len() == i,
            forall|j: int| 0 <= j < i ==> #[trigger] keys_view(keys@)[j] == path_order_key(fs[j].path@),
        decreases v.len() - i,
    {
        let ghost before = keys@;
        let k = path_order_key_exec(v[i].path.as_str());
        keys.push(k);
        proof {
            assert(file_entry_matches(v[i as int], fs[i as int]));
            assert(keys_view(keys@) =~= keys_view(before).push(key_view(k@)));
        }
        i = i + 1;
    }
    proof {
        assert(keys_view(keys@) =~= fs.map_values(|f: FileAnalysis| path_order_key(f.path@)));
    }
    let order = sorted_order(&keys);
    let mut r: Vec<DocumentationFileCoverage> = Vec::new();
    let mut j: usize = 0;
    while j < order.len()
        invariant
            j <= order.len(),
            v.len() == fs.len(),
            is_permutation(order@, keys.len() as nat),
            keys.len() == v.len(),
            forall|k: int| 0 <= k < fs.len() ==> file_entry_matches(#[trigger] v[k], fs[k]),
            r.len() == j,
            forall|k: int| 0 <= k < j ==> file_entry_matches(#[trigger] r@[k], fs[order[k] as int]),
        decreases order.len() - j,
    {
        let e = copy_file_entry(&v[order[j]]);
        proof {
            assert(order[j as int] < v.len());
            assert(file_entry_matches(v[order[j as int] as int], fs[order[j as int] as int]));
        }
        r.push(e);
        j = j + 1;
    }
    proof {
        assert(is_stable_order(fs.map_values(|f: FileAnalysis| path_order_key(f.path@)), order@));
    }
    r
}

fn evidence_key_exec(e: &DocumentationSymbol) -> (k: Vec<KeyAtom>)
    ensures
        key_view(k@) == path_order_key(e.path@) + seq![AtomView::Num(e.span.start_byte as int), AtomView::Text(e.symbol_id@)],
{
    let mut k = path_order_key_exec(e.path.as_str());
    let ghost before = k@;
    k.push(KeyAtom::Num(e.span.start_byte as u64));
    k.push(KeyAtom::Text(crate::order::text_chars(e.symbol_id.as_str())));
    proof {
        assert(key_view(k@) =~= key_view(before) + seq![AtomView::Num(e.span.start_byte as int), AtomView::Text(e.symbol_id@)]);
    }
    k
}

fn sort_evidence(v: &Vec<DocumentationSymbol>, Ghost(xs): Ghost<Seq<(FileAnalysis, Symbol)>>) -> (r: Vec<DocumentationSymbol>)
    requires
        evidence_list_matches(v@, xs),
    ensures
        sorted_evidence(r@, xs),
{
    let mut keys: Vec<Vec<KeyAtom>> = Vec::new();
    let mut i: usize = 0;
    while i < v.len()
        invariant
            i <= v.len(),
            evidence_list_matches(v@, xs),
            keys.len() == i,
            forall|j: int| 0 <= j < i ==> #[trigger] keys_view(keys@)[j] == evidence_key(xs[j]),
        decreases v.len() - i,
    {
        let ghost before = keys@;
        let k = evidence_key_exec(&v[i]);
        keys.push(k);
        proof {
            assert(evidence_matches(v@[i as int], xs[i as int].0, xs[i as int].1));
            assert(keys_view(keys@) =~= keys_view(before).push(key_view(k@)));
        }
        i = i + 1;
    }
    proof {
        assert(keys_view(keys@) =~= xs.map_values(|x: (FileAnalysis, Symbol)| evidence_key(x)));
    }
    let order = sorted_order(&keys);
    let mut r: Vec<DocumentationSymbol> = Vec::new();
    let mut j: usize = 0;
    while j < order.len()
        invariant
            j <= order.len(),
            is_permutation(order@, keys.len() as nat),
            keys.len() == v.len(),
            evidence_list_matches(v@, xs),
            r.len() == j,
            forall|k: int| 0 <= k < j ==> evidence_matches(#[trigger] r@[k], xs[order[k] as int].0, xs[order[k] as int].1),
        decreases order.len() - j,
    {
        let e = copy_evidence(&v[order[j]]);
        proof {
            assert(order[j as int] < v.len());
            assert(evidence_matches(v@[order[j as int] as int], xs[order[j as int] as int].0, xs[order[j as int] as int].1));
        }
        r.push(e);
        j = j + 1;
    }
    proof {
        assert(is_stable_order(xs.map_values(|x: (FileAnalysis, Symbol)| evidence_key(x)), order@));
    }
    r
}

fn documentation_language_exec(analyzers: &[AnalyzerRun], l: &LanguageId) -> (r: bool)
    ensures
        r == documentation_language(analyzers@, l@),
{
    let mut i: usize = 0;
    while i < analyzers.len()
        invariant
            i <= analyzers.len(),
            forall|j: int| 0 <= j < i ==> !(documentation_capable(#[trigger] analyzers@[j]) && analyzers@[j].descriptor.language@ == l@),
        decreases analyzers.len() - i,
    {
        if analyzers[i].descriptor.has_capability(AnalyzerCapability::Documentation)
            && analyzers[i].descriptor.language.same(l) {
            assert(documentation_capable(analyzers@[i as int]));
            return true;
        }
        i = i + 1;
    }
    false
}

fn unsupported_selected(selected: &[String], analyzers: &[AnalyzerRun]) -> (r: usize)
    ensures
        r == selected@.filter(|p: String| unsupported_path(analyzers@, p@)).len(),
{
    let mut n: usize = 0;
    let mut i: usize = 0;
    while i < selected.len()
        invariant
            i <= selected.len(),
            n == selected@.take(i as int).filter(|p: String| unsupported_path(analyzers@, p@)).len(),
        decreases selected.len() - i,
    {
        proof {
            assert(selected@.take(i + 1) =~= selected@.take(i as int).push(selected@[i as int]));
            lemma_filter_push(selected@.take(i as int), selected@[i as int], |p: String| unsupported_path(analyzers@, p@));
            selected@.take(i as int).lemma_filter_len(|p: String| unsupported_path(analyzers@, p@));
        }
        let bad = match crate::inventory::detect_language(selected[i].as_str()) {
            Some(l) => !documentation_language_exec(analyzers, &l),
            None => false,
        };
        if bad {
            n = n + 1;
        }
        i = i + 1;
    }
    proof {
        assert(selected@.take(selected.len() as int) =~= selected@);
    }
    n
}

fn kind_entries(kinds: &Vec<DocumentationCounts>, Ghost(files): Ghost<Seq<FileAnalysis>>) -> (r: Vec<(SymbolKind, DocumentationCounts)>)
    requires
        kinds.len() == 5,
        forall|k: int| 0 <= k < 5 ==> counts_match(#[trigger] kinds[k], kind_statuses(files, all_kinds()[k])),
    ensures
        kinds_match(r@, files),
{
    let order: Vec<SymbolKind> = vec![SymbolKind::Module, SymbolKind::Class, SymbolKind::Function, SymbolKind::Method, SymbolKind::Lambda];
    proof {
        assert(order@ =~= all_kinds());
    }
    let mut r: Vec<(SymbolKind, DocumentationCounts)> = Vec::new();
    let mut k: usize = 0;
    while k < 5
        invariant
            k <= 5,
            order@ == all_kinds(),
            kinds.len() == 5,
            forall|j: int| 0 <= j < 5 ==> counts_match(#[trigger] kinds[j], kind_statuses(files, all_kinds()[j])),
            r@.map_values(|e: (SymbolKind, DocumentationCounts)| e.0) == all_kinds().take(k as int).filter(
                |x: SymbolKind| kind_statuses(files, x).len() > 0),
            forall|i: int| 0 <= i < r.len() ==> counts_match(#[trigger] r@[i].1, kind_statuses(files, r@[i].0)),
        decreases 5 - k,
    {
        let ghost before = r@;
        proof {
            assert(all_kinds().take(k + 1) =~= all_kinds().take(k as int).push(all_kinds()[k as int]));
            lemma_filter_push(all_kinds().take(k as int), all_kinds()[k as int], |x: SymbolKind| kind_statuses(files, x).len() > 0);
            assert(counts_match(kinds[k as int], kind_statuses(files, all_kinds()[k as int])));
        }
        if kinds[k].eligible > 0 {
            r.push((order[k], kinds[k]));
            proof {
                assert(r@.map_values(|e: (SymbolKind, DocumentationCounts)| e.0) =~= before.map_values(
                    |e: (SymbolKind, DocumentationCounts)| e.0).push(all_kinds()[k as int]));
                assert forall|i: int| 0 <= i < r.len() implies counts_match(#[trigger] r@[i].1, kind_statuses(files, r@[i].0)) by {
                    if i < before.len() {
                        assert(r@[i] == before[i]);
                    }
                }
            }
        }
        k = k + 1;
    }
    proof {
        assert(all_kinds().take(5) =~= all_kinds());
    }
    r
}

pub(crate) proof fn lemma_documentation_files_step(runs: Seq<AnalyzerRun>, ri: int)
    requires
        0 <= ri < runs.len(),
    ensures
        documentation_files(runs.take(ri + 1)) == documentation_files(runs.take(ri)) + (if documentation_capable(runs[ri]) {
            runs[ri].files@
        } else {
            Seq::empty()
        }),
        run_symbol_total(runs.take(ri + 1)) == run_symbol_total(runs.take(ri)) + file_symbol_total(runs[ri].files@),
        run_file_total(runs.take(ri + 1)) == run_file_total(runs.take(ri)) + runs[ri].files.len(),
{
    assert(runs.take(ri + 1).drop_last() =~= runs.take(ri));
    assert(runs.take(ri + 1).last() == runs[ri]);
}

pub(crate) proof fn lemma_file_symbol_total_nonneg(files: Seq<FileAnalysis>)
    ensures
        file_symbol_total(files) >= 0,
    decreases files.len(),
{
    if files.len() > 0 {
        lemma_file_symbol_total_nonneg(files.drop_last());
    }
}

pub(crate) proof fn lemma_file_symbol_total_prefix(files: Seq<FileAnalysis>, n: int)
    requires
        0 <= n <= files.len(),
    ensures
        file_symbol_total(files.take(n)) <= file_symbol_total(files),
    decreases files.len(),
{
    if n < files.len() {
        assert(files.drop_last().take(n) =~= files.take(n));
        lemma_file_symbol_total_prefix(files.drop_last(), n);
    } else {
        assert(files.take(n) =~= files);
    }
}

pub(crate) proof fn lemma_run_totals_prefix(runs: Seq<AnalyzerRun>, n: int)
    requires
        0 <= n <= runs.len(),
    ensures
        run_symbol_total(runs.take(n)) <= run_symbol_total(runs),
        run_file_total(runs.take(n)) <= run_file_total(runs),
    decreases runs.len(),
{
    if n < runs.len() {
        assert(runs.drop_last().take(n) =~= runs.take(n));
        lemma_run_totals_prefix(runs.drop_last(), n);
        lemma_file_symbol_total_nonneg(runs.last().files@);
    } else {
        assert(runs.take(n) =~= runs);
    }
}

/// The documentation coverage of an analysis. When `enabled` is false the
/// coverage is disabled; otherwise it counts the eligible symbols of the
/// files of the documentation-capable analyzers, leaving out conventional
/// test files unless `include_tests` is set.
pub fn evaluate_documentation_coverage(
    enabled: bool,
    include_tests: bool,
    selected_files: &[String],
    analyzers: &[AnalyzerRun],
) -> (r: DocumentationCoverage)
    requires
        run_symbol_total(analyzers@) < usize::MAX,
        run_file_total(analyzers@) < usize::MAX,
    ensures
        !enabled ==> r.status == DocumentationCoverageStatus::Disabled && r.applicable_files == 0
            && r.skipped_test_files == 0 && r.unsupported_selected_files == 0 && counts_match(r.counts, Seq::empty())
            && r.by_kind.len() == 0 && r.files.len() == 0 && r.missing_symbols.len() == 0
            && r.unavailable_symbols.len() == 0
            && r.definition_version@ == PYTHON_DOCUMENTATION_COVERAGE_DEFINITION_VERSION@,
        enabled ==> coverage_of(r, include_tests, selected_files@, analyzers@),
{
    if !enabled {
        return DocumentationCoverage::disabled(selected_files);
    }
    let ghost runs = analyzers@;
    let unsupported = unsupported_selected(selected_files, analyzers);
    let mut kinds: Vec<DocumentationCounts> = Vec::new();
    let mut k: usize = 0;
    while k < 5
        invariant
            k <= 5,
            kinds.len() == k,
            forall|j: int| 0 <= j < k ==> #[trigger] kinds[j] == DocumentationCounts::zero_value(),
        decreases 5 - k,
    {
        kinds.push(DocumentationCounts::zero());
        k = k + 1;
    }
    let mut t = Tally {
        counts: DocumentationCounts::zero(),
        kinds,
        files: Vec::new(),
        missing: Vec::new(),
        unavailable: Vec::new(),
        incomplete: false,
    };
    proof {
        assert forall|k: int| 0 <= k < 5 implies counts_match(#[trigger] t.kinds[k], kind_statuses(Seq::<FileAnalysis>::empty(), all_kinds()[k])) by {}
        assert(runs.take(0) =~= Seq::<AnalyzerRun>::empty());
        assert(documentation_files(runs.take(0)).filter(|f: FileAnalysis| counted_file(f, include_tests)) =~= Seq::<FileAnalysis>::empty());
    }
    let mut applicable: usize = 0;
    let mut skipped: usize = 0;
    let mut ri: usize = 0;
    while ri < analyzers.len()
        invariant
            ri <= analyzers.len(),
            runs == analyzers@,
            run_symbol_total(runs) < usize::MAX,
            run_file_total(runs) < usize::MAX,
            tally_of(t, documentation_files(runs.take(ri as int)).filter(|f: FileAnalysis| counted_file(f, include_tests))),
            applicable == documentation_files(runs.take(ri as int)).filter(|f: FileAnalysis| counted_file(f, include_tests)).len(),
            applicable + skipped == documentation_files(runs.take(ri as int)).len(),
            documentation_files(runs.take(ri as int)).len() <= run_file_total(runs.take(ri as int)),
            all_statuses(documentation_files(runs.take(ri as int)).filter(|f: FileAnalysis| counted_file(f, include_tests))).len()
                <= run_symbol_total(runs.take(ri as int)),
        decreases analyzers.len() - ri,
    {
        let run = &analyzers[ri];
        let ghost walked = documentation_files(runs.take(ri as int));
        proof {
            lemma_documentation_files_step(runs, ri as int);
            lemma_run_totals_prefix(runs, ri + 1);
            lemma_file_symbol_total_nonneg(run.files@);
        }
        if run.descriptor.has_capability(AnalyzerCapability::Documentation) {
            let mut fi: usize = 0;
            proof {
                assert(walked + run.files@.take(0) =~= walked);
            }
            while fi < run.files.len()
                invariant
                    fi <= run.files.len(),
                    ri < analyzers.len(),
                    runs == analyzers@,
                    run == &analyzers[ri as int],
                    walked == documentation_files(runs.take(ri as int)),
                    run_symbol_total(runs.take(ri as int)) + file_symbol_total(run.files@) < usize::MAX,
                    run_file_total(runs.take(ri as int)) + run.files.len() < usize::MAX,
                    tally_of(t, (walked + run.files@.take(fi as int)).filter(|f: FileAnalysis| counted_file(f, include_tests))),
                    applicable == (walked + run.files@.take(fi as int)).filter(|f: FileAnalysis| counted_file(f, include_tests)).len(),
                    applicable + skipped == walked.len() + fi,
                    walked.len() <= run_file_total(runs.take(ri as int)),
                    all_statuses((walked + run.files@.take(fi as int)).filter(|f: FileAnalysis| counted_file(f, include_tests))).len()
                        <= run_symbol_total(runs.take(ri as int)) + file_symbol_total(run.files@.take(fi as int)),
                decreases run.files.len() - fi,
            {
                let f = &run.files[fi];
                let ghost before = (walked + run.files@.take(fi as int)).filter(|f: FileAnalysis| counted_file(f, include_tests));
                proof {
                    assert(walked + run.files@.take(fi + 1) =~= (walked + run.files@.take(fi as int)).push(*f));
                    lemma_filter_push(walked + run.files@.take(fi as int), *f, |f: FileAnalysis| counted_file(f, include_tests));
                    assert(run.files@.take(fi + 1).drop_last() =~= run.files@.take(fi as int));
                    lemma_file_symbol_total_prefix(run.files@, fi + 1);
                    (walked + run.files@.take(fi as int)).lemma_filter_len(|f: FileAnalysis| counted_file(f, include_tests));
                }
                if !include_tests && is_conventional_python_test(f.path.as_str()) {
                    skipped = skipped + 1;
                } else {
                    applicable = applicable + 1;
                    process_file(&mut t, f, Ghost(before));
                }
                fi = fi + 1;
            }
            proof {
                assert(run.files@.take(run.files.len() as int) =~= run.files@);
            }
        } else {
            proof {
                assert(walked + Seq::<FileAnalysis>::empty() =~= walked);
            }
        }
        ri = ri + 1;
    }
    proof {
        assert(runs.take(analyzers.len() as int) =~= runs);
    }
    let ghost counted = documentation_files(runs).filter(|f: FileAnalysis| counted_file(f, include_tests));
    let by_kind = kind_entries(&t.kinds, Ghost(counted));
    let files = sort_file_entries(&t.files, Ghost(counted));
    let missing = sort_evidence(&t.missing, Ghost(flagged(counted, DocumentationStatus::Missing)));
    let unavailable = sort_evidence(&t.unavailable, Ghost(flagged(counted, DocumentationStatus::Unavailable)));
    let status = if applicable == 0 {
        DocumentationCoverageStatus::NotApplicable
    } else if t.incomplete {
        DocumentationCoverageStatus::Partial
    } else {
        DocumentationCoverageStatus::Complete
    };
    DocumentationCoverage {
        definition_version: PYTHON_DOCUMENTATION_COVERAGE_DEFINITION_VERSION,
        status,
        applicable_files: applicable,
        skipped_test_files: skipped,
        unsupported_selected_files: unsupported,
        counts: t.counts,
        by_kind,
        files,
        missing_symbols: missing,
        unavailable_symbols: unavailable,
    }
}


/// A `test` or `tests` component anywhere in a path, first, last or in
/// between, marks the path as a test path.
pub proof fn lemma_test_component_marks_test_path(p: Seq<char>, i: int)
    requires
        0 <= i < components(p).len(),
        components(p)[i] == "test"@ || components(p)[i] == "tests"@,
    ensures
        is_test_path(p),
{
}

/// A file below a directory named `test` or `tests`, at any depth, is a
/// test path: `p/test/q` and `p/tests/q` whatever `p` and `q` are.
pub proof fn lemma_test_directory_marks_test_path(p: Seq<char>, name: Seq<char>, q: Seq<char>)
    requires
        name == "test"@ || name == "tests"@,
    ensures
        is_test_path(p + seq!['/'] + name + seq!['/'] + q),
{
    reveal_strlit("test");
    reveal_strlit("tests");
    let path = p + seq!['/'] + name + seq!['/'] + q;
    let tail = name + seq!['/'] + q;
    assert(path =~= p + seq!['/'] + tail);
    lemma_split_concat(p, tail);
    lemma_split_concat(name, q);
    assert forall|k: int| 0 <= k < name.len() implies name[k] != '/' by {
        if name == "test"@ {
            assert(name =~= seq!['t', 'e', 's', 't']);
        } else {
            assert(name =~= seq!['t', 'e', 's', 't', 's']);
        }
    }
    lemma_split_plain(name);
    let pieces = split_pieces(path);
    let at = split_pieces(p).len() as int;
    assert(pieces == split_pieces(p) + (seq![name] + split_pieces(q)));
    assert(pieces[at] == name);
    assert(is_named_piece(name)) by {
        if name == "test"@ {
            assert(name =~= seq!['t', 'e', 's', 't']);
        } else {
            assert(name =~= seq!['t', 'e', 's', 't', 's']);
        }
        assert(name.len() != 1);
    }
    let pred = |s: Seq<char>| is_named_piece(s);
    pieces.lemma_filter_contains(pred, at);
    assert(components(path) == pieces.filter(pred));
    assert(components(path).contains(name));
    let j = choose|j: int| 0 <= j < components(path).len() && components(path)[j] == name;
    lemma_test_component_marks_test_path(path, j);
}


/// A file named `conftest.py`, `test_<anything>` or `<anything>_test.py`,
/// alone or below any directory, is a test path.
pub proof fn lemma_test_file_names(d: Seq<char>, n: Seq<char>)
    requires
        forall|k: int| 0 <= k < n.len() ==> n[k] != '/',
        n == "conftest.py"@ || (n.len() >= 5 && n.subrange(0, 5) == "test_"@) || (n.len() >= 8 && n.subrange(
            n.len() - 8,
            n.len() as int,
        ) == "_test.py"@),
    ensures
        is_test_path(n),
        is_test_path(d + seq!['/'] + n),
{
    reveal_strlit("conftest.py");
    reveal_strlit("test_");
    reveal_strlit("_test.py");
    assert(n.len() >= 5);
    assert(is_named_piece(n));
    assert(n != seq!['.', '.']);
    lemma_file_name_of_last_piece(d, n);
}

} // verus!
