//! File categories by rule: exact filenames, filename or path regexes and
//! extensions, the most specific rule winning, and how the rules are checked
//! and compiled.

use vstd::prelude::*;

use crate::dependencies::{debug_quoted, debug_text};
use crate::error::InventoryError;
use crate::report::{file_category_index, file_category_name, FileCategory, InventoryDiagnostic};
use crate::order::{covers_key, key_compare, key_view, keys_view, AtomView, KeyAtom};
use crate::text::{push_text, text_eq};

verus! {

/// The regular expression type of the `regex` crate.
#[verifier::external_type_specification]
#[verifier::external_body]
pub struct ExRegex(regex::Regex);

/// How specific a matching rule is, from least to most.
#[derive(Debug, Clone, Copy, PartialEq, Eq, Structural)]
pub enum Specificity {
    Extension,
    FilenameRegex,
    ExactFilename,
}

pub open spec fn specificity_rank(s: Specificity) -> int {
    match s {
        Specificity::Extension => 0,
        Specificity::FilenameRegex => 1,
        Specificity::ExactFilename => 2,
    }
}

pub open spec fn specificity_name(s: Specificity) -> Seq<char> {
    match s {
        Specificity::Extension => "extension"@,
        Specificity::FilenameRegex => "filename regex"@,
        Specificity::ExactFilename => "exact filename"@,
    }
}

impl Specificity {
    /// How the specificity is described in messages.
    pub fn description(self) -> (r: &'static str)
        ensures
            r@ == specificity_name(self),
    {
        match self {
            Specificity::Extension => "extension",
            Specificity::FilenameRegex => "filename regex",
            Specificity::ExactFilename => "exact filename",
        }
    }

    pub fn rank(self) -> (r: u8)
        ensures
            r as int == specificity_rank(self),
    {
        match self {
            Specificity::Extension => 0,
            Specificity::FilenameRegex => 1,
            Specificity::ExactFilename => 2,
        }
    }
}

/// What a regex is matched against: the filename alone, or the whole
/// repository-relative path when the pattern holds a `/`.
#[derive(Debug, Clone, Copy, PartialEq, Eq, Structural)]
pub enum RegexTarget {
    Filename,
    RelativePath,
}

/// The pattern that is compiled for a raw regex: anchored at both ends.
pub open spec fn anchored(raw: Seq<char>) -> Seq<char> {
    "\\A(?:"@ + raw + ")\\z"@
}

/// Whether the regex compiled from `pattern` matches somewhere in `text`,
/// as `regex::Regex::is_match` reports.
pub uninterp spec fn regex_accepts(pattern: Seq<char>, text: Seq<char>) -> bool;

/// The error text of `regex::Regex::new` for `pattern`, or `None` when the
/// pattern compiles.
pub uninterp spec fn regex_new_error(pattern: Seq<char>) -> Option<Seq<char>>;

/// A regex together with the pattern text it was compiled from. It is only
/// built by [`BuiltRegex::build`].
#[derive(Debug)]
pub struct BuiltRegex {
    pattern: String,
    regex: regex::Regex,
}

/// A compiled category regex: the anchored form of `raw`.
#[derive(Debug)]
pub struct CompiledRegex {
    raw: String,
    target: RegexTarget,
    compiled: BuiltRegex,
}

impl CompiledRegex {
    #[verifier::type_invariant]
    closed spec fn compiled_from_raw(&self) -> bool {
        self.compiled.pattern@ == anchored(self.raw@)
    }
}

/// Compiles a pattern with `regex::Regex::new`. The result, and the text of
/// the error, depend on the pattern alone; they are named, not stated.
#[verifier::external_body]
fn build_regex(pattern: &str) -> (r: Result<regex::Regex, String>)
    ensures
        match regex_new_error(pattern@) {
            None => r is Ok,
            Some(e) => r matches Err(m) && m@ == e,
        },
{
    regex::Regex::new(pattern).map_err(|e| e.to_string())
}

/// Matches a regex with `regex::Regex::is_match`. The regex was compiled
/// from the pattern it keeps, so the answer is the one named for that
/// pattern and the text.
#[verifier::external_body]
fn regex_is_match(b: &BuiltRegex, text: &str) -> (r: bool)
    ensures
        r == regex_accepts(b@, text@),
{
    b.regex.is_match(text)
}

impl View for BuiltRegex {
    type V = Seq<char>;

    /// The pattern text the regex was compiled from.
    closed spec fn view(&self) -> Seq<char> {
        self.pattern@
    }
}

impl BuiltRegex {
    /// Compiles a pattern; the error is the text `regex` gives.
    pub fn build(pattern: &str) -> (r: Result<BuiltRegex, String>)
        ensures
            match regex_new_error(pattern@) {
                None => r matches Ok(b) && b@ == pattern@,
                Some(e) => r matches Err(m) && m@ == e,
            },
    {
        match build_regex(pattern) {
            Ok(regex) => Ok(BuiltRegex { pattern: pattern.to_owned(), regex }),
            Err(e) => Err(e),
        }
    }

    /// Whether the regex matches somewhere in the text.
    pub fn is_match(&self, text: &str) -> (r: bool)
        ensures
            r == regex_accepts(self@, text@),
    {
        regex_is_match(self, text)
    }
}

/// Whether a compiled regex matches a file: its filename, or its whole path
/// for a path regex.
pub open spec fn compiled_matches(raw: Seq<char>, target: RegexTarget, filename: Option<Seq<char>>, path: Seq<char>) -> bool {
    match target {
        RegexTarget::Filename => filename is Some && regex_accepts(anchored(raw), filename->0),
        RegexTarget::RelativePath => regex_accepts(anchored(raw), path),
    }
}

impl View for CompiledRegex {
    type V = (Seq<char>, RegexTarget);

    closed spec fn view(&self) -> (Seq<char>, RegexTarget) {
        (self.raw@, self.target)
    }
}

impl CompiledRegex {
    /// The pattern as configured.
    pub fn raw(&self) -> (r: &str)
        ensures
            r@ == self@.0,
    {
        self.raw.as_str()
    }

    /// Whether the regex matches a file with this filename and path.
    pub fn is_match(&self, filename: Option<&str>, relative_path: &str) -> (r: bool)
        ensures
            r == compiled_matches(self@.0, self@.1, match filename {
                Some(f) => Some(f@),
                None => None,
            }, relative_path@),
    {
        proof {
            use_type_invariant(self);
        }
        match self.target {
            RegexTarget::Filename => match filename {
                Some(name) => self.compiled.is_match(name),
                None => false,
            },
            RegexTarget::RelativePath => self.compiled.is_match(relative_path),
        }
    }
}

} // verus!

verus! {

/// Whether one of the strings is `x`.
pub open spec fn holds_text(v: Seq<String>, x: Seq<char>) -> bool {
    exists|i: int| 0 <= i < v.len() && (#[trigger] v[i])@ == x
}

fn holds_text_exec(v: &Vec<String>, x: &str) -> (r: bool)
    ensures
        r == holds_text(v@, x@),
{
    let mut i: usize = 0;
    while i < v.len()
        invariant
            i <= v.len(),
            forall|k: int| 0 <= k < i ==> (#[trigger] v@[k])@ != x@,
        decreases v.len() - i,
    {
        if text_eq(v[i].as_str(), x) {
            return true;
        }
        i = i + 1;
    }
    false
}

/// What a raw pattern is matched against.
pub open spec fn target_of(raw: Seq<char>) -> RegexTarget {
    if raw.contains('/') {
        RegexTarget::RelativePath
    } else {
        RegexTarget::Filename
    }
}

/// The message for a pattern that does not compile.
pub open spec fn regex_error_message(category: FileCategory, field: Seq<char>, raw: Seq<char>, error: Seq<char>) -> Seq<char> {
    "category "@ + file_category_name(category) + " has invalid "@ + field + " pattern "@ + debug_text(raw) + ": "@
        + error
}

/// Whether `v` lists the distinct patterns of `ps` in ascending order.
pub open spec fn ascending_distinct(v: Seq<Seq<char>>, ps: Seq<Seq<char>>) -> bool {
    &&& forall|i: int, j: int| 0 <= i < j < v.len() ==> crate::order::text_compare(v[i], v[j]) == -1
    &&& forall|x: Seq<char>| v.contains(x) <==> ps.contains(x)
}

fn contains_slash(s: &str) -> (r: bool)
    ensures
        r == s@.contains('/'),
{
    let chars = crate::order::text_chars(s);
    let mut i: usize = 0;
    while i < chars.len()
        invariant
            i <= chars.len(),
            chars@ == s@,
            forall|k: int| 0 <= k < i ==> chars@[k] != '/',
        decreases chars.len() - i,
    {
        if chars[i] == '/' {
            return true;
        }
        i = i + 1;
    }
    false
}

/// Compiles one pattern, anchored at both ends.
pub fn compile_regex(category: FileCategory, field: &str, raw: &str, path: &Option<String>) -> (r: Result<
    CompiledRegex,
    InventoryError,
>)
    ensures
        match regex_new_error(anchored(raw@)) {
            None => r matches Ok(c) && c@ == (raw@, target_of(raw@)),
            Some(e) => r matches Err(InventoryError::Configuration { path: p, message: m }) && crate::analyzer::opt_text(p)
                == crate::analyzer::opt_text(*path) && m@ == regex_error_message(category, field@, raw@, e),
        },
{
    let target = if contains_slash(raw) {
        RegexTarget::RelativePath
    } else {
        RegexTarget::Filename
    };
    let mut pattern = String::new();
    push_text(&mut pattern, "\\A(?:");
    push_text(&mut pattern, raw);
    push_text(&mut pattern, ")\\z");
    assert(pattern@ =~= anchored(raw@));
    match BuiltRegex::build(pattern.as_str()) {
        Ok(compiled) => Ok(CompiledRegex { raw: raw.to_owned(), target, compiled }),
        Err(error) => {
            let mut message = String::new();
            push_text(&mut message, "category ");
            push_text(&mut message, category.as_str());
            push_text(&mut message, " has invalid ");
            push_text(&mut message, field);
            push_text(&mut message, " pattern ");
            let quoted = debug_quoted(raw);
            push_text(&mut message, quoted.as_str());
            push_text(&mut message, ": ");
            push_text(&mut message, error.as_str());
            assert(message@ =~= regex_error_message(category, field@, raw@, error@));
            Err(InventoryError::Configuration { path: crate::analyzer::copy_opt_string(path), message })
        },
    }
}

/// Compiles the distinct patterns of a rule field in ascending order; the
/// first that does not compile is the error.
pub fn compile_regexes(category: FileCategory, field: &str, patterns: &Vec<String>, path: &Option<String>) -> (r: Result<
    Vec<CompiledRegex>,
    InventoryError,
>)
    ensures
        match r {
            Ok(v) => ascending_distinct(
                v@.map_values(|c: CompiledRegex| c@.0),
                patterns@.map_values(|s: String| s@),
            ) && (forall|i: int| 0 <= i < v.len() ==> (#[trigger] v@[i])@.1 == target_of(v@[i]@.0)) && (forall|
                i: int,
            | 0 <= i < patterns.len() ==> regex_new_error(anchored((#[trigger] patterns@[i])@)) is None),
            Err(InventoryError::Configuration { path: p, message: m }) => crate::analyzer::opt_text(p)
                == crate::analyzer::opt_text(*path) && exists|i: int|
                0 <= i < patterns.len() && (regex_new_error(anchored((#[trigger] patterns@[i])@)) matches Some(e) && m@
                    == regex_error_message(category, field@, patterns@[i]@, e)) && (forall|k: int|
                    0 <= k < patterns.len() && crate::order::text_compare(patterns@[k]@, patterns@[i]@) == -1
                        ==> regex_new_error(anchored(patterns@[k]@)) is None),
            Err(_) => false,
        },
{
    let ghost pv = patterns@.map_values(|s: String| s@);
    let mut keys: Vec<Vec<KeyAtom>> = Vec::new();
    let mut i: usize = 0;
    while i < patterns.len()
        invariant
            i <= patterns.len(),
            keys.len() == i,
            forall|k: int| 0 <= k < i ==> key_view(#[trigger] keys@[k]@) == seq![AtomView::Text(patterns@[k]@)],
        decreases patterns.len() - i,
    {
        let mut key: Vec<KeyAtom> = Vec::new();
        key.push(KeyAtom::Text(crate::order::text_chars(patterns[i].as_str())));
        proof {
            assert(key_view(key@) =~= seq![AtomView::Text(patterns@[i as int]@)]);
        }
        keys.push(key);
        i = i + 1;
    }
    let order = crate::order::unique_sorted_order(&keys);
    let ghost kv = keys_view(keys@);
    proof {
        assert forall|a: int, b: int| 0 <= a < keys.len() && 0 <= b < keys.len() implies key_compare(kv[a], kv[b])
            == crate::order::text_compare(patterns@[a]@, patterns@[b]@) by {
            assert(kv[a] == key_view(keys@[a]@));
            assert(kv[b] == key_view(keys@[b]@));
            crate::graph::lemma_single_text_key(patterns@[a]@, patterns@[b]@);
        }
    }
    let mut out: Vec<CompiledRegex> = Vec::new();
    let mut q: usize = 0;
    while q < order.len()
        invariant
            q <= order.len(),
            kv == keys_view(keys@),
            keys.len() == patterns.len(),
            forall|a: int, b: int| 0 <= a < keys.len() && 0 <= b < keys.len() ==> key_compare(kv[a], kv[b])
                == crate::order::text_compare(patterns@[a]@, patterns@[b]@),
            forall|t: int| 0 <= t < order.len() ==> #[trigger] order[t] < keys.len(),
            forall|t: int, u: int| 0 <= t < u < order.len() ==> key_compare(kv[order[t] as int], kv[order[u] as int]) == -1,
            forall|k: int| 0 <= k < keys.len() ==> #[trigger] covers_key(kv, order@, k),
            out.len() == q,
            forall|t: int| 0 <= t < q ==> (#[trigger] out@[t])@ == (patterns@[order[t] as int]@, target_of(patterns@[order[t] as int]@)),
            forall|t: int| 0 <= t < q ==> regex_new_error(anchored(patterns@[#[trigger] order[t] as int]@)) is None,
        decreases order.len() - q,
    {
        let idx = order[q];
        match compile_regex(category, field, patterns[idx].as_str(), path) {
            Ok(c) => {
                out.push(c);
            },
            Err(e) => {
                proof {
                    assert forall|k: int|
                        0 <= k < patterns.len() && crate::order::text_compare(patterns@[k]@, patterns@[idx as int]@) == -1
                            implies regex_new_error(anchored(patterns@[k]@)) is None by {
                        assert(covers_key(kv, order@, k));
                        let t = choose|t: int| 0 <= t < order.len() && kv[order[t] as int] == kv[k];
                        crate::order::lemma_key_facts(kv[order[t] as int], kv[k]);
                        crate::order::lemma_key_facts(kv[k], kv[idx as int]);
                        if t >= q {
                            if t > q {
                                crate::order::lemma_key_facts(kv[idx as int], kv[order[t] as int]);
                            }
                            assert(false);
                        }
                        crate::order::lemma_text_facts(patterns@[k]@, patterns@[order[t] as int]@);
                    }
                }
                return Err(e);
            },
        }
        q = q + 1;
    }
    proof {
        let rv = out@.map_values(|c: CompiledRegex| c@.0);
        assert forall|a: int, b: int| 0 <= a < b < rv.len() implies crate::order::text_compare(rv[a], rv[b]) == -1 by {
            assert(rv[a] == patterns@[order[a] as int]@);
            assert(rv[b] == patterns@[order[b] as int]@);
            assert(key_compare(kv[order[a] as int], kv[order[b] as int]) == -1);
        }
        assert forall|x: Seq<char>| rv.contains(x) implies pv.contains(x) by {
            let a = choose|a: int| 0 <= a < rv.len() && rv[a] == x;
            assert(pv[order[a] as int] == x);
        }
        assert forall|x: Seq<char>| pv.contains(x) implies rv.contains(x) by {
            let k = choose|k: int| 0 <= k < pv.len() && pv[k] == x;
            assert(covers_key(kv, order@, k));
            let t = choose|t: int| 0 <= t < order.len() && kv[order[t] as int] == kv[k];
            crate::order::lemma_key_facts(kv[order[t] as int], kv[k]);
            crate::order::lemma_text_facts(patterns@[order[t] as int]@, patterns@[k]@);
            assert(rv[t] == x);
        }
        assert forall|k: int| 0 <= k < patterns.len() implies regex_new_error(anchored((#[trigger] patterns@[k])@)) is None by {
            assert(covers_key(kv, order@, k));
            let t = choose|t: int| 0 <= t < order.len() && kv[order[t] as int] == kv[k];
            crate::order::lemma_key_facts(kv[order[t] as int], kv[k]);
            crate::order::lemma_text_facts(patterns@[order[t] as int]@, patterns@[k]@);
        }
    }
    Ok(out)
}

} // verus!

verus! {

/// The rule of one category, compiled.
#[derive(Debug)]
pub struct CategoryRule {
    pub include_extensions: Vec<String>,
    pub include_filenames: Vec<String>,
    pub include_filename_regexes: Vec<CompiledRegex>,
    pub exclude_filenames: Vec<String>,
    pub exclude_filename_regexes: Vec<CompiledRegex>,
}

/// The regex among `rs` from `k` on that first matches a file.
pub open spec fn first_regex_match(rs: Seq<CompiledRegex>, filename: Option<Seq<char>>, path: Seq<char>, k: int) -> Option<
    int,
>
    decreases rs.len() - k,
{
    if k < 0 || k >= rs.len() {
        None
    } else if compiled_matches(rs[k]@.0, rs[k]@.1, filename, path) {
        Some(k)
    } else {
        first_regex_match(rs, filename, path, k + 1)
    }
}

/// Whether a rule excludes a file, by its filename or by a regex.
pub open spec fn rule_excludes(r: CategoryRule, filename: Option<Seq<char>>, path: Seq<char>) -> bool {
    (filename is Some && holds_text(r.exclude_filenames@, filename->0)) || first_regex_match(
        r.exclude_filename_regexes@,
        filename,
        path,
        0,
    ) is Some
}

/// How a rule matches a file that it does not exclude: by its exact
/// filename, else by the first regex that matches, else by its extension.
pub open spec fn rule_match(r: CategoryRule, filename: Option<Seq<char>>, extension: Option<Seq<char>>, path: Seq<char>) -> Option<
    (Specificity, Seq<char>),
> {
    if rule_excludes(r, filename, path) {
        None
    } else if filename is Some && holds_text(r.include_filenames@, filename->0) {
        Some((Specificity::ExactFilename, filename->0))
    } else {
        match first_regex_match(r.include_filename_regexes@, filename, path, 0) {
            Some(k) => Some((Specificity::FilenameRegex, r.include_filename_regexes@[k]@.0)),
            None => if extension is Some && holds_text(r.include_extensions@, extension->0) {
                Some((Specificity::Extension, extension->0))
            } else {
                None
            },
        }
    }
}

/// How a rule matched: how specifically, and by which selector.
#[derive(Debug)]
pub struct RuleMatch {
    pub specificity: Specificity,
    pub selector: String,
}

pub open spec fn opt_str(o: Option<&str>) -> Option<Seq<char>> {
    match o {
        Some(s) => Some(s@),
        None => None,
    }
}

fn first_regex_exec(rs: &Vec<CompiledRegex>, filename: Option<&str>, path: &str) -> (r: Option<usize>)
    ensures
        match r {
            Some(k) => first_regex_match(rs@, opt_str(filename), path@, 0) == Some(k as int) && k < rs.len(),
            None => first_regex_match(rs@, opt_str(filename), path@, 0) is None,
        },
{
    let mut k: usize = 0;
    while k < rs.len()
        invariant
            k <= rs.len(),
            first_regex_match(rs@, opt_str(filename), path@, 0) == first_regex_match(rs@, opt_str(filename), path@, k as int),
        decreases rs.len() - k,
    {
        if rs[k].is_match(filename, path) {
            return Some(k);
        }
        k = k + 1;
    }
    None
}

impl CategoryRule {
    /// Whether the rule excludes a file.
    pub fn is_excluded(&self, filename: Option<&str>, relative_path: &str) -> (r: bool)
        ensures
            r == rule_excludes(*self, opt_str(filename), relative_path@),
    {
        let by_name = match filename {
            Some(name) => holds_text_exec(&self.exclude_filenames, name),
            None => false,
        };
        by_name || first_regex_exec(&self.exclude_filename_regexes, filename, relative_path).is_some()
    }

    /// How the rule matches a file, if it does.
    pub fn matched_by(&self, filename: Option<&str>, extension: Option<&str>, relative_path: &str) -> (r: Option<RuleMatch>)
        ensures
            match rule_match(*self, opt_str(filename), opt_str(extension), relative_path@) {
                Some((s, sel)) => r matches Some(m) && m.specificity == s && m.selector@ == sel,
                None => r is None,
            },
    {
        if self.is_excluded(filename, relative_path) {
            return None;
        }
        match filename {
            Some(name) => {
                if holds_text_exec(&self.include_filenames, name) {
                    return Some(RuleMatch { specificity: Specificity::ExactFilename, selector: name.to_owned() });
                }
            },
            None => {},
        }
        match first_regex_exec(&self.include_filename_regexes, filename, relative_path) {
            Some(k) => {
                return Some(
                    RuleMatch {
                        specificity: Specificity::FilenameRegex,
                        selector: self.include_filename_regexes[k].raw().to_owned(),
                    },
                );
            },
            None => {},
        }
        match extension {
            Some(value) => {
                if holds_text_exec(&self.include_extensions, value) {
                    return Some(RuleMatch { specificity: Specificity::Extension, selector: value.to_owned() });
                }
            },
            None => {},
        }
        None
    }
}

} // verus!

verus! {

/// The category at a position of the fixed order.
pub open spec fn category_at(i: int) -> FileCategory {
    if i == 0 {
        FileCategory::Source
    } else if i == 1 {
        FileCategory::Documentation
    } else if i == 2 {
        FileCategory::Configuration
    } else if i == 3 {
        FileCategory::Data
    } else if i == 4 {
        FileCategory::Assets
    } else {
        FileCategory::Uncategorized
    }
}

pub(crate) fn category_at_exec(i: usize) -> (c: FileCategory)
    ensures
        c == category_at(i as int),
{
    if i == 0 {
        FileCategory::Source
    } else if i == 1 {
        FileCategory::Documentation
    } else if i == 2 {
        FileCategory::Configuration
    } else if i == 3 {
        FileCategory::Data
    } else if i == 4 {
        FileCategory::Assets
    } else {
        FileCategory::Uncategorized
    }
}

pub type Candidate = Option<(Specificity, Seq<char>)>;

/// The highest specificity rank among the first `n` matches; -1 for none.
pub open spec fn highest_rank(c: Seq<Candidate>, n: int) -> int
    decreases n,
{
    if n <= 0 {
        -1
    } else {
        let h = highest_rank(c, n - 1);
        match c[n - 1] {
            Some((s, _)) => if specificity_rank(s) > h {
                specificity_rank(s)
            } else {
                h
            },
            None => h,
        }
    }
}

pub open spec fn is_winner(c: Seq<Candidate>, h: int, i: int) -> bool {
    c[i] matches Some((s, _)) && specificity_rank(s) == h
}

/// The positions among the first `n` whose match has rank `h`.
pub open spec fn winners(c: Seq<Candidate>, h: int, n: int) -> Seq<int>
    decreases n,
{
    if n <= 0 {
        Seq::empty()
    } else {
        winners(c, h, n - 1) + if is_winner(c, h, n - 1) {
            seq![n - 1]
        } else {
            Seq::<int>::empty()
        }
    }
}

/// The texts joined with `; `.
pub open spec fn join_semicolon(s: Seq<Seq<char>>) -> Seq<char>
    decreases s.len(),
{
    if s.len() == 0 {
        Seq::empty()
    } else if s.len() == 1 {
        s[0]
    } else {
        join_semicolon(s.drop_last()) + "; "@ + s.last()
    }
}

/// How a winning category is named in a conflict.
pub open spec fn conflict_entry(c: Seq<Candidate>, i: int) -> Seq<char> {
    file_category_name(category_at(i)) + ": "@ + debug_text((c[i]->0).1)
}

/// The selector text of a conflict between several winners.
pub open spec fn conflict_selector(c: Seq<Candidate>, ws: Seq<int>) -> Seq<char> {
    "multiple "@ + specificity_name((c[ws[0]]->0).0) + " rules at the same specificity ("@ + join_semicolon(
        ws.map_values(|i: int| conflict_entry(c, i)),
    ) + ")"@
}

/// The warning that the winner `w`, matched by `wm`, overrides the less
/// specific match `im` of category `i`.
pub open spec fn override_message(path: Seq<char>, w: int, wm: (Specificity, Seq<char>), i: int, im: (Specificity, Seq<char>)) -> Seq<
    char,
> {
    path + " is categorized as "@ + file_category_name(category_at(w)) + " by "@ + specificity_name(wm.0) + " "@
        + debug_text(wm.1) + ", overriding "@ + file_category_name(category_at(i)) + " by "@ + specificity_name(im.0)
        + " "@ + debug_text(im.1) + "; "@ + "add "@ + debug_text(wm.1) + " to "@ + file_category_name(category_at(i))
        + if wm.0 == Specificity::ExactFilename {
        ".exclude_filenames"@
    } else {
        ".exclude_filename_regexes"@
    } + " to make the exception explicit"@
}

/// The warnings for the first `n` matches that the winner overrides.
pub open spec fn override_warnings(path: Seq<char>, c: Seq<Candidate>, w: int, h: int, n: int) -> Seq<(Seq<char>, Seq<char>)>
    decreases n,
{
    if n <= 0 {
        Seq::empty()
    } else {
        override_warnings(path, c, w, h, n - 1) + if c[n - 1] matches Some((s, _)) && specificity_rank(s) < h {
            seq![("category-more-specific-rule-wins"@, override_message(path, w, c[w]->0, n - 1, c[n - 1]->0))]
        } else {
            Seq::empty()
        }
    }
}

/// A path with `\` written as `/`.
pub open spec fn forward_slashes(p: Seq<char>) -> Seq<char> {
    p.map_values(|ch: char| if ch == '\\' { '/' } else { ch })
}

pub open spec fn lowered(e: Option<Seq<char>>) -> Option<Seq<char>> {
    match e {
        Some(x) => Some(crate::paths::ascii_lower(x)),
        None => None,
    }
}

/// The match of each category's rule for a file, in the fixed order.
pub open spec fn file_candidates(rules: Seq<CategoryRule>, relative_path: Seq<char>) -> Seq<Candidate> {
    Seq::new(
        6,
        |i: int|
            rule_match(
                rules[i],
                crate::paths::file_name(relative_path),
                lowered(crate::paths::extension(relative_path)),
                forward_slashes(relative_path),
            ),
    )
}

pub open spec fn diagnostics_view(d: Seq<InventoryDiagnostic>) -> Seq<(Seq<char>, Seq<char>)> {
    d.map_values(|x: InventoryDiagnostic| (x.code@, x.message@))
}

/// Classifies files by the rules of the six categories, in the fixed order.
#[derive(Debug)]
pub struct CategoryClassifier {
    pub rules: Vec<CategoryRule>,
}

fn option_text(v: &Option<Vec<char>>) -> (r: Option<String>)
    ensures
        match v {
            Some(x) => r matches Some(s) && s@ == x@,
            None => r is None,
        },
{
    match v {
        Some(x) => Some(crate::text::string_from_chars(x)),
        None => None,
    }
}

fn as_opt_str(v: &Option<String>) -> (r: Option<&str>)
    ensures
        opt_str(r) == crate::analyzer::opt_text(*v),
{
    match v {
        Some(s) => Some(s.as_str()),
        None => None,
    }
}

fn push_conflict_entry(out: &mut String, i: usize, m: &RuleMatch)
    ensures
        final(out)@ == old(out)@ + file_category_name(category_at(i as int)) + ": "@ + debug_text(m.selector@),
{
    push_text(out, category_at_exec(i).as_str());
    push_text(out, ": ");
    let q = debug_quoted(m.selector.as_str());
    push_text(out, q.as_str());
}

impl CategoryClassifier {
    /// The category of a file by the most specific matching rule:
    /// uncategorized when none matches, an error when several categories
    /// match at the highest specificity, and otherwise the winner, with a
    /// warning for each less specific match it overrides when warnings are
    /// wanted.
    #[verifier::rlimit(40)]
    pub fn classify(&self, relative_path: &str, diagnostics: &mut Vec<InventoryDiagnostic>, emit_warnings: bool) -> (r:
        Result<FileCategory, InventoryError>)
        requires
            self.rules.len() == 6,
        ensures
            ({
                let c = file_candidates(self.rules@, relative_path@);
                let h = highest_rank(c, 6);
                let ws = winners(c, h, 6);
                if h < 0 {
                    r == Ok::<FileCategory, InventoryError>(FileCategory::Uncategorized) && final(diagnostics)@
                        == old(diagnostics)@
                } else if ws.len() > 1 {
                    &&& r matches Err(InventoryError::CategoryConflict { path, selector, categories })
                    &&& path@ == relative_path@
                    &&& selector@ == conflict_selector(c, ws)
                    &&& categories@.map_values(|x: String| x@) == ws.map_values(|i: int| file_category_name(category_at(i)))
                    &&& final(diagnostics)@ == old(diagnostics)@
                } else {
                    &&& ws.len() == 1
                    &&& r == Ok::<FileCategory, InventoryError>(category_at(ws[0]))
                    &&& diagnostics_view(final(diagnostics)@) == diagnostics_view(old(diagnostics)@) + if emit_warnings {
                        override_warnings(forward_slashes(relative_path@), c, ws[0], h, 6)
                    } else {
                        Seq::empty()
                    }
                }
            }),
    {
        let ghost c = file_candidates(self.rules@, relative_path@);
        let name = option_text(&crate::paths::path_file_name(relative_path));
        let ext = match crate::paths::path_extension(relative_path) {
            Some(e) => Some(crate::text::string_from_chars(&crate::paths::ascii_lowercase(&e))),
            None => None,
        };
        let chars = crate::order::text_chars(relative_path);
        let mut normalized_chars: Vec<char> = Vec::new();
        let mut k: usize = 0;
        while k < chars.len()
            invariant
                k <= chars.len(),
                chars@ == relative_path@,
                normalized_chars@ == forward_slashes(chars@.take(k as int)),
            decreases chars.len() - k,
        {
            let ch = chars[k];
            normalized_chars.push(if ch == '\\' { '/' } else { ch });
            assert(normalized_chars@ =~= forward_slashes(chars@.take(k + 1)));
            k = k + 1;
        }
        assert(chars@.take(chars.len() as int) =~= chars@);
        let normalized = crate::text::string_from_chars(&normalized_chars);
        let filename = as_opt_str(&name);
        let extension = as_opt_str(&ext);
        let mut cands: Vec<Option<RuleMatch>> = Vec::new();
        let mut i: usize = 0;
        while i < 6
            invariant
                i <= 6,
                self.rules.len() == 6,
                c == file_candidates(self.rules@, relative_path@),
                opt_str(filename) == crate::paths::file_name(relative_path@),
                opt_str(extension) == lowered(crate::paths::extension(relative_path@)),
                normalized@ == forward_slashes(relative_path@),
                cands.len() == i,
                forall|j: int| 0 <= j < i ==> match c[j] {
                    Some((s, sel)) => (#[trigger] cands@[j]) matches Some(m) && m.specificity == s && m.selector@ == sel,
                    None => cands@[j] is None,
                },
            decreases 6 - i,
        {
            let m = self.rules[i].matched_by(filename, extension, normalized.as_str());
            cands.push(m);
            i = i + 1;
        }
        let mut h: i8 = -1;
        let mut i: usize = 0;
        while i < 6
            invariant
                i <= 6,
                cands.len() == 6,
                forall|j: int| 0 <= j < 6 ==> match c[j] {
                    Some((s, sel)) => (#[trigger] cands@[j]) matches Some(m) && m.specificity == s && m.selector@ == sel,
                    None => cands@[j] is None,
                },
                h as int == highest_rank(c, i as int),
                -1 <= h <= 2,
            decreases 6 - i,
        {
            match &cands[i] {
                Some(m) => {
                    let rank = m.specificity.rank() as i8;
                    if rank > h {
                        h = rank;
                    }
                },
                None => {},
            }
            i = i + 1;
        }
        if h < 0 {
            return Ok(FileCategory::Uncategorized);
        }
        let mut ws: Vec<usize> = Vec::new();
        let mut i: usize = 0;
        while i < 6
            invariant
                i <= 6,
                cands.len() == 6,
                forall|j: int| 0 <= j < 6 ==> match c[j] {
                    Some((s, sel)) => (#[trigger] cands@[j]) matches Some(m) && m.specificity == s && m.selector@ == sel,
                    None => cands@[j] is None,
                },
                h as int == highest_rank(c, 6),
                ws@.map_values(|x: usize| x as int) == winners(c, h as int, i as int),
                forall|t: int| 0 <= t < ws.len() ==> #[trigger] ws@[t] < 6,
            decreases 6 - i,
        {
            let ghost before = ws@;
            let win = match &cands[i] {
                Some(m) => m.specificity.rank() as i8 == h,
                None => false,
            };
            if win {
                ws.push(i);
            }
            proof {
                if win {
                    assert(ws@.map_values(|x: usize| x as int) =~= before.map_values(|x: usize| x as int).push(i as int));
                } else {
                    assert(ws@.map_values(|x: usize| x as int) =~= before.map_values(|x: usize| x as int));
                }
                assert(winners(c, h as int, i + 1) =~= winners(c, h as int, i as int) + if is_winner(c, h as int, i as int) {
                    seq![i as int]
                } else {
                    Seq::<int>::empty()
                });
            }
            i = i + 1;
        }
        let ghost wv = ws@.map_values(|x: usize| x as int);
        proof {
            lemma_highest_has_winner(c, 6);
            lemma_winners_are_winners(c, h as int, 6);
        }
        if ws.len() > 1 {
            let first = match &cands[ws[0]] {
                Some(m) => m.specificity,
                None => Specificity::Extension,
            };
            let mut selector = String::new();
            push_text(&mut selector, "multiple ");
            push_text(&mut selector, first.description());
            push_text(&mut selector, " rules at the same specificity (");
            let ghost start = selector@;
            let ghost entries = wv.map_values(|x: int| conflict_entry(c, x));
            let mut categories: Vec<String> = Vec::new();
            let mut t: usize = 0;
            while t < ws.len()
                invariant
                    t <= ws.len(),
                    cands.len() == 6,
                    forall|j: int| 0 <= j < 6 ==> match c[j] {
                        Some((s, sel)) => (#[trigger] cands@[j]) matches Some(m) && m.specificity == s && m.selector@ == sel,
                        None => cands@[j] is None,
                    },
                    wv == ws@.map_values(|x: usize| x as int),
                    wv == winners(c, h as int, 6),
                    forall|u: int| 0 <= u < ws.len() ==> #[trigger] ws@[u] < 6,
                    forall|u: int| 0 <= u < wv.len() ==> is_winner(c, h as int, #[trigger] wv[u]),
                    entries == wv.map_values(|x: int| conflict_entry(c, x)),
                    selector@ == start + join_semicolon(entries.take(t as int)),
                    categories@.map_values(|x: String| x@) == wv.take(t as int).map_values(
                        |i: int| file_category_name(category_at(i)),
                    ),
                decreases ws.len() - t,
            {
                let w = ws[t];
                proof {
                    assert(entries.take(t + 1).drop_last() =~= entries.take(t as int));
                    assert(entries.take(t + 1).last() == conflict_entry(c, w as int));
                    if t == 0 {
                        assert(entries.take(0) =~= Seq::<Seq<char>>::empty());
                    }
                    assert(is_winner(c, h as int, wv[t as int]));
                }
                if t > 0 {
                    push_text(&mut selector, "; ");
                }
                match &cands[w] {
                    Some(m) => push_conflict_entry(&mut selector, w, m),
                    None => {},
                }
                let ghost before = categories@;
                categories.push(category_at_exec(w).as_str().to_owned());
                proof {
                    if t == 0 {
                        assert(join_semicolon(entries.take(1)) == entries.take(1)[0]);
                    }
                    assert(selector@ =~= start + join_semicolon(entries.take(t + 1)));
                    assert(wv.take(t + 1) =~= wv.take(t as int).push(w as int));
                    assert(categories@.map_values(|x: String| x@) =~= before.map_values(|x: String| x@).push(
                        file_category_name(category_at(w as int)),
                    ));
                    assert(wv.take(t + 1).map_values(|i: int| file_category_name(category_at(i))) =~= wv.take(
                        t as int,
                    ).map_values(|i: int| file_category_name(category_at(i))).push(file_category_name(category_at(w as int))));
                }
                t = t + 1;
            }
            push_text(&mut selector, ")");
            proof {
                assert(entries.take(ws.len() as int) =~= entries);
                assert(wv.take(ws.len() as int) =~= wv);
                assert(is_winner(c, h as int, wv[0]));
                assert(selector@ =~= conflict_selector(c, wv));
            }
            return Err(
                InventoryError::CategoryConflict { path: relative_path.to_owned(), selector, categories },
            );
        }
        let w = ws[0];
        proof {
            assert(is_winner(c, h as int, wv[0]));
        }
        if emit_warnings {
            let ghost start = diagnostics_view(diagnostics@);
            let mut i: usize = 0;
            while i < 6
                invariant
                    i <= 6,
                    w < 6,
                    cands.len() == 6,
                    forall|j: int| 0 <= j < 6 ==> match c[j] {
                        Some((s, sel)) => (#[trigger] cands@[j]) matches Some(m) && m.specificity == s && m.selector@ == sel,
                        None => cands@[j] is None,
                    },
                    is_winner(c, h as int, w as int),
                    normalized@ == forward_slashes(relative_path@),
                    diagnostics_view(diagnostics@) == start + override_warnings(normalized@, c, w as int, h as int, i as int),
                decreases 6 - i,
            {
                let ghost before = diagnostics_view(diagnostics@);
                match &cands[i] {
                    Some(m) => {
                        if (m.specificity.rank() as i8) < h {
                            let wm = match &cands[w] {
                                Some(x) => x,
                                None => m,
                            };
                            let message = override_text(normalized.as_str(), w, wm, i, m);
                            diagnostics.push(
                                InventoryDiagnostic { code: "category-more-specific-rule-wins".to_owned(), message },
                            );
                            proof {
                                assert(diagnostics_view(diagnostics@) =~= before.push(
                                    ("category-more-specific-rule-wins"@, override_message(normalized@, w as int, c[w as int]->0, i as int, c[i as int]->0)),
                                ));
                            }
                        }
                    },
                    None => {},
                }
                proof {
                    assert(diagnostics_view(diagnostics@) =~= start + override_warnings(normalized@, c, w as int, h as int, i + 1));
                }
                i = i + 1;
            }
        }
        Ok(category_at_exec(w))
    }
}

proof fn lemma_highest_has_winner(c: Seq<Candidate>, n: int)
    requires
        0 <= n <= c.len(),
    ensures
        highest_rank(c, n) >= 0 ==> winners(c, highest_rank(c, n), n).len() >= 1,
        highest_rank(c, n) <= 2,
        highest_rank(c, n) >= -1,
    decreases n,
{
    if n > 0 {
        lemma_highest_has_winner(c, n - 1);
        let h = highest_rank(c, n);
        let h1 = highest_rank(c, n - 1);
        if h >= 0 {
            if h == h1 {
                lemma_winners_grow(c, h, n - 1);
            }
        }
    }
}

proof fn lemma_winners_are_winners(c: Seq<Candidate>, h: int, n: int)
    requires
        0 <= n <= c.len(),
    ensures
        forall|u: int| 0 <= u < winners(c, h, n).len() ==> is_winner(c, h, #[trigger] winners(c, h, n)[u]) && 0 <= winners(
            c,
            h,
            n,
        )[u] < n,
    decreases n,
{
    if n > 0 {
        lemma_winners_are_winners(c, h, n - 1);
        let prev = winners(c, h, n - 1);
        assert forall|u: int| 0 <= u < winners(c, h, n).len() implies is_winner(c, h, #[trigger] winners(c, h, n)[u])
            && 0 <= winners(c, h, n)[u] < n by {
            if u < prev.len() {
                assert(winners(c, h, n)[u] == prev[u]);
            }
        }
    }
}

proof fn lemma_winners_grow(c: Seq<Candidate>, h: int, n: int)
    requires
        0 <= n < c.len(),
    ensures
        winners(c, h, n + 1).len() >= winners(c, h, n).len(),
{
}

fn override_text(path: &str, w: usize, wm: &RuleMatch, i: usize, m: &RuleMatch) -> (r: String)
    ensures
        r@ == override_message(path@, w as int, (wm.specificity, wm.selector@), i as int, (m.specificity, m.selector@)),
{
    let mut out = String::new();
    {
        {
            let ws = debug_quoted(wm.selector.as_str());
            let is = debug_quoted(m.selector.as_str());
            push_text(&mut out, path);
            push_text(&mut out, " is categorized as ");
            push_text(&mut out, category_at_exec(w).as_str());
            push_text(&mut out, " by ");
            push_text(&mut out, wm.specificity.description());
            push_text(&mut out, " ");
            push_text(&mut out, ws.as_str());
            push_text(&mut out, ", overriding ");
            push_text(&mut out, category_at_exec(i).as_str());
            push_text(&mut out, " by ");
            push_text(&mut out, m.specificity.description());
            push_text(&mut out, " ");
            push_text(&mut out, is.as_str());
            push_text(&mut out, "; ");
            push_text(&mut out, "add ");
            push_text(&mut out, ws.as_str());
            push_text(&mut out, " to ");
            push_text(&mut out, category_at_exec(i).as_str());
            if wm.specificity == Specificity::ExactFilename {
                push_text(&mut out, ".exclude_filenames");
            } else {
                push_text(&mut out, ".exclude_filename_regexes");
            }
            push_text(&mut out, " to make the exception explicit");
        }
    }
    assert(out@ =~= override_message(path@, w as int, (wm.specificity, wm.selector@), i as int, (m.specificity, m.selector@)));
    out
}

} // verus!

verus! {

/// How a custom rule combines with the default rule of its category.
#[derive(Debug, Clone, Copy, PartialEq, Eq, Structural)]
pub enum RuleMode {
    Extend,
    Replace,
}

/// A category rule as a configuration file writes it.
#[derive(Debug)]
pub struct RawCategoryRule {
    pub mode: Option<RuleMode>,
    pub include_extensions: Vec<String>,
    pub include_filenames: Vec<String>,
    pub include_filename_regexes: Vec<String>,
    pub exclude_filenames: Vec<String>,
    pub exclude_filename_regexes: Vec<String>,
}

pub open spec fn texts(v: Seq<String>) -> Seq<Seq<char>> {
    v.map_values(|s: String| s@)
}

fn append_texts(dst: &mut Vec<String>, src: &Vec<String>)
    ensures
        texts(final(dst)@) == texts(old(dst)@) + texts(src@),
{
    let ghost start = texts(dst@);
    let mut i: usize = 0;
    while i < src.len()
        invariant
            i <= src.len(),
            texts(dst@) == start + texts(src@.take(i as int)),
        decreases src.len() - i,
    {
        let ghost before = dst@;
        dst.push(crate::text::copy_string(&src[i]));
        proof {
            assert(texts(dst@) =~= texts(before).push(src@[i as int]@));
            assert(src@.take(i + 1) =~= src@.take(i as int).push(src@[i as int]));
            assert(texts(src@.take(i + 1)) =~= texts(src@.take(i as int)).push(src@[i as int]@));
        }
        i = i + 1;
    }
    proof {
        assert(src@.take(src.len() as int) =~= src@);
    }
}

impl RawCategoryRule {
    /// An empty rule.
    pub fn empty() -> (r: RawCategoryRule)
        ensures
            r.mode is None,
            r.include_extensions.len() == 0,
            r.include_filenames.len() == 0,
            r.include_filename_regexes.len() == 0,
            r.exclude_filenames.len() == 0,
            r.exclude_filename_regexes.len() == 0,
    {
        RawCategoryRule {
            mode: None,
            include_extensions: Vec::new(),
            include_filenames: Vec::new(),
            include_filename_regexes: Vec::new(),
            exclude_filenames: Vec::new(),
            exclude_filename_regexes: Vec::new(),
        }
    }

    /// Extends each selector list with those of another rule.
    pub fn merge(&mut self, other: &RawCategoryRule)
        ensures
            final(self).mode == old(self).mode,
            texts(final(self).include_extensions@) == texts(old(self).include_extensions@) + texts(other.include_extensions@),
            texts(final(self).include_filenames@) == texts(old(self).include_filenames@) + texts(other.include_filenames@),
            texts(final(self).include_filename_regexes@) == texts(old(self).include_filename_regexes@) + texts(
                other.include_filename_regexes@,
            ),
            texts(final(self).exclude_filenames@) == texts(old(self).exclude_filenames@) + texts(other.exclude_filenames@),
            texts(final(self).exclude_filename_regexes@) == texts(old(self).exclude_filename_regexes@) + texts(
                other.exclude_filename_regexes@,
            ),
    {
        append_texts(&mut self.include_extensions, &other.include_extensions);
        append_texts(&mut self.include_filenames, &other.include_filenames);
        append_texts(&mut self.include_filename_regexes, &other.include_filename_regexes);
        append_texts(&mut self.exclude_filenames, &other.exclude_filenames);
        append_texts(&mut self.exclude_filename_regexes, &other.exclude_filename_regexes);
    }
}

/// Why an extension selector is refused, if it is.
pub open spec fn extension_error(e: Seq<char>) -> Option<Seq<char>> {
    if e.len() == 0 || e[0] == '.' || e.contains('/') || e.contains('\\') {
        Some("invalid extension "@ + debug_text(e) + "; use a non-empty extension without a dot or path separator"@)
    } else {
        None
    }
}

/// Why a filename selector is refused, if it is.
pub open spec fn filename_error(f: Seq<char>, require_extension: bool) -> Option<Seq<char>> {
    if f.len() == 0 || f.contains('/') || f.contains('\\') || (require_extension && crate::paths::extension(f) is None) {
        Some("invalid filename "@ + debug_text(f) + "; expected "@ + if require_extension {
            "a complete filename with an extension and no directory"@
        } else {
            "a filename with no directory"@
        })
    } else {
        None
    }
}

/// Why a regex selector is refused, if it is.
pub open spec fn regex_shape_error(p: Seq<char>) -> Option<Seq<char>> {
    if p.len() == 0 {
        Some("filename regexes cannot be empty"@)
    } else if p[0] == '/' || (p.len() >= 2 && p[0] == '^' && p[1] == '/') {
        Some("filename regex "@ + debug_text(p) + " starts with '/'; use a repository-relative pattern"@)
    } else {
        None
    }
}

fn contains_char(s: &str, c: char) -> (r: bool)
    ensures
        r == s@.contains(c),
{
    let chars = crate::order::text_chars(s);
    let mut i: usize = 0;
    while i < chars.len()
        invariant
            i <= chars.len(),
            chars@ == s@,
            forall|k: int| 0 <= k < i ==> chars@[k] != c,
        decreases chars.len() - i,
    {
        if chars[i] == c {
            return true;
        }
        i = i + 1;
    }
    false
}

fn first_char_is(s: &str, c: char) -> (r: bool)
    ensures
        r == (s@.len() > 0 && s@[0] == c),
{
    let chars = crate::order::text_chars(s);
    chars.len() > 0 && chars[0] == c
}

/// Checks an extension selector.
pub fn validate_extension(extension: &str) -> (r: Result<(), String>)
    ensures
        match extension_error(extension@) {
            None => r is Ok,
            Some(m) => r matches Err(x) && x@ == m,
        },
{
    if extension.unicode_len() == 0 || first_char_is(extension, '.') || contains_char(extension, '/') || contains_char(
        extension,
        '\\',
    ) {
        let mut m = String::new();
        push_text(&mut m, "invalid extension ");
        let q = debug_quoted(extension);
        push_text(&mut m, q.as_str());
        push_text(&mut m, "; use a non-empty extension without a dot or path separator");
        return Err(m);
    }
    Ok(())
}

/// Checks a filename selector; one that includes files needs an extension.
pub fn validate_filename(filename: &str, require_extension: bool) -> (r: Result<(), String>)
    ensures
        match filename_error(filename@, require_extension) {
            None => r is Ok,
            Some(m) => r matches Err(x) && x@ == m,
        },
{
    let missing = require_extension && crate::paths::path_extension(filename).is_none();
    if filename.unicode_len() == 0 || contains_char(filename, '/') || contains_char(filename, '\\') || missing {
        let mut m = String::new();
        push_text(&mut m, "invalid filename ");
        let q = debug_quoted(filename);
        push_text(&mut m, q.as_str());
        push_text(&mut m, "; expected ");
        if require_extension {
            push_text(&mut m, "a complete filename with an extension and no directory");
        } else {
            push_text(&mut m, "a filename with no directory");
        }
        return Err(m);
    }
    Ok(())
}

/// Checks the shape of a regex selector.
pub fn validate_regex_shape(pattern: &str) -> (r: Result<(), String>)
    ensures
        match regex_shape_error(pattern@) {
            None => r is Ok,
            Some(m) => r matches Err(x) && x@ == m,
        },
{
    let chars = crate::order::text_chars(pattern);
    if chars.len() == 0 {
        return Err("filename regexes cannot be empty".to_owned());
    }
    if chars[0] == '/' || (chars.len() >= 2 && chars[0] == '^' && chars[1] == '/') {
        let mut m = String::new();
        push_text(&mut m, "filename regex ");
        let q = debug_quoted(pattern);
        push_text(&mut m, q.as_str());
        push_text(&mut m, " starts with '/'; use a repository-relative pattern");
        return Err(m);
    }
    Ok(())
}

} // verus!

verus! {

/// The owners that a list of claims records: the last claim of a selector
/// names its category.
pub open spec fn owners_of(v: Seq<(String, usize)>) -> Map<Seq<char>, int>
    decreases v.len(),
{
    if v.len() == 0 {
        Map::empty()
    } else {
        owners_of(v.drop_last()).insert(v.last().0@, v.last().1 as int)
    }
}

/// Claiming a selector for a category: refused when another category owns
/// it already.
pub open spec fn claim_result(kind: Seq<char>, sel: Seq<char>, cat: int, o: Map<Seq<char>, int>) -> Result<
    Map<Seq<char>, int>,
    Seq<char>,
> {
    if o.contains_key(sel) && o[sel] != cat {
        Err(kind + " "@ + debug_text(sel) + " is claimed by both "@ + file_category_name(category_at(o[sel])) + " and "@
            + file_category_name(category_at(cat)))
    } else {
        Ok(o.insert(sel, cat))
    }
}

/// The selector kinds that are checked and then claimed.
pub open spec fn claim_kind(code: int) -> Seq<char> {
    if code == 0 {
        "extension"@
    } else if code == 1 {
        "exact filename"@
    } else {
        "filename regex"@
    }
}

/// The shape check of a selector kind: 0 extension, 1 included filename,
/// 2 included regex, 3 excluded filename, 4 excluded regex.
pub open spec fn shape_error(code: int, s: Seq<char>) -> Option<Seq<char>> {
    if code == 0 {
        extension_error(s)
    } else if code == 1 {
        filename_error(s, true)
    } else if code == 3 {
        filename_error(s, false)
    } else {
        regex_shape_error(s)
    }
}

/// What is claimed for a selector: extensions in lowercase.
pub open spec fn claim_key(code: int, s: Seq<char>) -> Seq<char> {
    if code == 0 {
        crate::paths::ascii_lower(s)
    } else {
        s
    }
}

/// Checking and claiming the first `n` selectors of a kind.
pub open spec fn claim_steps(code: int, items: Seq<Seq<char>>, cat: int, o: Map<Seq<char>, int>, n: int) -> Result<
    Map<Seq<char>, int>,
    Seq<char>,
>
    decreases n,
{
    if n <= 0 {
        Ok(o)
    } else {
        match claim_steps(code, items, cat, o, n - 1) {
            Err(e) => Err(e),
            Ok(o2) => match shape_error(code, items[n - 1]) {
                Some(m) => Err(m),
                None => claim_result(claim_kind(code), claim_key(code, items[n - 1]), cat, o2),
            },
        }
    }
}

/// The first shape error among the first `n` selectors.
pub open spec fn first_shape_error(code: int, items: Seq<Seq<char>>, n: int) -> Option<Seq<char>>
    decreases n,
{
    if n <= 0 {
        None
    } else {
        match first_shape_error(code, items, n - 1) {
            Some(m) => Some(m),
            None => shape_error(code, items[n - 1]),
        }
    }
}

/// Whether `x` is the least text that both lists hold.
pub open spec fn least_common(a: Seq<Seq<char>>, b: Seq<Seq<char>>, x: Seq<char>) -> bool {
    a.contains(x) && b.contains(x) && forall|y: Seq<char>|
        a.contains(y) && b.contains(y) ==> crate::order::text_compare(x, y) <= 0
}

/// The least text that both lists hold, if any.
pub open spec fn first_common(a: Seq<Seq<char>>, b: Seq<Seq<char>>) -> Option<Seq<char>> {
    if exists|x: Seq<char>| least_common(a, b, x) {
        Some(choose|x: Seq<char>| least_common(a, b, x))
    } else {
        None
    }
}

pub type Owners = (Map<Seq<char>, int>, Map<Seq<char>, int>, Map<Seq<char>, int>);

/// Checking one category's rule against the owners so far: its extensions,
/// its filenames, the selectors it both includes and excludes, and its
/// regexes.
pub open spec fn category_check(cat: int, r: RawCategoryRule, o: Owners) -> Result<Owners, Seq<char>> {
    match claim_steps(0, texts(r.include_extensions@), cat, o.0, r.include_extensions.len() as int) {
        Err(e) => Err(e),
        Ok(oe) => match claim_steps(1, texts(r.include_filenames@), cat, o.1, r.include_filenames.len() as int) {
            Err(e) => Err(e),
            Ok(of) => match first_shape_error(3, texts(r.exclude_filenames@), r.exclude_filenames.len() as int) {
                Some(e) => Err(e),
                None => match first_common(texts(r.include_filename_regexes@), texts(r.exclude_filename_regexes@)) {
                    Some(p) => Err("category "@ + file_category_name(category_at(cat))
                        + " includes and excludes the same filename regex "@ + debug_text(p)),
                    None => match first_common(texts(r.include_filenames@), texts(r.exclude_filenames@)) {
                        Some(f) => Err("category "@ + file_category_name(category_at(cat))
                            + " includes and excludes the same filename "@ + debug_text(f)),
                        None => match claim_steps(
                            2,
                            texts(r.include_filename_regexes@),
                            cat,
                            o.2,
                            r.include_filename_regexes.len() as int,
                        ) {
                            Err(e) => Err(e),
                            Ok(orx) => match first_shape_error(
                                4,
                                texts(r.exclude_filename_regexes@),
                                r.exclude_filename_regexes.len() as int,
                            ) {
                                Some(e) => Err(e),
                                None => Ok((oe, of, orx)),
                            },
                        },
                    },
                },
            },
        },
    }
}

/// Checking the rules of the first `n` categories.
pub open spec fn rules_check(slots: Seq<Option<RawCategoryRule>>, n: int) -> Result<Owners, Seq<char>>
    decreases n,
{
    if n <= 0 {
        Ok((Map::empty(), Map::empty(), Map::empty()))
    } else {
        match rules_check(slots, n - 1) {
            Err(e) => Err(e),
            Ok(o) => match slots[n - 1] {
                None => Ok(o),
                Some(r) => category_check(n - 1, r, o),
            },
        }
    }
}

proof fn lemma_owners_lookup(v: Seq<(String, usize)>, k: Seq<char>)
    ensures
        owners_of(v).contains_key(k) <==> exists|i: int| 0 <= i < v.len() && (#[trigger] v[i]).0@ == k,
    decreases v.len(),
{
    if v.len() > 0 {
        lemma_owners_lookup(v.drop_last(), k);
        if exists|i: int| 0 <= i < v.len() - 1 && (#[trigger] v.drop_last()[i]).0@ == k {
            let i = choose|i: int| 0 <= i < v.len() - 1 && (#[trigger] v.drop_last()[i]).0@ == k;
            assert(v[i] == v.drop_last()[i]);
        }
        if exists|i: int| 0 <= i < v.len() && (#[trigger] v[i]).0@ == k {
            let i = choose|i: int| 0 <= i < v.len() && (#[trigger] v[i]).0@ == k;
            if i < v.len() - 1 {
                assert(v.drop_last()[i] == v[i]);
            }
        }
    }
}

/// The category that owns a selector, by the last claim of it.
fn owner_of(v: &Vec<(String, usize)>, k: &str) -> (r: Option<usize>)
    ensures
        match r {
            Some(c) => owners_of(v@).contains_key(k@) && owners_of(v@)[k@] == c as int,
            None => !owners_of(v@).contains_key(k@),
        },
{
    let mut j: usize = v.len();
    proof {
        assert(v@.take(v.len() as int) =~= v@);
        assert(v@.subrange(v.len() as int, v.len() as int) =~= Seq::<(String, usize)>::empty());
        assert(owners_of(v@).union_prefer_right(owners_of(Seq::<(String, usize)>::empty())) =~= owners_of(v@));
    }
    while j > 0
        invariant
            j <= v.len(),
            forall|i: int| j <= i < v.len() ==> (#[trigger] v@[i]).0@ != k@,
            owners_of(v@) == owners_of(v@.take(j as int)).union_prefer_right(owners_of(v@.subrange(j as int, v.len() as int))),
        decreases j,
    {
        proof {
            assert(v@.take(j as int).drop_last() =~= v@.take(j - 1));
            assert(v@.take(j as int).last() == v@[j - 1]);
        }
        if text_eq(v[j - 1].0.as_str(), k) {
            proof {
                lemma_owners_lookup(v@.subrange(j as int, v.len() as int), k@);
                assert forall|i: int| 0 <= i < v.len() - j implies (#[trigger] v@.subrange(j as int, v.len() as int)[i]).0@ != k@ by {
                    assert(v@.subrange(j as int, v.len() as int)[i] == v@[i + j]);
                }
            }
            return Some(v[j - 1].1);
        }
        proof {
            let tail = v@.subrange(j - 1, v.len() as int);
            lemma_owners_concat(v@.take(j - 1), v@.take(j as int).subrange(j - 1, j as int));
            assert(v@.take(j - 1) + v@.take(j as int).subrange(j - 1, j as int) =~= v@.take(j as int));
            lemma_owners_concat(v@.subrange(j - 1, j as int), v@.subrange(j as int, v.len() as int));
            assert(v@.subrange(j - 1, j as int) + v@.subrange(j as int, v.len() as int) =~= tail);
            assert(v@.take(j as int).subrange(j - 1, j as int) =~= v@.subrange(j - 1, j as int));
            assert(owners_of(v@.take(j as int)) =~= owners_of(v@.take(j - 1)).union_prefer_right(owners_of(v@.subrange(j - 1, j as int))));
            assert(owners_of(v@) =~= owners_of(v@.take(j - 1)).union_prefer_right(owners_of(tail)));
        }
        j = j - 1;
    }
    proof {
        lemma_owners_lookup(v@, k@);
        assert(v@.take(0) =~= Seq::<(String, usize)>::empty());
    }
    None
}

proof fn lemma_owners_concat(a: Seq<(String, usize)>, b: Seq<(String, usize)>)
    ensures
        owners_of(a + b) == owners_of(a).union_prefer_right(owners_of(b)),
    decreases b.len(),
{
    if b.len() == 0 {
        assert(a + b =~= a);
        assert(owners_of(a).union_prefer_right(owners_of(b)) =~= owners_of(a));
    } else {
        lemma_owners_concat(a, b.drop_last());
        assert((a + b).drop_last() =~= a + b.drop_last());
        assert(owners_of(a + b) =~= owners_of(a).union_prefer_right(owners_of(b)));
    }
}

} // verus!

verus! {

fn shape_check(code: u8, s: &str) -> (r: Result<(), String>)
    requires
        code <= 4,
    ensures
        match shape_error(code as int, s@) {
            None => r is Ok,
            Some(m) => r matches Err(x) && x@ == m,
        },
{
    if code == 0 {
        validate_extension(s)
    } else if code == 1 {
        validate_filename(s, true)
    } else if code == 3 {
        validate_filename(s, false)
    } else {
        validate_regex_shape(s)
    }
}

fn claim_exec(code: u8, key: &str, cat: usize, owners: &mut Vec<(String, usize)>) -> (r: Result<(), String>)
    requires
        code <= 2,
        cat < 6,
    ensures
        match claim_result(claim_kind(code as int), key@, cat as int, owners_of(old(owners)@)) {
            Ok(m) => r is Ok && owners_of(final(owners)@) == m,
            Err(e) => r matches Err(x) && x@ == e,
        },
{
    match owner_of(owners, key) {
        Some(previous) => {
            if previous != cat {
                let mut m = String::new();
                if code == 0 {
                    push_text(&mut m, "extension");
                } else if code == 1 {
                    push_text(&mut m, "exact filename");
                } else {
                    push_text(&mut m, "filename regex");
                }
                push_text(&mut m, " ");
                let q = debug_quoted(key);
                push_text(&mut m, q.as_str());
                push_text(&mut m, " is claimed by both ");
                push_text(&mut m, category_at_exec(previous).as_str());
                push_text(&mut m, " and ");
                push_text(&mut m, category_at_exec(cat).as_str());
                proof {
                    assert(m@ =~= claim_kind(code as int) + " "@ + debug_text(key@) + " is claimed by both "@
                        + file_category_name(category_at(previous as int)) + " and "@ + file_category_name(category_at(cat as int)));
                }
                return Err(m);
            }
        },
        None => {},
    }
    owners.push((key.to_owned(), cat));
    proof {
        assert(owners@.drop_last() =~= old(owners)@);
    }
    Ok(())
}

fn steps_exec(code: u8, items: &Vec<String>, cat: usize, owners: &mut Vec<(String, usize)>) -> (r: Result<(), String>)
    requires
        code <= 2,
        cat < 6,
    ensures
        match claim_steps(code as int, texts(items@), cat as int, owners_of(old(owners)@), items.len() as int) {
            Ok(m) => r is Ok && owners_of(final(owners)@) == m,
            Err(e) => r matches Err(x) && x@ == e,
        },
{
    let ghost start = owners_of(owners@);
    let ghost t = texts(items@);
    let mut i: usize = 0;
    while i < items.len()
        invariant
            i <= items.len(),
            code <= 2,
            cat < 6,
            t == texts(items@),
            start == owners_of(old(owners)@),
            claim_steps(code as int, t, cat as int, start, i as int) == Ok::<Map<Seq<char>, int>, Seq<char>>(owners_of(owners@)),
        decreases items.len() - i,
    {
        let item = items[i].as_str();
        proof {
            assert(t[i as int] == item@);
        }
        match shape_check(code, item) {
            Err(m) => {
                proof {
                    lemma_claim_steps_stop(code as int, t, cat as int, start, i as int + 1, items.len() as int);
                }
                return Err(m);
            },
            Ok(()) => {},
        }
        let r = if code == 0 {
            let lowered = crate::text::string_from_chars(&crate::paths::ascii_lowercase(&crate::order::text_chars(item)));
            claim_exec(code, lowered.as_str(), cat, owners)
        } else {
            claim_exec(code, item, cat, owners)
        };
        match r {
            Err(m) => {
                proof {
                    lemma_claim_steps_stop(code as int, t, cat as int, start, i as int + 1, items.len() as int);
                }
                return Err(m);
            },
            Ok(()) => {},
        }
        i = i + 1;
    }
    Ok(())
}

proof fn lemma_claim_steps_stop(code: int, items: Seq<Seq<char>>, cat: int, o: Map<Seq<char>, int>, k: int, n: int)
    requires
        0 <= k <= n,
        claim_steps(code, items, cat, o, k) is Err,
    ensures
        claim_steps(code, items, cat, o, n) == claim_steps(code, items, cat, o, k),
    decreases n - k,
{
    if k < n {
        lemma_claim_steps_stop(code, items, cat, o, k, n - 1);
    }
}

proof fn lemma_first_shape_stop(code: int, items: Seq<Seq<char>>, k: int, n: int)
    requires
        0 <= k <= n,
        first_shape_error(code, items, k) is Some,
    ensures
        first_shape_error(code, items, n) == first_shape_error(code, items, k),
    decreases n - k,
{
    if k < n {
        lemma_first_shape_stop(code, items, k, n - 1);
    }
}

fn first_shape_exec(code: u8, items: &Vec<String>) -> (r: Result<(), String>)
    requires
        code <= 4,
    ensures
        match first_shape_error(code as int, texts(items@), items.len() as int) {
            None => r is Ok,
            Some(m) => r matches Err(x) && x@ == m,
        },
{
    let ghost t = texts(items@);
    let mut i: usize = 0;
    while i < items.len()
        invariant
            i <= items.len(),
            code <= 4,
            t == texts(items@),
            first_shape_error(code as int, t, i as int) is None,
        decreases items.len() - i,
    {
        match shape_check(code, items[i].as_str()) {
            Err(m) => {
                proof {
                    lemma_first_shape_stop(code as int, t, i as int + 1, items.len() as int);
                }
                return Err(m);
            },
            Ok(()) => {},
        }
        i = i + 1;
    }
    Ok(())
}

proof fn lemma_least_unique(a: Seq<Seq<char>>, b: Seq<Seq<char>>, x: Seq<char>, y: Seq<char>)
    requires
        least_common(a, b, x),
        least_common(a, b, y),
    ensures
        x == y,
{
    crate::order::lemma_text_facts(x, y);
}

/// The least text that both lists hold.
fn first_common_exec(a: &Vec<String>, b: &Vec<String>) -> (r: Option<String>)
    ensures
        match first_common(texts(a@), texts(b@)) {
            Some(x) => r matches Some(s) && s@ == x,
            None => r is None,
        },
{
    let ghost ta = texts(a@);
    let ghost tb = texts(b@);
    let mut best: Option<usize> = None;
    let mut i: usize = 0;
    while i < a.len()
        invariant
            i <= a.len(),
            ta == texts(a@),
            tb == texts(b@),
            best matches Some(k) ==> k < i && tb.contains(ta[k as int]),
            forall|j: int| 0 <= j < i && tb.contains(ta[j]) ==> (best matches Some(k) && crate::order::text_compare(
                ta[k as int],
                ta[j],
            ) <= 0),
        decreases a.len() - i,
    {
        if holds_text_exec(b, a[i].as_str()) {
            proof {
                let w = choose|w: int| 0 <= w < b.len() && (#[trigger] b@[w])@ == a@[i as int]@;
                assert(tb[w] == ta[i as int]);
            }
            let better = match best {
                None => true,
                Some(k) => {
                    let ca = crate::order::text_chars(a[i].as_str());
                    let cb = crate::order::text_chars(a[k].as_str());
                    crate::order::compare_chars(&ca, &cb) < 0
                },
            };
            proof {
                if let Some(k) = best {
                    crate::order::lemma_text_facts(ta[i as int], ta[k as int]);
                    assert forall|j: int| 0 <= j < i && tb.contains(ta[j]) implies crate::order::text_compare(
                        ta[i as int],
                        ta[j],
                    ) <= 0 || !better by {
                        if better {
                            crate::order::lemma_text_facts(ta[k as int], ta[j]);
                            crate::order::lemma_text_trans(ta[i as int], ta[k as int], ta[j]);
                        }
                    }
                }
            }
            if better {
                best = Some(i);
            }
            proof {
                if !better {
                    if let Some(k) = best {
                        crate::order::lemma_text_facts(ta[i as int], ta[k as int]);
                    }
                }
                if better {
                    crate::order::lemma_text_facts(ta[i as int], ta[i as int]);
                }
            }
        } else {
            proof {
                if tb.contains(ta[i as int]) {
                    let w = choose|w: int| 0 <= w < tb.len() && tb[w] == ta[i as int];
                    assert(b@[w]@ == a@[i as int]@);
                }
            }
        }
        i = i + 1;
    }
    match best {
        None => {
            proof {
                if exists|x: Seq<char>| least_common(ta, tb, x) {
                    let x = choose|x: Seq<char>| least_common(ta, tb, x);
                    let j = choose|j: int| 0 <= j < ta.len() && ta[j] == x;
                }
            }
            None
        },
        Some(k) => {
            proof {
                let x = ta[k as int];
                assert forall|y: Seq<char>| ta.contains(y) && tb.contains(y) implies crate::order::text_compare(x, y) <= 0 by {
                    let j = choose|j: int| 0 <= j < ta.len() && ta[j] == y;
                }
                assert(ta.contains(x));
                assert(least_common(ta, tb, x));
                let c = choose|c: Seq<char>| least_common(ta, tb, c);
                lemma_least_unique(ta, tb, x, c);
            }
            Some(crate::text::copy_string(&a[k]))
        },
    }
}

} // verus!

verus! {

fn category_check_exec(
    cat: usize,
    r: &RawCategoryRule,
    oe: &mut Vec<(String, usize)>,
    of: &mut Vec<(String, usize)>,
    orx: &mut Vec<(String, usize)>,
) -> (res: Result<(), String>)
    requires
        cat < 6,
    ensures
        match category_check(cat as int, *r, (owners_of(old(oe)@), owners_of(old(of)@), owners_of(old(orx)@))) {
            Ok(o) => res is Ok && o == (owners_of(final(oe)@), owners_of(final(of)@), owners_of(final(orx)@)),
            Err(e) => res matches Err(x) && x@ == e,
        },
{
    steps_exec(0, &r.include_extensions, cat, oe)?;
    steps_exec(1, &r.include_filenames, cat, of)?;
    first_shape_exec(3, &r.exclude_filenames)?;
    match first_common_exec(&r.include_filename_regexes, &r.exclude_filename_regexes) {
        Some(p) => {
            let mut m = String::new();
            push_text(&mut m, "category ");
            push_text(&mut m, category_at_exec(cat).as_str());
            push_text(&mut m, " includes and excludes the same filename regex ");
            let q = debug_quoted(p.as_str());
            push_text(&mut m, q.as_str());
            return Err(m);
        },
        None => {},
    }
    match first_common_exec(&r.include_filenames, &r.exclude_filenames) {
        Some(f) => {
            let mut m = String::new();
            push_text(&mut m, "category ");
            push_text(&mut m, category_at_exec(cat).as_str());
            push_text(&mut m, " includes and excludes the same filename ");
            let q = debug_quoted(f.as_str());
            push_text(&mut m, q.as_str());
            return Err(m);
        },
        None => {},
    }
    steps_exec(2, &r.include_filename_regexes, cat, orx)?;
    first_shape_exec(4, &r.exclude_filename_regexes)?;
    Ok(())
}

proof fn lemma_rules_check_stop(slots: Seq<Option<RawCategoryRule>>, k: int, n: int)
    requires
        0 <= k <= n,
        rules_check(slots, k) is Err,
    ensures
        rules_check(slots, n) == rules_check(slots, k),
    decreases n - k,
{
    if k < n {
        lemma_rules_check_stop(slots, k, n - 1);
    }
}

/// Checks the rules of the categories, given by category in the fixed
/// order: each selector's shape, that no extension, filename or filename
/// regex is claimed by two categories, and that no rule both includes and
/// excludes the same filename or regex. The first problem is the error.
pub fn validate_raw_rules(rules: &Vec<Option<RawCategoryRule>>, path: &Option<String>) -> (r: Result<(), InventoryError>)
    requires
        rules.len() == 6,
    ensures
        match rules_check(rules@, 6) {
            Ok(_) => r is Ok,
            Err(e) => r matches Err(InventoryError::Configuration { path: p, message: m }) && crate::analyzer::opt_text(p)
                == crate::analyzer::opt_text(*path) && m@ == e,
        },
{
    let mut oe: Vec<(String, usize)> = Vec::new();
    let mut of: Vec<(String, usize)> = Vec::new();
    let mut orx: Vec<(String, usize)> = Vec::new();
    let mut i: usize = 0;
    while i < 6
        invariant
            i <= 6,
            rules.len() == 6,
            rules_check(rules@, i as int) == Ok::<Owners, Seq<char>>((owners_of(oe@), owners_of(of@), owners_of(orx@))),
        decreases 6 - i,
    {
        match &rules[i] {
            Some(rule) => {
                match category_check_exec(i, rule, &mut oe, &mut of, &mut orx) {
                    Err(m) => {
                        proof {
                            lemma_rules_check_stop(rules@, i as int + 1, 6);
                        }
                        return Err(
                            InventoryError::Configuration { path: crate::analyzer::copy_opt_string(path), message: m },
                        );
                    },
                    Ok(()) => {},
                }
            },
            None => {},
        }
        i = i + 1;
    }
    Ok(())
}

} // verus!

verus! {

/// Whether `v` holds the compiled distinct patterns in ascending order.
pub open spec fn regexes_compiled(v: Seq<CompiledRegex>, patterns: Seq<Seq<char>>) -> bool {
    &&& ascending_distinct(v.map_values(|c: CompiledRegex| c@.0), patterns)
    &&& forall|i: int| 0 <= i < v.len() ==> (#[trigger] v[i])@.1 == target_of(v[i]@.0)
    &&& forall|i: int| 0 <= i < patterns.len() ==> regex_new_error(anchored(#[trigger] patterns[i])) is None
}

/// Whether `m` is the error for the least pattern that does not compile.
pub open spec fn regex_failure(category: FileCategory, field: Seq<char>, patterns: Seq<Seq<char>>, m: Seq<char>) -> bool {
    exists|i: int|
        0 <= i < patterns.len() && (regex_new_error(anchored(#[trigger] patterns[i])) matches Some(e) && m
            == regex_error_message(category, field, patterns[i], e)) && (forall|k: int|
            0 <= k < patterns.len() && crate::order::text_compare(patterns[k], patterns[i]) == -1 ==> regex_new_error(
                anchored(patterns[k]),
            ) is None)
}

proof fn lemma_texts_index(v: Seq<String>)
    ensures
        texts(v).len() == v.len(),
        forall|i: int| 0 <= i < v.len() ==> #[trigger] texts(v)[i] == v[i]@,
{
}

proof fn lemma_failure_texts(category: FileCategory, field: Seq<char>, patterns: Seq<String>, e: InventoryError)
    requires
        match e {
            InventoryError::Configuration { path: _, message: m } => exists|i: int|
                0 <= i < patterns.len() && (regex_new_error(anchored((#[trigger] patterns[i])@)) matches Some(x) && m@
                    == regex_error_message(category, field, patterns[i]@, x)) && (forall|k: int|
                    0 <= k < patterns.len() && crate::order::text_compare(patterns[k]@, patterns[i]@) == -1
                        ==> regex_new_error(anchored(patterns[k]@)) is None),
            _ => true,
        },
    ensures
        match e {
            InventoryError::Configuration { path: _, message: m } => regex_failure(category, field, texts(patterns), m@),
            _ => true,
        },
{
    lemma_texts_index(patterns);
    match e {
        InventoryError::Configuration { path: _, message: m } => {
            let i = choose|i: int|
                0 <= i < patterns.len() && (regex_new_error(anchored((#[trigger] patterns[i])@)) matches Some(x) && m@
                    == regex_error_message(category, field, patterns[i]@, x)) && (forall|k: int|
                    0 <= k < patterns.len() && crate::order::text_compare(patterns[k]@, patterns[i]@) == -1
                        ==> regex_new_error(anchored(patterns[k]@)) is None);
            assert(texts(patterns)[i] == patterns[i]@);
            assert forall|k: int|
                0 <= k < texts(patterns).len() && crate::order::text_compare(texts(patterns)[k], texts(patterns)[i]) == -1
                    implies regex_new_error(anchored(texts(patterns)[k])) is None by {
                assert(texts(patterns)[k] == patterns[k]@);
            }
        },
        _ => {},
    }
}

proof fn lemma_compiled_texts(v: Seq<CompiledRegex>, patterns: Seq<String>)
    requires
        ascending_distinct(v.map_values(|c: CompiledRegex| c@.0), patterns.map_values(|s: String| s@)),
        forall|i: int| 0 <= i < v.len() ==> (#[trigger] v[i])@.1 == target_of(v[i]@.0),
        forall|i: int| 0 <= i < patterns.len() ==> regex_new_error(anchored((#[trigger] patterns[i])@)) is None,
    ensures
        regexes_compiled(v, texts(patterns)),
{
    lemma_texts_index(patterns);
    assert forall|i: int| 0 <= i < texts(patterns).len() implies regex_new_error(anchored(#[trigger] texts(patterns)[i])) is None by {
        assert(texts(patterns)[i] == patterns[i]@);
    }
}

fn lowercase_all(v: &Vec<String>) -> (r: Vec<String>)
    ensures
        texts(r@) == texts(v@).map_values(|s: Seq<char>| crate::paths::ascii_lower(s)),
{
    let mut r: Vec<String> = Vec::new();
    let mut i: usize = 0;
    while i < v.len()
        invariant
            i <= v.len(),
            texts(r@) == texts(v@.take(i as int)).map_values(|s: Seq<char>| crate::paths::ascii_lower(s)),
        decreases v.len() - i,
    {
        let ghost before = r@;
        let l = crate::text::string_from_chars(&crate::paths::ascii_lowercase(&crate::order::text_chars(v[i].as_str())));
        r.push(l);
        proof {
            assert(texts(r@) =~= texts(before).push(l@));
            assert(v@.take(i + 1) =~= v@.take(i as int).push(v@[i as int]));
            assert(texts(v@.take(i + 1)).map_values(|s: Seq<char>| crate::paths::ascii_lower(s)) =~= texts(v@.take(
                i as int,
            )).map_values(|s: Seq<char>| crate::paths::ascii_lower(s)).push(crate::paths::ascii_lower(v@[i as int]@)));
        }
        i = i + 1;
    }
    proof {
        assert(v@.take(v.len() as int) =~= v@);
    }
    r
}

fn copy_texts(v: &Vec<String>) -> (r: Vec<String>)
    ensures
        texts(r@) == texts(v@),
{
    let mut r: Vec<String> = Vec::new();
    append_texts(&mut r, v);
    assert(texts(Seq::<String>::empty()) + texts(v@) =~= texts(v@));
    r
}

/// Whether `c` is the compiled form of a rule: extensions in lowercase,
/// filenames as given, and the distinct regexes of each list in ascending
/// order.
pub open spec fn rule_compiled(c: CategoryRule, rule: RawCategoryRule) -> bool {
    &&& texts(c.include_extensions@) == texts(rule.include_extensions@).map_values(
        |s: Seq<char>| crate::paths::ascii_lower(s),
    )
    &&& texts(c.include_filenames@) == texts(rule.include_filenames@)
    &&& texts(c.exclude_filenames@) == texts(rule.exclude_filenames@)
    &&& regexes_compiled(c.include_filename_regexes@, texts(rule.include_filename_regexes@))
    &&& regexes_compiled(c.exclude_filename_regexes@, texts(rule.exclude_filename_regexes@))
}

/// Whether every regex of a rule compiles.
pub open spec fn rule_compiles(rule: RawCategoryRule) -> bool {
    &&& forall|i: int| 0 <= i < rule.include_filename_regexes.len() ==> regex_new_error(
        anchored(#[trigger] texts(rule.include_filename_regexes@)[i]),
    ) is None
    &&& forall|i: int| 0 <= i < rule.exclude_filename_regexes.len() ==> regex_new_error(
        anchored(#[trigger] texts(rule.exclude_filename_regexes@)[i]),
    ) is None
}

/// Whether `m` is the error of compiling a rule: that of the least include
/// regex that does not compile, else that of the least exclude regex.
pub open spec fn compile_failure(category: FileCategory, rule: RawCategoryRule, m: Seq<char>) -> bool {
    regex_failure(category, "include_filename_regexes"@, texts(rule.include_filename_regexes@), m) || ((forall|i: int|
        0 <= i < rule.include_filename_regexes.len() ==> regex_new_error(
            anchored(#[trigger] texts(rule.include_filename_regexes@)[i]),
        ) is None) && regex_failure(category, "exclude_filename_regexes"@, texts(rule.exclude_filename_regexes@), m))
}

/// Compiles the rule of a category: extensions in lowercase, filenames as
/// given, and the distinct regexes of each list in ascending order.
pub fn compile_rule(category: FileCategory, rule: &RawCategoryRule, path: &Option<String>) -> (r: Result<
    CategoryRule,
    InventoryError,
>)
    ensures
        match r {
            Ok(c) => rule_compiled(c, *rule),
            Err(InventoryError::Configuration { path: p, message: m }) => crate::analyzer::opt_text(p)
                == crate::analyzer::opt_text(*path) && compile_failure(category, *rule, m@),
            Err(_) => false,
        },
{
    proof {
        lemma_texts_index(rule.include_filename_regexes@);
        lemma_texts_index(rule.exclude_filename_regexes@);
    }
    let include_regexes = match compile_regexes(category, "include_filename_regexes", &rule.include_filename_regexes, path) {
        Ok(v) => v,
        Err(e) => {
            proof {
                lemma_failure_texts(category, "include_filename_regexes"@, rule.include_filename_regexes@, e);
            }
            return Err(e);
        },
    };
    let exclude_regexes = match compile_regexes(category, "exclude_filename_regexes", &rule.exclude_filename_regexes, path) {
        Ok(v) => v,
        Err(e) => {
            proof {
                lemma_failure_texts(category, "exclude_filename_regexes"@, rule.exclude_filename_regexes@, e);
            }
            return Err(e);
        },
    };
    proof {
        lemma_compiled_texts(include_regexes@, rule.include_filename_regexes@);
        lemma_compiled_texts(exclude_regexes@, rule.exclude_filename_regexes@);
    }
    Ok(
        CategoryRule {
            include_extensions: lowercase_all(&rule.include_extensions),
            include_filenames: copy_texts(&rule.include_filenames),
            include_filename_regexes: include_regexes,
            exclude_filenames: copy_texts(&rule.exclude_filenames),
            exclude_filename_regexes: exclude_regexes,
        },
    )
}

} // verus!
