//! Configuration files: the version they declare, the categories they name,
//! and how a configuration's rules are laid over the default rules.

use vstd::prelude::*;

use crate::analyzer::{copy_opt_string, opt_text};
use crate::config::{
    category_at, category_at_exec, compile_failure, compile_rule, diagnostics_view, rule_compiled, rule_compiles,
    rules_check, texts, validate_raw_rules, CategoryClassifier, CategoryRule, RawCategoryRule, RuleMode,
};
use crate::report::{file_category_index, file_category_name, FileCategory, InventoryDiagnostic};
use crate::dependencies::{debug_quoted, debug_text};
use crate::error::InventoryError;
use crate::text::{decimal, push_decimal, push_text, text_eq};

verus! {

/// A semantic version, part by part.
#[derive(Debug)]
pub struct SemanticVersion {
    pub major: u64,
    pub minor: u64,
    pub patch: u64,
    pub pre: String,
    pub build: String,
}

pub open spec fn version_parts(v: SemanticVersion) -> (u64, u64, u64, Seq<char>, Seq<char>) {
    (v.major, v.minor, v.patch, v.pre@, v.build@)
}

/// What `semver::Version::parse` gives for a text: the parts of the version,
/// or the text of its error.
pub uninterp spec fn semver_parse(text: Seq<char>) -> Result<(u64, u64, u64, Seq<char>, Seq<char>), Seq<char>>;

/// Reads a version with `semver::Version::parse`. Claimed: the result, its
/// parts or the error's text, is `semver_parse` of the text; which texts are
/// versions is left to the crate.
#[verifier::external_body]
fn parse_semver(text: &str) -> (r: Result<SemanticVersion, String>)
    ensures
        match r {
            Ok(v) => semver_parse(text@) == Ok::<(u64, u64, u64, Seq<char>, Seq<char>), Seq<char>>(version_parts(v)),
            Err(e) => semver_parse(text@) == Err::<(u64, u64, u64, Seq<char>, Seq<char>), Seq<char>>(e@),
        },
{
    match semver::Version::parse(text) {
        Ok(v) => Ok(
            SemanticVersion {
                major: v.major,
                minor: v.minor,
                patch: v.patch,
                pre: v.pre.as_str().to_string(),
                build: v.build.as_str().to_string(),
            },
        ),
        Err(e) => Err(e.to_string()),
    }
}

/// The parts of the configuration format version that this library reads,
/// 0.1.0.
pub open spec fn supported_parts() -> (u64, u64, u64, Seq<char>, Seq<char>) {
    (0, 1, 0, Seq::empty(), Seq::empty())
}

/// A version written as `major.minor.patch`, then `-pre` and `+build` where
/// they are not empty.
pub open spec fn version_text(p: (u64, u64, u64, Seq<char>, Seq<char>)) -> Seq<char> {
    decimal(p.0 as nat) + "."@ + decimal(p.1 as nat) + "."@ + decimal(p.2 as nat) + (if p.3.len() > 0 {
        "-"@ + p.3
    } else {
        Seq::empty()
    }) + (if p.4.len() > 0 {
        "+"@ + p.4
    } else {
        Seq::empty()
    })
}

/// The verdict on a declared configuration version, given what reading it
/// gave: an error when it is no version, or another version than 0.1.0.
pub open spec fn version_verdict(
    version: Seq<char>,
    parsed: Result<(u64, u64, u64, Seq<char>, Seq<char>), Seq<char>>,
) -> Result<(), Seq<char>> {
    match parsed {
        Err(e) => Err("config_version "@ + debug_text(version) + " is not valid Semantic Versioning: "@ + e),
        Ok(p) => if p == supported_parts() {
            Ok(())
        } else {
            Err("unsupported config_version "@ + version_text(p) + "; this codegraide version supports 0.1.0"@)
        },
    }
}

pub open spec fn parsed_view(parsed: Result<SemanticVersion, String>) -> Result<
    (u64, u64, u64, Seq<char>, Seq<char>),
    Seq<char>,
> {
    match parsed {
        Ok(v) => Ok(version_parts(v)),
        Err(e) => Err(e@),
    }
}

/// The text of a version, as `semver` displays it.
pub fn version_string(v: &SemanticVersion) -> (r: String)
    ensures
        r@ == version_text(version_parts(*v)),
{
    let mut s = String::new();
    push_decimal(&mut s, v.major);
    push_text(&mut s, ".");
    push_decimal(&mut s, v.minor);
    push_text(&mut s, ".");
    push_decimal(&mut s, v.patch);
    let ghost head = s@;
    proof {
        reveal_strlit(".");
        reveal_strlit("");
        reveal_strlit("-");
        reveal_strlit("+");
        assert(""@ =~= Seq::<char>::empty());
    }
    if !text_eq(v.pre.as_str(), "") {
        push_text(&mut s, "-");
        push_text(&mut s, v.pre.as_str());
        proof {
            if v.pre@.len() == 0 {
                assert(v.pre@ =~= ""@);
            }
        }
        assert(s@ =~= head + ("-"@ + v.pre@));
    } else {
        assert(v.pre@.len() == 0);
        assert(s@ =~= head + Seq::<char>::empty());
    }
    let ghost mid = s@;
    if !text_eq(v.build.as_str(), "") {
        push_text(&mut s, "+");
        push_text(&mut s, v.build.as_str());
        proof {
            if v.build@.len() == 0 {
                assert(v.build@ =~= ""@);
            }
        }
        assert(s@ =~= mid + ("+"@ + v.build@));
    } else {
        assert(v.build@.len() == 0);
        assert(s@ =~= mid + Seq::<char>::empty());
    }
    proof {
        let p = version_parts(*v);
        assert(head =~= decimal(p.0 as nat) + "."@ + decimal(p.1 as nat) + "."@ + decimal(p.2 as nat));
        assert(mid =~= head + (if p.3.len() > 0 {
            "-"@ + p.3
        } else {
            Seq::empty()
        }));
        assert(s@ =~= version_text(p));
    }
    s
}

/// Judges a declared configuration version by what reading it gave.
pub fn judge_version(version: &str, parsed: &Result<SemanticVersion, String>, path: &Option<String>) -> (r: Result<
    (),
    InventoryError,
>)
    ensures
        match r {
            Ok(()) => version_verdict(version@, parsed_view(*parsed)) is Ok,
            Err(InventoryError::Configuration { path: p, message: m }) => opt_text(p) == opt_text(*path)
                && version_verdict(version@, parsed_view(*parsed)) == Err::<(), Seq<char>>(m@),
            Err(_) => false,
        },
{
    proof {
        reveal_strlit("");
        assert(""@ =~= Seq::<char>::empty());
    }
    match parsed {
        Err(e) => {
            let mut m = String::new();
            push_text(&mut m, "config_version ");
            let q = debug_quoted(version);
            push_text(&mut m, q.as_str());
            push_text(&mut m, " is not valid Semantic Versioning: ");
            push_text(&mut m, e.as_str());
            Err(InventoryError::Configuration { path: copy_opt_string(path), message: m })
        },
        Ok(v) => {
            let supported = v.major == 0 && v.minor == 1 && v.patch == 0 && text_eq(v.pre.as_str(), "") && text_eq(
                v.build.as_str(),
                "",
            );
            if supported {
                proof {
                    assert(v.pre@ =~= Seq::<char>::empty());
                    assert(v.build@ =~= Seq::<char>::empty());
                    assert(version_parts(*v) == supported_parts());
                }
                Ok(())
            } else {
                let mut m = String::new();
                push_text(&mut m, "unsupported config_version ");
                let t = version_string(v);
                push_text(&mut m, t.as_str());
                push_text(&mut m, "; this codegraide version supports 0.1.0");
                proof {
                    assert(version_parts(*v) != supported_parts());
                }
                Err(InventoryError::Configuration { path: copy_opt_string(path), message: m })
            }
        },
    }
}

/// Checks the version that a configuration declares: it must be valid
/// Semantic Versioning and equal to 0.1.0.
pub fn check_config_version(version: &str, path: &Option<String>) -> (r: Result<(), InventoryError>)
    ensures
        match r {
            Ok(()) => version_verdict(version@, semver_parse(version@)) is Ok,
            Err(InventoryError::Configuration { path: p, message: m }) => opt_text(p) == opt_text(*path)
                && version_verdict(version@, semver_parse(version@)) == Err::<(), Seq<char>>(m@),
            Err(_) => false,
        },
{
    let parsed = parse_semver(version);
    judge_version(version, &parsed, path)
}

} // verus!

verus! {

/// The categories of a configuration as it is written: each category name
/// with its rule, in ascending name order.
#[derive(Debug)]
pub struct RawInventoryConfig {
    pub ignore_defaults: bool,
    pub categories: Vec<(String, RawCategoryRule)>,
}

/// A configuration file: the format version it declares and its inventory
/// rules.
#[derive(Debug)]
pub struct ConfigFile {
    pub config_version: String,
    pub inventory: RawInventoryConfig,
}

/// The category a name stands for, if any.
pub open spec fn named_category(name: Seq<char>) -> Option<FileCategory> {
    if name == "source"@ {
        Some(FileCategory::Source)
    } else if name == "documentation"@ {
        Some(FileCategory::Documentation)
    } else if name == "configuration"@ {
        Some(FileCategory::Configuration)
    } else if name == "data"@ {
        Some(FileCategory::Data)
    } else if name == "assets"@ {
        Some(FileCategory::Assets)
    } else if name == "uncategorized"@ {
        Some(FileCategory::Uncategorized)
    } else {
        None
    }
}

/// The rule of the last entry that names category `c`, if any.
pub open spec fn named_rule(cats: Seq<(String, RawCategoryRule)>, c: FileCategory) -> Option<RawCategoryRule>
    decreases cats.len(),
{
    if cats.len() == 0 {
        None
    } else if named_category(cats.last().0@) == Some(c) {
        Some(cats.last().1)
    } else {
        named_rule(cats.drop_last(), c)
    }
}

pub open spec fn unknown_category_message(name: Seq<char>) -> Seq<char> {
    "unknown category "@ + debug_text(name)
        + "; expected one of source, documentation, configuration, data, assets, uncategorized"@
}

/// Whether every entry before `n` names a category.
pub open spec fn names_known(cats: Seq<(String, RawCategoryRule)>, n: int) -> bool {
    forall|i: int| 0 <= i < n ==> named_category((#[trigger] cats[i]).0@) is Some
}

fn category_slot(c: FileCategory) -> (i: usize)
    ensures
        i == file_category_index(c),
        category_at(i as int) == c,
{
    match c {
        FileCategory::Source => 0,
        FileCategory::Documentation => 1,
        FileCategory::Configuration => 2,
        FileCategory::Data => 3,
        FileCategory::Assets => 4,
        FileCategory::Uncategorized => 5,
    }
}

proof fn lemma_named_category(name: Seq<char>, c: FileCategory)
    requires
        file_category_name(c) == name,
    ensures
        named_category(name) == Some(c),
{
    reveal_strlit("source");
    reveal_strlit("documentation");
    reveal_strlit("configuration");
    reveal_strlit("data");
    reveal_strlit("assets");
    reveal_strlit("uncategorized");
    let s = "source"@;
    let d = "documentation"@;
    let g = "configuration"@;
    let a = "data"@;
    let t = "assets"@;
    let u = "uncategorized"@;
    assert(s.len() == 6 && s[0] == 's');
    assert(d.len() == 13 && d[0] == 'd');
    assert(g.len() == 13 && g[0] == 'c');
    assert(a.len() == 4);
    assert(t.len() == 6 && t[0] == 'a');
    assert(u.len() == 13 && u[0] == 'u');
    assert(name.len() == file_category_name(c).len());
    assert(name[0] == file_category_name(c)[0]);
}

proof fn lemma_unnamed_category(name: Seq<char>)
    requires
        forall|c: FileCategory| file_category_name(c) != name,
    ensures
        named_category(name) is None,
{
    assert(file_category_name(FileCategory::Source) != name);
    assert(file_category_name(FileCategory::Documentation) != name);
    assert(file_category_name(FileCategory::Configuration) != name);
    assert(file_category_name(FileCategory::Data) != name);
    assert(file_category_name(FileCategory::Assets) != name);
    assert(file_category_name(FileCategory::Uncategorized) != name);
}

/// Places each category's rule in the slot of its category, in the fixed
/// category order; where a name comes twice the later rule stands. The first
/// name that is no category is an error.
#[verifier::loop_isolation(false)]
pub fn parse_categories(categories: Vec<(String, RawCategoryRule)>, path: &Option<String>) -> (r: Result<
    Vec<Option<RawCategoryRule>>,
    InventoryError,
>)
    ensures
        match r {
            Ok(slots) => names_known(categories@, categories.len() as int) && slots.len() == 6 && forall|k: int|
                0 <= k < 6 ==> #[trigger] slots@[k] == named_rule(categories@, category_at(k)),
            Err(InventoryError::Configuration { path: p, message: m }) => opt_text(p) == opt_text(*path) && exists|
                i: int,
            |
                0 <= i < categories.len() && names_known(categories@, i) && named_category(
                    (#[trigger] categories@[i]).0@,
                ) is None && m@ == unknown_category_message(categories@[i].0@),
            Err(_) => false,
        },
{
    let ghost all = categories@;
    let mut rest = categories;
    let mut slots: Vec<Option<RawCategoryRule>> = Vec::new();
    let mut k: usize = 0;
    while k < 6
        invariant
            k <= 6,
            slots.len() == k,
            forall|j: int| 0 <= j < k ==> (#[trigger] slots@[j]) is None,
        decreases 6 - k,
    {
        slots.push(None);
        k = k + 1;
    }
    let mut i: usize = 0;
    let n = rest.len();
    while i < n
        invariant
            n == all.len(),
            i <= n,
            rest@ == all.skip(i as int),
            slots.len() == 6,
            names_known(all, i as int),
            forall|j: int| 0 <= j < 6 ==> #[trigger] slots@[j] == named_rule(all.take(i as int), category_at(j)),
        decreases n - i,
    {
        let ghost before = slots@;
        let (name, rule) = rest.remove(0);
        proof {
            assert(all[i as int] == (name, rule));
            assert(all.take(i + 1).drop_last() =~= all.take(i as int));
            assert(all.take(i + 1).last() == all[i as int]);
        }
        match FileCategory::from_name(name.as_str()) {
            None => {
                proof {
                    lemma_unnamed_category(name@);
                }
                let mut m = String::new();
                push_text(&mut m, "unknown category ");
                let q = debug_quoted(name.as_str());
                push_text(&mut m, q.as_str());
                push_text(&mut m, "; expected one of source, documentation, configuration, data, assets, uncategorized");
                proof {
                    assert(names_known(all, i as int) && named_category(all[i as int].0@) is None && m@
                        == unknown_category_message(all[i as int].0@));
                }
                return Err(InventoryError::Configuration { path: copy_opt_string(path), message: m });
            },
            Some(c) => {
                proof {
                    lemma_named_category(name@, c);
                }
                let slot = category_slot(c);
                slots.set(slot, Some(rule));
                proof {
                    assert forall|j: int| 0 <= j < 6 implies #[trigger] slots@[j] == named_rule(
                        all.take(i + 1),
                        category_at(j),
                    ) by {
                        if j == slot as int {
                        } else {
                            assert(category_at(j) != c);
                            assert(slots@[j] == before[j]);
                        }
                    }
                }
            },
        }
        proof {
            assert(rest@ =~= all.skip(i + 1));
        }
        i = i + 1;
    }
    proof {
        assert(all.take(n as int) =~= all);
    }
    Ok(slots)
}

} // verus!

verus! {

/// The five selector lists of a rule, as texts.
pub open spec fn rule_lists(r: RawCategoryRule) -> Seq<Seq<Seq<char>>> {
    seq![
        texts(r.include_extensions@),
        texts(r.include_filenames@),
        texts(r.include_filename_regexes@),
        texts(r.exclude_filenames@),
        texts(r.exclude_filename_regexes@),
    ]
}

pub open spec fn no_lists() -> Seq<Seq<Seq<char>>> {
    seq![Seq::empty(), Seq::empty(), Seq::empty(), Seq::empty(), Seq::empty()]
}

pub open spec fn lists_concat(a: Seq<Seq<Seq<char>>>, b: Seq<Seq<Seq<char>>>) -> Seq<Seq<Seq<char>>> {
    seq![a[0] + b[0], a[1] + b[1], a[2] + b[2], a[3] + b[3], a[4] + b[4]]
}

/// A rule's mode and lists.
pub open spec fn rule_view(r: RawCategoryRule) -> (Option<RuleMode>, Seq<Seq<Seq<char>>>) {
    (r.mode, rule_lists(r))
}

pub open spec fn slot_view(d: Option<RawCategoryRule>) -> (Option<RuleMode>, Seq<Seq<Seq<char>>>) {
    match d {
        Some(r) => rule_view(r),
        None => (None, no_lists()),
    }
}

/// The rule of a category once a configuration's rule `c` is laid over the
/// default rule `d`: without a configured rule the default stands (nothing,
/// when the defaults are ignored); a configured rule replaces the default
/// when the defaults are ignored or its mode is "replace", and otherwise
/// extends it. A configured rule's mode is dropped.
pub open spec fn combined_rule(d: Option<RawCategoryRule>, c: Option<RawCategoryRule>, ignore_defaults: bool) -> (
    Option<RuleMode>,
    Seq<Seq<Seq<char>>>,
) {
    match c {
        None => if ignore_defaults {
            (None, no_lists())
        } else {
            slot_view(d)
        },
        Some(r) => if ignore_defaults || r.mode == Some(RuleMode::Replace) {
            (None, rule_lists(r))
        } else {
            (slot_view(d).0, lists_concat(slot_view(d).1, rule_lists(r)))
        },
    }
}

pub open spec fn extend_ignored_message(c: FileCategory) -> Seq<char> {
    "category "@ + file_category_name(c)
        + " requests mode \"extend\", but inventory.ignore_defaults is true; the child mode is ignored"@
}

/// The warnings, in category order among the first `n`, for configured
/// rules that ask to extend defaults that are ignored.
pub open spec fn extend_warnings(custom: Seq<Option<RawCategoryRule>>, n: int) -> Seq<(Seq<char>, Seq<char>)>
    decreases n,
{
    if n <= 0 {
        Seq::empty()
    } else {
        extend_warnings(custom, n - 1) + if custom[n - 1] matches Some(r) && r.mode == Some(RuleMode::Extend) {
            seq![("config-child-extend-ignored"@, extend_ignored_message(category_at(n - 1)))]
        } else {
            Seq::empty()
        }
    }
}

fn empty_lists_rule() -> (r: RawCategoryRule)
    ensures
        rule_view(r) == (None::<RuleMode>, no_lists()),
{
    let r = RawCategoryRule::empty();
    proof {
        assert(texts(r.include_extensions@) =~= Seq::empty());
        assert(texts(r.include_filenames@) =~= Seq::empty());
        assert(texts(r.include_filename_regexes@) =~= Seq::empty());
        assert(texts(r.exclude_filenames@) =~= Seq::empty());
        assert(texts(r.exclude_filename_regexes@) =~= Seq::empty());
        assert(rule_lists(r) =~= no_lists());
    }
    r
}

fn combine_slot(d: Option<RawCategoryRule>, c: Option<RawCategoryRule>, ignore_defaults: bool) -> (r: RawCategoryRule)
    ensures
        rule_view(r) == combined_rule(d, c, ignore_defaults),
{
    match c {
        None => {
            if ignore_defaults {
                empty_lists_rule()
            } else {
                match d {
                    Some(x) => x,
                    None => empty_lists_rule(),
                }
            }
        },
        Some(mut x) => {
            let extend = match x.mode {
                Some(RuleMode::Replace) => false,
                _ => !ignore_defaults,
            };
            if extend {
                let mut base = match d {
                    Some(y) => y,
                    None => empty_lists_rule(),
                };
                let ghost b = base;
                base.merge(&x);
                proof {
                    assert(rule_lists(base) =~= lists_concat(rule_lists(b), rule_lists(x)));
                }
                base
            } else {
                x.mode = None;
                x
            }
        },
    }
}

/// The rules of the six categories, in the fixed order, once a
/// configuration's rules are laid over the default rules, with a warning
/// for each configured rule that asks to extend ignored defaults, when
/// warnings are wanted.
pub fn combine_rules(
    defaults: Vec<Option<RawCategoryRule>>,
    custom: Vec<Option<RawCategoryRule>>,
    ignore_defaults: bool,
    emit_warnings: bool,
) -> (r: (Vec<RawCategoryRule>, Vec<InventoryDiagnostic>))
    requires
        defaults.len() == 6,
        custom.len() == 6,
    ensures
        r.0.len() == 6,
        forall|k: int| 0 <= k < 6 ==> rule_view(#[trigger] r.0@[k]) == combined_rule(defaults@[k], custom@[k], ignore_defaults),
        diagnostics_view(r.1@) == if ignore_defaults && emit_warnings {
            extend_warnings(custom@, 6)
        } else {
            Seq::empty()
        },
{
    let ghost ds = defaults@;
    let ghost cs = custom@;
    let mut drest = defaults;
    let mut crest = custom;
    let mut out: Vec<RawCategoryRule> = Vec::new();
    let mut diagnostics: Vec<InventoryDiagnostic> = Vec::new();
    let mut k: usize = 0;
    while k < 6
        invariant
            k <= 6,
            ds.len() == 6,
            cs.len() == 6,
            drest@ == ds.skip(k as int),
            crest@ == cs.skip(k as int),
            out.len() == k,
            forall|j: int| 0 <= j < k ==> rule_view(#[trigger] out@[j]) == combined_rule(ds[j], cs[j], ignore_defaults),
            diagnostics_view(diagnostics@) == if ignore_defaults && emit_warnings {
                extend_warnings(cs, k as int)
            } else {
                Seq::empty()
            },
        decreases 6 - k,
    {
        let d = drest.remove(0);
        let c = crest.remove(0);
        proof {
            assert(d == ds[k as int]);
            assert(c == cs[k as int]);
            reveal_strlit("config-child-extend-ignored");
        }
        let ghost before = diagnostics@;
        if ignore_defaults && emit_warnings {
            let wants_extend = match &c {
                Some(x) => match x.mode {
                    Some(RuleMode::Extend) => true,
                    _ => false,
                },
                None => false,
            };
            if wants_extend {
                let cat = category_at_exec(k);
                let mut message = String::new();
                push_text(&mut message, "category ");
                push_text(&mut message, cat.as_str());
                push_text(
                    &mut message,
                    " requests mode \"extend\", but inventory.ignore_defaults is true; the child mode is ignored",
                );
                diagnostics.push(InventoryDiagnostic { code: "config-child-extend-ignored".to_owned(), message });
                proof {
                    assert(diagnostics_view(diagnostics@) =~= diagnostics_view(before).push(
                        ("config-child-extend-ignored"@, extend_ignored_message(category_at(k as int))),
                    ));
                }
            } else {
                proof {
                    assert(diagnostics@ =~= before);
                }
            }
        }
        let rule = combine_slot(d, c, ignore_defaults);
        out.push(rule);
        proof {
            assert(drest@ =~= ds.skip(k + 1));
            assert(crest@ =~= cs.skip(k + 1));
        }
        k = k + 1;
    }
    (out, diagnostics)
}

} // verus!

verus! {

/// A rule in each slot.
pub open spec fn some_slots(rules: Seq<RawCategoryRule>) -> Seq<Option<RawCategoryRule>> {
    rules.map_values(|r: RawCategoryRule| Some(r))
}

impl CategoryClassifier {
    /// Checks the rules of the six categories, given in the fixed order, and
    /// compiles them. The first problem that the check finds is the error;
    /// else the first rule, in category order, with a regex that does not
    /// compile.
    pub fn from_rules(rules: Vec<RawCategoryRule>, path: &Option<String>) -> (r: Result<CategoryClassifier, InventoryError>)
        requires
            rules.len() == 6,
        ensures
            match r {
                Ok(c) => rules_check(some_slots(rules@), 6) is Ok && c.rules.len() == 6 && forall|k: int|
                    0 <= k < 6 ==> rule_compiled(#[trigger] c.rules@[k], rules@[k]),
                Err(InventoryError::Configuration { path: p, message: m }) => opt_text(p) == opt_text(*path) && match rules_check(
                    some_slots(rules@),
                    6,
                ) {
                    Err(e) => m@ == e,
                    Ok(_) => exists|k: int|
                        0 <= k < 6 && (forall|j: int| 0 <= j < k ==> rule_compiles(#[trigger] rules@[j]))
                            && compile_failure(category_at(k), #[trigger] rules@[k], m@),
                },
                Err(_) => false,
            },
    {
        let ghost all = rules@;
        let mut rest = rules;
        let mut slots: Vec<Option<RawCategoryRule>> = Vec::new();
        let mut k: usize = 0;
        while k < 6
            invariant
                k <= 6,
                all.len() == 6,
                rest@ == all.skip(k as int),
                slots@ == some_slots(all.take(k as int)),
            decreases 6 - k,
        {
            let x = rest.remove(0);
            proof {
                assert(x == all[k as int]);
            }
            slots.push(Some(x));
            proof {
                assert(some_slots(all.take(k + 1)) =~= some_slots(all.take(k as int)).push(Some(all[k as int])));
                assert(rest@ =~= all.skip(k + 1));
            }
            k = k + 1;
        }
        proof {
            assert(all.take(6) =~= all);
        }
        match validate_raw_rules(&slots, path) {
            Err(e) => {
                return Err(e);
            },
            Ok(()) => {},
        }
        let compiled = match compile_slots(&slots, path) {
            Ok(c) => c,
            Err(e) => {
                proof {
                    let k = choose|k: int|
                        0 <= k < 6 && (forall|j: int| 0 <= j < k ==> rule_compiles((#[trigger] slots@[j])->0))
                            && compile_failure(category_at(k), (#[trigger] slots@[k])->0, e->Configuration_message@);
                    assert(slots@[k] == Some(all[k]));
                    assert forall|j: int| 0 <= j < k implies rule_compiles(#[trigger] all[j]) by {
                        assert(slots@[j] == Some(all[j]));
                    }
                }
                return Err(e);
            },
        };
        proof {
            assert forall|j: int| 0 <= j < 6 implies rule_compiled(#[trigger] compiled@[j], all[j]) by {
                assert(slots@[j] == Some(all[j]));
            }
        }
        Ok(CategoryClassifier { rules: compiled })
    }
}

/// Compiles the rule in each of the six slots, in order; the first that
/// does not compile is the error.
fn compile_slots(slots: &Vec<Option<RawCategoryRule>>, path: &Option<String>) -> (r: Result<Vec<CategoryRule>, InventoryError>)
    requires
        slots.len() == 6,
        forall|k: int| 0 <= k < 6 ==> (#[trigger] slots@[k]) is Some,
    ensures
        match r {
            Ok(c) => c.len() == 6 && forall|k: int| 0 <= k < 6 ==> rule_compiled(#[trigger] c@[k], slots@[k]->0),
            Err(InventoryError::Configuration { path: p, message: m }) => opt_text(p) == opt_text(*path) && exists|k: int|
                0 <= k < 6 && (forall|j: int| 0 <= j < k ==> rule_compiles((#[trigger] slots@[j])->0)) && compile_failure(
                    category_at(k),
                    (#[trigger] slots@[k])->0,
                    m@,
                ),
            Err(_) => false,
        },
{
    let mut compiled: Vec<CategoryRule> = Vec::new();
    let mut k: usize = 0;
    while k < 6
        invariant
            k <= 6,
            slots.len() == 6,
            forall|k: int| 0 <= k < 6 ==> (#[trigger] slots@[k]) is Some,
            compiled.len() == k,
            forall|j: int| 0 <= j < k ==> rule_compiled(#[trigger] compiled@[j], slots@[j]->0),
        decreases 6 - k,
    {
        match &slots[k] {
            Some(rule) => {
                match compile_rule(category_at_exec(k), rule, path) {
                    Ok(c) => {
                        compiled.push(c);
                    },
                    Err(e) => {
                        proof {
                            assert forall|j: int| 0 <= j < k implies rule_compiles((#[trigger] slots@[j])->0) by {
                                lemma_compiled_compiles(compiled@[j], slots@[j]->0);
                            }
                            assert(slots@[k as int]->0 == *rule);
                        }
                        return Err(e);
                    },
                }
            },
            None => {
                proof {
                    assert(slots@[k as int] is Some);
                }
            },
        }
        k = k + 1;
    }
    Ok(compiled)
}

proof fn lemma_compiled_compiles(c: CategoryRule, rule: RawCategoryRule)
    requires
        rule_compiled(c, rule),
    ensures
        rule_compiles(rule),
{
    assert(texts(rule.include_filename_regexes@).len() == rule.include_filename_regexes.len());
    assert(texts(rule.exclude_filename_regexes@).len() == rule.exclude_filename_regexes.len());
}

} // verus!

verus! {

/// The rules a configuration gives each category, in the fixed order.
pub open spec fn config_slots(cfg: ConfigFile) -> Seq<Option<RawCategoryRule>> {
    Seq::new(6, |k: int| named_rule(cfg.inventory.categories@, category_at(k)))
}

/// Whether a configuration declares the supported version and names only
/// categories.
pub open spec fn config_accepted(cfg: ConfigFile) -> bool {
    &&& version_verdict(cfg.config_version@, semver_parse(cfg.config_version@)) is Ok
    &&& names_known(cfg.inventory.categories@, cfg.inventory.categories.len() as int)
}

/// Whether `m` is why a configuration is refused: its version, else the
/// first name that is no category.
pub open spec fn config_refusal(cfg: ConfigFile, m: Seq<char>) -> bool {
    let cats = cfg.inventory.categories@;
    ||| version_verdict(cfg.config_version@, semver_parse(cfg.config_version@)) == Err::<(), Seq<char>>(m)
    ||| version_verdict(cfg.config_version@, semver_parse(cfg.config_version@)) is Ok && exists|i: int|
        0 <= i < cats.len() && names_known(cats, i) && named_category((#[trigger] cats[i]).0@) is None && m
            == unknown_category_message(cats[i].0@)
}

/// The configured rules laid over the defaults: none when there is no
/// configuration.
pub open spec fn custom_slots(custom: Option<ConfigFile>) -> Seq<Option<RawCategoryRule>> {
    match custom {
        Some(x) => config_slots(x),
        None => Seq::new(6, |k: int| None),
    }
}

pub open spec fn ignores_defaults(custom: Option<ConfigFile>) -> bool {
    custom matches Some(x) && x.inventory.ignore_defaults
}

/// Whether `rules` are the six combined rules of the defaults and a
/// configuration.
pub open spec fn combined_rules(rules: Seq<RawCategoryRule>, defaults: ConfigFile, custom: Option<ConfigFile>) -> bool {
    &&& rules.len() == 6
    &&& forall|k: int|
        0 <= k < 6 ==> rule_view(#[trigger] rules[k]) == combined_rule(
            config_slots(defaults)[k],
            custom_slots(custom)[k],
            ignores_defaults(custom),
        )
}

fn accept_config(cfg: ConfigFile, path: &Option<String>) -> (r: Result<(bool, Vec<Option<RawCategoryRule>>), InventoryError>)
    ensures
        match r {
            Ok((ignore, slots)) => config_accepted(cfg) && ignore == cfg.inventory.ignore_defaults && slots@ == config_slots(
                cfg,
            ),
            Err(InventoryError::Configuration { path: p, message: m }) => opt_text(p) == opt_text(*path) && config_refusal(
                cfg,
                m@,
            ),
            Err(_) => false,
        },
{
    let ghost c = cfg;
    match check_config_version(cfg.config_version.as_str(), path) {
        Err(e) => {
            return Err(e);
        },
        Ok(()) => {},
    }
    let ignore = cfg.inventory.ignore_defaults;
    match parse_categories(cfg.inventory.categories, path) {
        Err(e) => Err(e),
        Ok(slots) => {
            proof {
                assert(slots@ =~= config_slots(c));
            }
            Ok((ignore, slots))
        },
    }
}

impl CategoryClassifier {
    /// Builds the classifier from the default configuration and, where
    /// there is one, a configuration file that lays its rules over the
    /// defaults: both must be accepted, then the combined rules must pass the
    /// checks and compile. Warnings for configured rules that ask to extend
    /// ignored defaults come with it, when warnings are wanted.
    pub fn load(defaults: ConfigFile, custom: Option<ConfigFile>, path: &Option<String>, emit_warnings: bool) -> (r:
        Result<(CategoryClassifier, Vec<InventoryDiagnostic>), InventoryError>)
        ensures
            match r {
                Ok((c, d)) => {
                    &&& config_accepted(defaults)
                    &&& (custom is Some ==> config_accepted(custom->0))
                    &&& c.rules.len() == 6
                    &&& exists|rules: Seq<RawCategoryRule>|
                        combined_rules(rules, defaults, custom) && rules_check(some_slots(rules), 6) is Ok && forall|
                            k: int,
                        | 0 <= k < 6 ==> rule_compiled(#[trigger] c.rules@[k], rules[k])
                    &&& diagnostics_view(d@) == if ignores_defaults(custom) && emit_warnings {
                        extend_warnings(custom_slots(custom), 6)
                    } else {
                        Seq::empty()
                    }
                },
                Err(InventoryError::Configuration { path: p, message: m }) => if !config_accepted(defaults) {
                    p is None && config_refusal(defaults, m@)
                } else if custom is Some && !config_accepted(custom->0) {
                    opt_text(p) == opt_text(*path) && config_refusal(custom->0, m@)
                } else {
                    opt_text(p) == opt_text(*path) && exists|rules: Seq<RawCategoryRule>|
                        combined_rules(rules, defaults, custom) && match rules_check(some_slots(rules), 6) {
                            Err(e) => m@ == e,
                            Ok(_) => exists|k: int|
                                0 <= k < 6 && (forall|j: int| 0 <= j < k ==> rule_compiles(#[trigger] rules[j]))
                                    && compile_failure(category_at(k), #[trigger] rules[k], m@),
                        }
                },
                Err(_) => false,
            },
    {
        let ghost dv = defaults;
        let ghost cv = custom;
        let (_, default_slots) = match accept_config(defaults, &None) {
            Ok(x) => x,
            Err(e) => {
                return Err(e);
            },
        };
        let (ignore, custom_rules) = match custom {
            Some(x) => match accept_config(x, path) {
                Ok(y) => y,
                Err(e) => {
                    return Err(e);
                },
            },
            None => {
                let mut none: Vec<Option<RawCategoryRule>> = Vec::new();
                let mut k: usize = 0;
                while k < 6
                    invariant
                        k <= 6,
                        none.len() == k,
                        forall|j: int| 0 <= j < k ==> (#[trigger] none@[j]) is None,
                    decreases 6 - k,
                {
                    none.push(None);
                    k = k + 1;
                }
                proof {
                    assert(none@ =~= custom_slots(cv));
                }
                (false, none)
            },
        };
        proof {
            assert(custom_rules@ == custom_slots(cv));
            assert(ignore == ignores_defaults(cv));
        }
        let (rules, diagnostics) = combine_rules(default_slots, custom_rules, ignore, emit_warnings);
        proof {
            assert(combined_rules(rules@, dv, cv));
        }
        match CategoryClassifier::from_rules(rules, path) {
            Ok(c) => Ok((c, diagnostics)),
            Err(e) => Err(e),
        }
    }
}

} // verus!
