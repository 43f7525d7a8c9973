//! Which inventoried files an analysis of a directory takes: those whose
//! path matches one of the `--match` regexes, or all when none is given.

use vstd::prelude::*;

use crate::analysis::AnalysisError;
use crate::config::{regex_accepts, regex_new_error, BuiltRegex};
use crate::dependencies::{debug_quoted, debug_text};
use crate::documentation::{path_order_key, path_order_key_exec};
use crate::order::{covers_key, key_compare, key_view, keys_view, unique_sorted_order, AtomView, KeyAtom};
use crate::report::RepositoryInventory;
use crate::text::push_text;

verus! {

/// The pattern compiled for a `--match` regex: it must match the whole path.
pub open spec fn match_pattern(raw: Seq<char>) -> Seq<char> {
    "^(?:"@ + raw + ")$"@
}

/// Why a `--match` regex is refused, if it is.
pub open spec fn match_pattern_error(raw: Seq<char>) -> Option<Seq<char>> {
    if raw.len() == 0 {
        Some("--match patterns cannot be empty"@)
    } else {
        match regex_new_error(match_pattern(raw)) {
            Some(e) => Some("invalid --match regex "@ + debug_text(raw) + ": "@ + e),
            None => None,
        }
    }
}

/// The inventory lists the path in some category.
pub open spec fn inventory_lists(inv: RepositoryInventory, x: Seq<char>) -> bool {
    exists|c: int, i: int|
        0 <= c < inv.files_by_category.len() && 0 <= i < inv.files_by_category[c].len()
            && (#[trigger] inv.files_by_category[c][i])@ == x
}

/// Some pattern matches the whole path.
pub open spec fn some_pattern_matches(patterns: Seq<String>, x: Seq<char>) -> bool {
    exists|i: int| 0 <= i < patterns.len() && regex_accepts(match_pattern((#[trigger] patterns[i])@), x)
}

/// A path the selection takes: inventoried, and matched by a pattern when
/// there are patterns.
pub open spec fn selects(inv: RepositoryInventory, patterns: Seq<String>, x: Seq<char>) -> bool {
    inventory_lists(inv, x) && (patterns.len() == 0 || some_pattern_matches(patterns, x))
}

/// The first refused pattern, if any, gives the message.
pub open spec fn first_refusal(patterns: Seq<String>, m: Seq<char>) -> bool {
    exists|i: int|
        0 <= i < patterns.len() && match_pattern_error((#[trigger] patterns[i])@) == Some(m) && forall|j: int|
            0 <= j < i ==> match_pattern_error(patterns[j]@) is None
}

/// `sel` is the selection: every pattern accepted, the selected paths
/// ascending by components, each selected, every selected path present (by
/// its components), and something selected when there are patterns.
pub open spec fn selection_of(inv: RepositoryInventory, patterns: Seq<String>, sel: Seq<String>) -> bool {
    &&& forall|i: int| 0 <= i < patterns.len() ==> match_pattern_error((#[trigger] patterns[i])@) is None
    &&& forall|i: int, j: int| 0 <= i < j < sel.len() ==> key_compare(path_order_key(sel[i]@), path_order_key(sel[j]@)) == -1
    &&& forall|i: int| 0 <= i < sel.len() ==> selects(inv, patterns, (#[trigger] sel[i])@)
    &&& forall|x: Seq<char>|
        #[trigger] selects(inv, patterns, x) ==> exists|i: int|
            0 <= i < sel.len() && path_order_key((#[trigger] sel[i])@) == path_order_key(x)
    &&& patterns.len() > 0 ==> sel.len() > 0
}

fn compile_matchers(patterns: &Vec<String>) -> (r: Result<Vec<BuiltRegex>, String>)
    ensures
        match r {
            Ok(v) => v.len() == patterns.len() && forall|i: int|
                0 <= i < patterns.len() ==> match_pattern_error((#[trigger] patterns[i])@) is None && v[i]@ == match_pattern(
                    patterns[i]@,
                ),
            Err(m) => first_refusal(patterns@, m@),
        },
{
    let mut out: Vec<BuiltRegex> = Vec::new();
    let mut i: usize = 0;
    while i < patterns.len()
        invariant
            i <= patterns.len(),
            out.len() == i,
            forall|j: int| 0 <= j < i ==> match_pattern_error((#[trigger] patterns[j])@) is None && out[j]@ == match_pattern(
                patterns[j]@,
            ),
        decreases patterns.len() - i,
    {
        let raw = patterns[i].as_str();
        if raw.unicode_len() == 0 {
            proof {
                assert(match_pattern_error(patterns[i as int]@) == Some("--match patterns cannot be empty"@));
            }
            return Err("--match patterns cannot be empty".to_owned());
        }
        let mut pattern = String::new();
        push_text(&mut pattern, "^(?:");
        push_text(&mut pattern, raw);
        push_text(&mut pattern, ")$");
        assert(pattern@ =~= match_pattern(raw@));
        match BuiltRegex::build(pattern.as_str()) {
            Ok(b) => {
                out.push(b);
            },
            Err(e) => {
                let mut m = String::new();
                push_text(&mut m, "invalid --match regex ");
                let q = debug_quoted(raw);
                push_text(&mut m, q.as_str());
                push_text(&mut m, ": ");
                push_text(&mut m, e.as_str());
                proof {
                    assert(match_pattern_error(patterns[i as int]@) == Some(m@));
                }
                return Err(m);
            },
        }
        i = i + 1;
    }
    Ok(out)
}

fn matches_any(matchers: &Vec<BuiltRegex>, patterns: &Vec<String>, path: &str) -> (r: bool)
    requires
        matchers.len() == patterns.len(),
        forall|i: int| 0 <= i < patterns.len() ==> (#[trigger] matchers[i])@ == match_pattern(patterns[i]@),
    ensures
        r == some_pattern_matches(patterns@, path@),
{
    let mut i: usize = 0;
    while i < matchers.len()
        invariant
            i <= matchers.len(),
            matchers.len() == patterns.len(),
            forall|j: int| 0 <= j < patterns.len() ==> (#[trigger] matchers[j])@ == match_pattern(patterns[j]@),
            forall|j: int| 0 <= j < i ==> !regex_accepts(match_pattern((#[trigger] patterns[j])@), path@),
        decreases matchers.len() - i,
    {
        if matchers[i].is_match(path) {
            proof {
                assert(regex_accepts(match_pattern(patterns[i as int]@), path@));
            }
            return true;
        }
        i = i + 1;
    }
    false
}

/// The inventoried files an analysis takes, ascending by path components,
/// each path once: those that some `--match` regex matches in whole, or all
/// when there are none. A refused regex is an error (the first one, in
/// order), and so is a selection that the regexes leave empty.
pub fn select_files(inventory: &RepositoryInventory, patterns: &Vec<String>) -> (r: Result<Vec<String>, AnalysisError>)
    ensures
        match r {
            Ok(sel) => selection_of(*inventory, patterns@, sel@),
            Err(AnalysisError::InvalidInput { message: m }) => first_refusal(patterns@, m@) || {
                &&& forall|i: int| 0 <= i < patterns.len() ==> match_pattern_error((#[trigger] patterns[i])@) is None
                &&& patterns.len() > 0
                &&& forall|x: Seq<char>| !#[trigger] selects(*inventory, patterns@, x)
                &&& m@ == "--match did not select any inventoried files"@
            },
            Err(_) => false,
        },
{
    let matchers = match compile_matchers(patterns) {
        Ok(v) => v,
        Err(m) => {
            return Err(AnalysisError::InvalidInput { message: m });
        },
    };
    let mut cands: Vec<String> = Vec::new();
    let mut keys: Vec<Vec<KeyAtom>> = Vec::new();
    let ghost cats = inventory.files_by_category@;
    let mut c: usize = 0;
    while c < inventory.files_by_category.len()
        invariant
            c <= inventory.files_by_category.len(),
            matchers.len() == patterns.len(),
            forall|j: int| 0 <= j < patterns.len() ==> (#[trigger] matchers[j])@ == match_pattern(patterns[j]@),
            keys.len() == cands.len(),
            forall|k: int| 0 <= k < cands.len() ==> key_view(#[trigger] keys[k]@) == path_order_key(cands[k]@),
            forall|k: int| 0 <= k < cands.len() ==> selects(*inventory, patterns@, (#[trigger] cands[k])@),
            forall|c2: int, i2: int|
                0 <= c2 < c && 0 <= i2 < inventory.files_by_category[c2].len() && selects(
                    *inventory,
                    patterns@,
                    (#[trigger] inventory.files_by_category[c2][i2])@,
                ) ==> exists|k: int| 0 <= k < cands.len() && (#[trigger] cands[k])@ == inventory.files_by_category[c2][i2]@,
        decreases inventory.files_by_category.len() - c,
    {
        let files = &inventory.files_by_category[c];
        let mut i: usize = 0;
        while i < files.len()
            invariant
                c < inventory.files_by_category.len(),
                files == inventory.files_by_category[c as int],
                i <= files.len(),
                matchers.len() == patterns.len(),
                forall|j: int| 0 <= j < patterns.len() ==> (#[trigger] matchers[j])@ == match_pattern(patterns[j]@),
                keys.len() == cands.len(),
                forall|k: int| 0 <= k < cands.len() ==> key_view(#[trigger] keys[k]@) == path_order_key(cands[k]@),
                forall|k: int| 0 <= k < cands.len() ==> selects(*inventory, patterns@, (#[trigger] cands[k])@),
                forall|c2: int, i2: int|
                    0 <= c2 < c && 0 <= i2 < inventory.files_by_category[c2].len() && selects(
                        *inventory,
                        patterns@,
                        (#[trigger] inventory.files_by_category[c2][i2])@,
                    ) ==> exists|k: int| 0 <= k < cands.len() && (#[trigger] cands[k])@ == inventory.files_by_category[c2][i2]@,
                forall|i2: int|
                    0 <= i2 < i && selects(*inventory, patterns@, (#[trigger] files[i2])@) ==> exists|k: int|
                        0 <= k < cands.len() && (#[trigger] cands[k])@ == files[i2]@,
            decreases files.len() - i,
        {
            let path = files[i].as_str();
            let take = patterns.len() == 0 || matches_any(&matchers, patterns, path);
            proof {
                assert(inventory_lists(*inventory, files[i as int]@)) by {
                    assert(inventory.files_by_category[c as int][i as int] == files[i as int]);
                }
            }
            if take {
                let ghost before = cands@;
                cands.push(crate::text::copy_string(&files[i]));
                keys.push(path_order_key_exec(path));
                proof {
                    assert(cands[cands.len() - 1]@ == files[i as int]@);
                    assert forall|c2: int, i2: int|
                        0 <= c2 < c && 0 <= i2 < inventory.files_by_category[c2].len() && selects(
                            *inventory,
                            patterns@,
                            (#[trigger] inventory.files_by_category[c2][i2])@,
                        ) implies exists|k: int| 0 <= k < cands.len() && (#[trigger] cands[k])@ == inventory.files_by_category[c2][i2]@ by {
                        let k = choose|k: int| 0 <= k < before.len() && (#[trigger] before[k])@ == inventory.files_by_category[c2][i2]@;
                        assert(cands[k] == before[k]);
                    }
                    assert forall|i2: int|
                        0 <= i2 < i + 1 && selects(*inventory, patterns@, (#[trigger] files[i2])@) implies exists|k: int|
                            0 <= k < cands.len() && (#[trigger] cands[k])@ == files[i2]@ by {
                        if i2 < i {
                            let k = choose|k: int| 0 <= k < before.len() && (#[trigger] before[k])@ == files[i2]@;
                            assert(cands[k] == before[k]);
                        } else {
                            assert(cands[cands.len() - 1]@ == files[i2]@);
                        }
                    }
                }
            }
            i = i + 1;
        }
        proof {
            assert forall|c2: int, i2: int|
                0 <= c2 < c + 1 && 0 <= i2 < inventory.files_by_category[c2].len() && selects(
                    *inventory,
                    patterns@,
                    (#[trigger] inventory.files_by_category[c2][i2])@,
                ) implies exists|k: int| 0 <= k < cands.len() && (#[trigger] cands[k])@ == inventory.files_by_category[c2][i2]@ by {
                if c2 == c {
                    assert(files[i2] == inventory.files_by_category[c2][i2]);
                }
            }
        }
        c = c + 1;
    }
    let order = unique_sorted_order(&keys);
    let ghost kv = keys_view(keys@);
    let mut sel: Vec<String> = Vec::new();
    let mut t: usize = 0;
    while t < order.len()
        invariant
            t <= order.len(),
            kv == keys_view(keys@),
            keys.len() == cands.len(),
            forall|k: int| 0 <= k < cands.len() ==> key_view(#[trigger] keys[k]@) == path_order_key(cands[k]@),
            forall|q: int| 0 <= q < order.len() ==> #[trigger] order[q] < keys.len(),
            sel.len() == t,
            forall|q: int| 0 <= q < t ==> (#[trigger] sel[q])@ == cands[order[q] as int]@,
        decreases order.len() - t,
    {
        sel.push(crate::text::copy_string(&cands[order[t]]));
        t = t + 1;
    }
    proof {
        assert forall|i: int, j: int| 0 <= i < j < sel.len() implies key_compare(path_order_key(sel[i]@), path_order_key(sel[j]@)) == -1 by {
            assert(kv[order[i] as int] == key_view(keys[order[i] as int]@));
            assert(kv[order[j] as int] == key_view(keys[order[j] as int]@));
        }
        assert forall|i: int| 0 <= i < sel.len() implies selects(*inventory, patterns@, (#[trigger] sel[i])@) by {
            assert(sel[i]@ == cands[order[i] as int]@);
        }
        assert forall|x: Seq<char>| #[trigger] selects(*inventory, patterns@, x) implies exists|i: int|
            0 <= i < sel.len() && path_order_key((#[trigger] sel[i])@) == path_order_key(x) by {
            let (c2, i2) = choose|c2: int, i2: int|
                0 <= c2 < inventory.files_by_category.len() && 0 <= i2 < inventory.files_by_category[c2].len()
                    && (#[trigger] inventory.files_by_category[c2][i2])@ == x;
            let k = choose|k: int| 0 <= k < cands.len() && (#[trigger] cands[k])@ == inventory.files_by_category[c2][i2]@;
            assert(covers_key(kv, order@, k));
            let q = choose|q: int| 0 <= q < order.len() && kv[order[q] as int] == kv[k];
            assert(kv[k] == key_view(keys[k]@));
            assert(kv[order[q] as int] == key_view(keys[order[q] as int]@));
            assert(sel[q]@ == cands[order[q] as int]@);
        }
    }
    if patterns.len() > 0 && sel.len() == 0 {
        proof {
            assert forall|x: Seq<char>| !#[trigger] selects(*inventory, patterns@, x) by {
                if selects(*inventory, patterns@, x) {
                    let i = choose|i: int| 0 <= i < sel.len() && path_order_key((#[trigger] sel[i])@) == path_order_key(x);
                }
            }
        }
        return Err(AnalysisError::InvalidInput { message: "--match did not select any inventoried files".to_owned() });
    }
    assert(selection_of(*inventory, patterns@, sel@));
    Ok(sel)
}

} // verus!
