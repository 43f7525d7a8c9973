//! Per-file inventory rules: which language a path belongs to, its
//! normalized extension, the directories that are never walked, and how one
//! discovered file is tallied into the inventory.

use vstd::prelude::*;

use crate::order::text_compare;
use crate::paths::{
    ascii_lower, ascii_lowercase, extension, is_named_piece, lemma_file_name_of_last_piece, lemma_name_extension_of,
    path_extension,
};
use crate::report::{
    file_category_index, ExtensionId, FileCategory, LanguageId, RepositoryInventory,
};
use crate::text::{string_from_chars, text_eq};

verus! {

/// Options of a repository inventory.
#[derive(Debug)]
pub struct InventoryOptions {
    pub include_ignored: Vec<String>,
    pub config_path: Option<String>,
    pub audit_ignored: bool,
    pub emit_warnings: bool,
}

impl Default for InventoryOptions {
    fn default() -> (r: InventoryOptions)
        ensures
            r.include_ignored.len() == 0,
            r.config_path is None,
            !r.audit_ignored,
            r.emit_warnings,
    {
        InventoryOptions {
            include_ignored: Vec::new(),
            config_path: None,
            audit_ignored: false,
            emit_warnings: true,
        }
    }
}

/// The language of a lowercased extension.
pub open spec fn language_of_extension(e: Seq<char>) -> Option<Seq<char>> {
    if e == "py"@ {
        Some("python"@)
    } else if e == "rs"@ {
        Some("rust"@)
    } else if e == "c"@ {
        Some("c"@)
    } else if e == "cc"@ || e == "cpp"@ || e == "cxx"@ || e == "hh"@ || e == "hpp"@ || e == "hxx"@ {
        Some("cpp"@)
    } else {
        None
    }
}

/// The language of a path, by its extension, ASCII case ignored.
pub open spec fn path_language(p: Seq<char>) -> Option<Seq<char>> {
    match extension(p) {
        Some(e) => language_of_extension(ascii_lower(e)),
        None => None,
    }
}

/// The normalized extension of a path: lowercased, or `[none]`.
pub open spec fn extension_label(p: Seq<char>) -> Seq<char> {
    match extension(p) {
        Some(e) => ascii_lower(e),
        None => "[none]"@,
    }
}

/// The language of a path, if its extension names one.
pub fn detect_language(path: &str) -> (r: Option<LanguageId>)
    ensures
        match r {
            Some(l) => path_language(path@) == Some(l@),
            None => path_language(path@) is None,
        },
{
    let ext = match path_extension(path) {
        Some(e) => e,
        None => return None,
    };
    let lower = ascii_lowercase(&ext);
    let s = string_from_chars(&lower);
    let e = s.as_str();
    if text_eq(e, "py") {
        Some(LanguageId::new("python"))
    } else if text_eq(e, "rs") {
        Some(LanguageId::new("rust"))
    } else if text_eq(e, "c") {
        Some(LanguageId::new("c"))
    } else if text_eq(e, "cc") || text_eq(e, "cpp") || text_eq(e, "cxx") || text_eq(e, "hh")
        || text_eq(e, "hpp") || text_eq(e, "hxx") {
        Some(LanguageId::new("cpp"))
    } else {
        None
    }
}

/// The normalized extension of a path.
pub fn extension_id(path: &str) -> (r: ExtensionId)
    ensures
        r@ == extension_label(path@),
{
    match path_extension(path) {
        Some(e) => {
            let lower = ascii_lowercase(&e);
            let s = string_from_chars(&lower);
            ExtensionId::new(s.as_str())
        },
        None => ExtensionId::new("[none]"),
    }
}

/// Whether a directory is never walked: `.git`, `target` or `__pycache__`.
pub fn should_ignore_directory(name: &str) -> (r: bool)
    ensures
        r == (name@ == ".git"@ || name@ == "target"@ || name@ == "__pycache__"@),
{
    text_eq(name, ".git") || text_eq(name, "target") || text_eq(name, "__pycache__")
}

/// Keys of a tally in strictly increasing text order.
pub open spec fn tally_sorted(v: Seq<(Seq<char>, usize)>) -> bool {
    forall|i: int, j: int| 0 <= i < j < v.len() ==> text_compare(v[i].0, v[j].0) == -1
}

/// The count a tally holds for a key; zero when the key is absent.
pub open spec fn tally_get(v: Seq<(Seq<char>, usize)>, k: Seq<char>) -> int
    decreases v.len(),
{
    if v.len() == 0 {
        0
    } else if v.last().0 == k {
        v.last().1 as int
    } else {
        tally_get(v.drop_last(), k)
    }
}

pub open spec fn has_key(v: Seq<(Seq<char>, usize)>, k: Seq<char>) -> bool {
    exists|i: int| 0 <= i < v.len() && #[trigger] v[i].0 == k
}

/// `new` is `old` with one more occurrence of `k`.
pub open spec fn tally_incremented(old: Seq<(Seq<char>, usize)>, new: Seq<(Seq<char>, usize)>, k: Seq<char>) -> bool {
    &&& tally_sorted(new)
    &&& forall|x: Seq<char>| #[trigger] has_key(new, x) <==> has_key(old, x) || x == k
    &&& forall|x: Seq<char>| #[trigger] tally_get(new, x) == tally_get(old, x) + (if x == k { 1int } else { 0 })
}

pub open spec fn language_tally(v: Seq<(LanguageId, usize)>) -> Seq<(Seq<char>, usize)> {
    v.map_values(|p: (LanguageId, usize)| (p.0@, p.1))
}

pub open spec fn extension_tally(v: Seq<(ExtensionId, usize)>) -> Seq<(Seq<char>, usize)> {
    v.map_values(|p: (ExtensionId, usize)| (p.0@, p.1))
}

proof fn lemma_tally_get_index(v: Seq<(Seq<char>, usize)>, i: int)
    requires
        tally_sorted(v),
        0 <= i < v.len(),
    ensures
        tally_get(v, v[i].0) == v[i].1,
    decreases v.len(),
{
    if i < v.len() - 1 {
        crate::order::lemma_text_facts(v[i].0, v.last().0);
        assert(v.drop_last()[i] == v[i]);
        lemma_tally_get_index(v.drop_last(), i);
    }
}

proof fn lemma_tally_get_absent(v: Seq<(Seq<char>, usize)>, k: Seq<char>)
    requires
        !has_key(v, k),
    ensures
        tally_get(v, k) == 0,
    decreases v.len(),
{
    if v.len() > 0 {
        assert(v.last() == v[v.len() - 1]);
        assert(!has_key(v.drop_last(), k)) by {
            if has_key(v.drop_last(), k) {
                let i = choose|i: int| 0 <= i < v.drop_last().len() && v.drop_last()[i].0 == k;
                assert(v[i].0 == k);
            }
        }
        lemma_tally_get_absent(v.drop_last(), k);
    }
}

/// Every key's count, read by position.
proof fn lemma_tally_get_all(v: Seq<(Seq<char>, usize)>, k: Seq<char>)
    requires
        tally_sorted(v),
    ensures
        has_key(v, k) ==> exists|i: int| 0 <= i < v.len() && v[i].0 == k && tally_get(v, k) == v[i].1,
        !has_key(v, k) ==> tally_get(v, k) == 0,
{
    if has_key(v, k) {
        let i = choose|i: int| 0 <= i < v.len() && #[trigger] v[i].0 == k;
        lemma_tally_get_index(v, i);
    } else {
        lemma_tally_get_absent(v, k);
    }
}

/// Where a key belongs in a sorted tally: its index, and whether it is
/// already there.
fn tally_position(keys: &Vec<Vec<char>>, k: &Vec<char>) -> (r: (usize, bool))
    requires
        forall|i: int, j: int| 0 <= i < j < keys.len() ==> text_compare(keys[i]@, keys[j]@) == -1,
    ensures
        r.0 <= keys.len(),
        forall|i: int| 0 <= i < r.0 ==> text_compare(#[trigger] keys[i]@, k@) == -1,
        r.1 ==> r.0 < keys.len() && keys[r.0 as int]@ == k@,
        !r.1 ==> forall|i: int| r.0 <= i < keys.len() ==> text_compare(#[trigger] keys[i]@, k@) == 1,
{
    let mut p: usize = 0;
    while p < keys.len()
        invariant
            p <= keys.len(),
            forall|i: int, j: int| 0 <= i < j < keys.len() ==> text_compare(keys[i]@, keys[j]@) == -1,
            forall|i: int| 0 <= i < p ==> text_compare(#[trigger] keys[i]@, k@) == -1,
        decreases keys.len() - p,
    {
        let c = crate::order::compare_chars(&keys[p], k);
        proof {
            crate::order::lemma_text_facts(keys[p as int]@, k@);
        }
        if c == 0 {
            return (p, true);
        }
        if c > 0 {
            proof {
                assert forall|i: int| p <= i < keys.len() implies text_compare(#[trigger] keys[i]@, k@) == 1 by {
                    crate::order::lemma_text_facts(keys[i]@, k@);
                    if i > p {
                        crate::order::lemma_text_facts(keys[p as int]@, keys[i]@);
                        crate::order::lemma_text_trans(k@, keys[p as int]@, keys[i]@);
                    }
                }
            }
            return (p, false);
        }
        p = p + 1;
    }
    (p, false)
}

proof fn lemma_insert_tally(old: Seq<(Seq<char>, usize)>, p: int, k: Seq<char>)
    requires
        tally_sorted(old),
        0 <= p <= old.len(),
        forall|i: int| 0 <= i < p ==> text_compare(#[trigger] old[i].0, k) == -1,
        forall|i: int| p <= i < old.len() ==> text_compare(#[trigger] old[i].0, k) == 1,
    ensures
        tally_incremented(old, old.insert(p, (k, 1usize)), k),
{
    let new = old.insert(p, (k, 1usize));
    assert forall|i: int, j: int| 0 <= i < j < new.len() implies text_compare(new[i].0, new[j].0) == -1 by {
        if j < p {
        } else if i < p && j == p {
        } else if i < p && j > p {
            assert(new[j] == old[j - 1]);
            crate::order::lemma_text_facts(old[j - 1].0, k);
            crate::order::lemma_text_trans(new[i].0, k, new[j].0);
        } else if i == p {
            assert(new[j] == old[j - 1]);
            crate::order::lemma_text_facts(old[j - 1].0, k);
        } else {
            assert(new[i] == old[i - 1]);
            assert(new[j] == old[j - 1]);
        }
    }
    assert forall|x: Seq<char>| #[trigger] has_key(new, x) <==> has_key(old, x) || x == k by {
        if has_key(new, x) {
            let i = choose|i: int| 0 <= i < new.len() && #[trigger] new[i].0 == x;
            if i < p {
                assert(old[i].0 == x);
            } else if i > p {
                assert(old[i - 1].0 == x);
            }
        }
        if has_key(old, x) {
            let i = choose|i: int| 0 <= i < old.len() && #[trigger] old[i].0 == x;
            if i < p {
                assert(new[i].0 == x);
            } else {
                assert(new[i + 1].0 == x);
            }
        }
        if x == k {
            assert(new[p].0 == x);
        }
    }
    assert forall|x: Seq<char>| #[trigger] tally_get(new, x) == tally_get(old, x) + (if x == k { 1int } else { 0 }) by {
        lemma_tally_get_all(new, x);
        lemma_tally_get_all(old, x);
        if x == k {
            assert(new[p].0 == k);
            lemma_tally_get_index(new, p);
            assert(!has_key(old, k)) by {
                if has_key(old, k) {
                    let i = choose|i: int| 0 <= i < old.len() && #[trigger] old[i].0 == k;
                    crate::order::lemma_text_facts(old[i].0, k);
                }
            }
        } else if has_key(old, x) {
            let i = choose|i: int| 0 <= i < old.len() && #[trigger] old[i].0 == x;
            lemma_tally_get_index(old, i);
            if i < p {
                assert(new[i] == old[i]);
                lemma_tally_get_index(new, i);
            } else {
                assert(new[i + 1] == old[i]);
                lemma_tally_get_index(new, i + 1);
            }
        }
    }
}

proof fn lemma_bump_tally(old: Seq<(Seq<char>, usize)>, p: int, k: Seq<char>)
    requires
        tally_sorted(old),
        0 <= p < old.len(),
        old[p].0 == k,
        old[p].1 < usize::MAX,
    ensures
        tally_incremented(old, old.update(p, (k, (old[p].1 + 1) as usize)), k),
{
    let new = old.update(p, (k, (old[p].1 + 1) as usize));
    assert forall|i: int, j: int| 0 <= i < j < new.len() implies text_compare(new[i].0, new[j].0) == -1 by {
        assert(new[i].0 == old[i].0);
        assert(new[j].0 == old[j].0);
    }
    assert forall|x: Seq<char>| #[trigger] has_key(new, x) <==> has_key(old, x) || x == k by {
        if has_key(new, x) {
            let i = choose|i: int| 0 <= i < new.len() && #[trigger] new[i].0 == x;
            assert(old[i].0 == x);
        }
        if has_key(old, x) {
            let i = choose|i: int| 0 <= i < old.len() && #[trigger] old[i].0 == x;
            assert(new[i].0 == x);
        }
        if x == k {
            assert(new[p].0 == x);
        }
    }
    assert forall|x: Seq<char>| #[trigger] tally_get(new, x) == tally_get(old, x) + (if x == k { 1int } else { 0 }) by {
        lemma_tally_get_all(new, x);
        lemma_tally_get_all(old, x);
        lemma_tally_get_index(old, p);
        lemma_tally_get_index(new, p);
        if x != k && has_key(old, x) {
            let i = choose|i: int| 0 <= i < old.len() && #[trigger] old[i].0 == x;
            lemma_tally_get_index(old, i);
            lemma_tally_get_index(new, i);
        }
    }
}

/// Counts one more file of a language.
pub fn count_language(tally: &mut Vec<(LanguageId, usize)>, language: LanguageId)
    requires
        tally_sorted(language_tally(old(tally)@)),
        tally_get(language_tally(old(tally)@), language@) < usize::MAX,
    ensures
        tally_incremented(language_tally(old(tally)@), language_tally(final(tally)@), language@),
{
    let ghost old_view = language_tally(tally@);
    let mut keys: Vec<Vec<char>> = Vec::new();
    let mut i: usize = 0;
    while i < tally.len()
        invariant
            i <= tally.len(),
            old_view == language_tally(tally@),
            keys.len() == i,
            forall|j: int| 0 <= j < i ==> #[trigger] keys[j]@ == old_view[j].0,
        decreases tally.len() - i,
    {
        keys.push(crate::order::text_chars(tally[i].0.as_str()));
        i = i + 1;
    }
    let k = crate::order::text_chars(language.as_str());
    let (p, found) = tally_position(&keys, &k);
    if found {
        proof {
            lemma_tally_get_index(old_view, p as int);
        }
        let (l, n) = tally.remove(p);
        tally.insert(p, (l, n + 1));
        proof {
            lemma_bump_tally(old_view, p as int, language@);
            assert(language_tally(tally@) =~= old_view.update(p as int, (language@, (old_view[p as int].1 + 1) as usize)));
        }
    } else {
        let ghost kv = language@;
        tally.insert(p, (language, 1));
        proof {
            assert forall|i: int| 0 <= i < p implies text_compare(#[trigger] old_view[i].0, kv) == -1 by {
                assert(keys[i]@ == old_view[i].0);
            }
            assert forall|i: int| p <= i < old_view.len() implies text_compare(#[trigger] old_view[i].0, kv) == 1 by {
                assert(keys[i]@ == old_view[i].0);
            }
            lemma_insert_tally(old_view, p as int, kv);
            assert(language_tally(tally@) =~= old_view.insert(p as int, (kv, 1usize)));
        }
    }
}

/// Counts one more uncategorized file with an extension.
pub fn count_extension(tally: &mut Vec<(ExtensionId, usize)>, extension: ExtensionId)
    requires
        tally_sorted(extension_tally(old(tally)@)),
        tally_get(extension_tally(old(tally)@), extension@) < usize::MAX,
    ensures
        tally_incremented(extension_tally(old(tally)@), extension_tally(final(tally)@), extension@),
{
    let ghost old_view = extension_tally(tally@);
    let mut keys: Vec<Vec<char>> = Vec::new();
    let mut i: usize = 0;
    while i < tally.len()
        invariant
            i <= tally.len(),
            old_view == extension_tally(tally@),
            keys.len() == i,
            forall|j: int| 0 <= j < i ==> #[trigger] keys[j]@ == old_view[j].0,
        decreases tally.len() - i,
    {
        keys.push(crate::order::text_chars(tally[i].0.as_str()));
        i = i + 1;
    }
    let k = crate::order::text_chars(extension.as_str());
    let (p, found) = tally_position(&keys, &k);
    if found {
        proof {
            lemma_tally_get_index(old_view, p as int);
        }
        let (e, n) = tally.remove(p);
        tally.insert(p, (e, n + 1));
        proof {
            lemma_bump_tally(old_view, p as int, extension@);
            assert(extension_tally(tally@) =~= old_view.update(p as int, (extension@, (old_view[p as int].1 + 1) as usize)));
        }
    } else {
        let ghost kv = extension@;
        tally.insert(p, (extension, 1));
        proof {
            assert forall|i: int| 0 <= i < p implies text_compare(#[trigger] old_view[i].0, kv) == -1 by {
                assert(keys[i]@ == old_view[i].0);
            }
            assert forall|i: int| p <= i < old_view.len() implies text_compare(#[trigger] old_view[i].0, kv) == 1 by {
                assert(keys[i]@ == old_view[i].0);
            }
            lemma_insert_tally(old_view, p as int, kv);
            assert(extension_tally(tally@) =~= old_view.insert(p as int, (kv, 1usize)));
        }
    }
}

/// Whether the language and extension tallies of an inventory are sorted.
pub open spec fn tallies_sorted(inv: RepositoryInventory) -> bool {
    &&& tally_sorted(language_tally(inv.files_by_language@))
    &&& tally_sorted(extension_tally(inv.uncategorized_files_by_extension@))
}

/// Tallies one discovered file: its category, its language when its
/// extension names one, and its extension when it is uncategorized.
pub fn record_file(path: &str, category: FileCategory, inventory: &mut RepositoryInventory)
    requires
        old(inventory).well_formed(),
        tallies_sorted(*old(inventory)),
        old(inventory).inventoried_files < usize::MAX,
        path_language(path@) matches Some(l) ==> tally_get(language_tally(old(inventory).files_by_language@), l) < usize::MAX,
        category == FileCategory::Uncategorized ==> tally_get(
            extension_tally(old(inventory).uncategorized_files_by_extension@),
            extension_label(path@),
        ) < usize::MAX,
    ensures
        final(inventory).well_formed(),
        tallies_sorted(*final(inventory)),
        final(inventory).inventoried_files == old(inventory).inventoried_files + 1,
        final(inventory).files_by_category[file_category_index(category)]@.map_values(|s: String| s@)
            == old(inventory).files_by_category[file_category_index(category)]@.map_values(|s: String| s@).push(path@),
        forall|i: int|
            0 <= i < 6 && i != file_category_index(category) ==> final(inventory).files_by_category[i]
                == old(inventory).files_by_category[i],
        match path_language(path@) {
            Some(l) => tally_incremented(
                language_tally(old(inventory).files_by_language@),
                language_tally(final(inventory).files_by_language@),
                l,
            ),
            None => final(inventory).files_by_language@ == old(inventory).files_by_language@,
        },
        if category == FileCategory::Uncategorized {
            tally_incremented(
                extension_tally(old(inventory).uncategorized_files_by_extension@),
                extension_tally(final(inventory).uncategorized_files_by_extension@),
                extension_label(path@),
            )
        } else {
            final(inventory).uncategorized_files_by_extension@ == old(inventory).uncategorized_files_by_extension@
        },
{
    inventory.inventoried_files = inventory.inventoried_files + 1;
    let owned = path.to_owned();
    let ghost owned_view = owned@;
    inventory.record_category_path(category, owned);
    proof {
        let ci = file_category_index(category);
        assert(inventory.files_by_category[ci]@.map_values(|s: String| s@) =~= old(inventory).files_by_category[ci]@.map_values(|s: String| s@).push(path@));
    }
    match detect_language(path) {
        Some(language) => {
            let mut tally: Vec<(LanguageId, usize)> = Vec::new();
            std::mem::swap(&mut tally, &mut inventory.files_by_language);
            count_language(&mut tally, language);
            inventory.files_by_language = tally;
        },
        None => {},
    }
    if category == FileCategory::Uncategorized {
        let extension = extension_id(path);
        let mut tally: Vec<(ExtensionId, usize)> = Vec::new();
        std::mem::swap(&mut tally, &mut inventory.uncategorized_files_by_extension);
        count_extension(&mut tally, extension);
        inventory.uncategorized_files_by_extension = tally;
    }
}


/// The extensions of C++ files, in lower case.
pub open spec fn is_cpp_extension(e: Seq<char>) -> bool {
    e == seq!['c', 'c'] || e == seq!['c', 'p', 'p'] || e == seq!['c', 'x', 'x'] || e == seq!['h', 'h'] || e
        == seq!['h', 'p', 'p'] || e == seq!['h', 'x', 'x']
}

/// Every path whose extension is, in lower case, one of `cc`, `cpp`,
/// `cxx`, `hh`, `hpp` and `hxx` is a C++ file; `py` marks Python, `rs`
/// Rust and `c` C.
pub proof fn lemma_language_by_extension(p: Seq<char>, e: Seq<char>)
    requires
        extension(p) == Some(e),
    ensures
        is_cpp_extension(ascii_lower(e)) ==> path_language(p) == Some("cpp"@),
        ascii_lower(e) == seq!['p', 'y'] ==> path_language(p) == Some("python"@),
        ascii_lower(e) == seq!['r', 's'] ==> path_language(p) == Some("rust"@),
        ascii_lower(e) == seq!['c'] ==> path_language(p) == Some("c"@),
        path_language(p) is Some ==> is_cpp_extension(ascii_lower(e)) || ascii_lower(e) == seq!['p', 'y']
            || ascii_lower(e) == seq!['r', 's'] || ascii_lower(e) == seq!['c'],
{
    reveal_strlit("cc");
    reveal_strlit("cpp");
    reveal_strlit("cxx");
    reveal_strlit("hh");
    reveal_strlit("hpp");
    reveal_strlit("hxx");
    reveal_strlit("py");
    reveal_strlit("rs");
    reveal_strlit("c");
    assert("cc"@ =~= seq!['c', 'c']);
    assert("cpp"@ =~= seq!['c', 'p', 'p']);
    assert("cxx"@ =~= seq!['c', 'x', 'x']);
    assert("hh"@ =~= seq!['h', 'h']);
    assert("hpp"@ =~= seq!['h', 'p', 'p']);
    assert("hxx"@ =~= seq!['h', 'x', 'x']);
    assert("py"@ =~= seq!['p', 'y']);
    assert("rs"@ =~= seq!['r', 's']);
    assert("c"@ =~= seq!['c']);
}

proof fn lemma_cpp_extension_len(e: Seq<char>)
    requires
        is_cpp_extension(e),
    ensures
        e.len() >= 2,
{
}

proof fn lemma_dotted_name(stem: Seq<char>, ext: Seq<char>)
    requires
        stem.len() > 0,
        ext.len() >= 2,
        forall|k: int| 0 <= k < stem.len() ==> stem[k] != '/',
        forall|k: int| 0 <= k < ext.len() ==> ext[k] != '/' && ext[k] != '.',
    ensures
        forall|k: int| 0 <= k < (stem + seq!['.'] + ext).len() ==> (stem + seq!['.'] + ext)[k] != '/',
        is_named_piece(stem + seq!['.'] + ext),
        stem + seq!['.'] + ext != seq!['.', '.'],
{
    let w = stem + seq!['.'] + ext;
    assert forall|k: int| 0 <= k < w.len() implies w[k] != '/' by {
        if k < stem.len() {
            assert(w[k] == stem[k]);
        } else if k > stem.len() {
            assert(w[k] == ext[k - stem.len() - 1]);
        }
    }
    assert(w.len() >= 4);
}

/// A file `stem.ext`, alone or below any directory, whose extension is a
/// C++ one in any ASCII case, such as `widget.cc` or `src/Widget.HPP`, is
/// detected as C++.
pub proof fn lemma_cpp_file_names(d: Seq<char>, stem: Seq<char>, ext: Seq<char>)
    requires
        stem.len() > 0,
        forall|k: int| 0 <= k < stem.len() ==> stem[k] != '/',
        forall|k: int| 0 <= k < ext.len() ==> ext[k] != '/' && ext[k] != '.',
        is_cpp_extension(ascii_lower(ext)),
    ensures
        path_language(stem + seq!['.'] + ext) == Some("cpp"@),
        path_language(d + seq!['/'] + stem + seq!['.'] + ext) == Some("cpp"@),
{
    let w = stem + seq!['.'] + ext;
    assert(ascii_lower(ext).len() == ext.len());
    lemma_cpp_extension_len(ascii_lower(ext));
    lemma_dotted_extension(d, stem, ext);
    assert(d + seq!['/'] + stem + seq!['.'] + ext =~= d + seq!['/'] + w);
    lemma_cpp_language(ascii_lower(ext));
    assert(path_language(w) == language_of_extension(ascii_lower(ext)));
    assert(path_language(d + seq!['/'] + w) == language_of_extension(ascii_lower(ext)));
}

proof fn lemma_dotted_extension(d: Seq<char>, stem: Seq<char>, ext: Seq<char>)
    requires
        stem.len() > 0,
        ext.len() >= 2,
        forall|k: int| 0 <= k < stem.len() ==> stem[k] != '/',
        forall|k: int| 0 <= k < ext.len() ==> ext[k] != '/' && ext[k] != '.',
    ensures
        extension(stem + seq!['.'] + ext) == Some(ext),
        extension(d + seq!['/'] + (stem + seq!['.'] + ext)) == Some(ext),
{
    let w = stem + seq!['.'] + ext;
    lemma_dotted_name(stem, ext);
    lemma_file_name_of_last_piece(d, w);
    lemma_name_extension_of(stem, ext);
}

proof fn lemma_cpp_language(l: Seq<char>)
    requires
        is_cpp_extension(l),
    ensures
        language_of_extension(l) == Some("cpp"@),
{
    reveal_strlit("cc");
    reveal_strlit("cpp");
    reveal_strlit("cxx");
    reveal_strlit("hh");
    reveal_strlit("hpp");
    reveal_strlit("hxx");
    reveal_strlit("py");
    reveal_strlit("rs");
    reveal_strlit("c");
    assert("cc"@ =~= seq!['c', 'c']);
    assert("cpp"@ =~= seq!['c', 'p', 'p']);
    assert("cxx"@ =~= seq!['c', 'x', 'x']);
    assert("hh"@ =~= seq!['h', 'h']);
    assert("hpp"@ =~= seq!['h', 'p', 'p']);
    assert("hxx"@ =~= seq!['h', 'x', 'x']);
    assert("py"@ =~= seq!['p', 'y']);
    assert("rs"@ =~= seq!['r', 's']);
    assert("c"@ =~= seq!['c']);
}

} // verus!
