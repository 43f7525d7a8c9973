//! Sets of repository paths, ordered by components: joining the files a
//! targeted walk found for `--include-ignored` to those of the standard walk
//! (and counting the new ones), taking the paths one walk saw and another
//! did not, and checking the include-ignored patterns.

use vstd::prelude::*;

use crate::dependencies::{debug_quoted, debug_text};
use crate::documentation::{path_order_key, path_order_key_exec};
use crate::error::InventoryError;
use crate::order::{covers_key, key_compare, key_view, keys_view, unique_sorted_order, AtomView, KeyAtom};
use crate::text::{copy_string, push_text, text_starts_with};

verus! {

/// Some path of `v` has the components of `x`.
pub open spec fn lists_path(v: Seq<String>, x: Seq<char>) -> bool {
    exists|i: int| 0 <= i < v.len() && path_order_key((#[trigger] v[i])@) == path_order_key(x)
}

/// Paths in strictly increasing component order.
pub open spec fn paths_ascending(v: Seq<String>) -> bool {
    forall|i: int, j: int| 0 <= i < j < v.len() ==> key_compare(path_order_key(v[i]@), path_order_key(v[j]@)) == -1
}

/// How many paths of `v` are not among those of `base`.
pub open spec fn count_new(v: Seq<String>, base: Seq<String>) -> nat
    decreases v.len(),
{
    if v.len() == 0 {
        0
    } else {
        count_new(v.drop_last(), base) + if lists_path(base, v.last()@) {
            0nat
        } else {
            1nat
        }
    }
}

fn path_keys(v: &Vec<String>, keys: &mut Vec<Vec<KeyAtom>>)
    ensures
        final(keys).len() == old(keys).len() + v.len(),
        forall|k: int| 0 <= k < old(keys).len() ==> #[trigger] final(keys)@[k] == old(keys)@[k],
        forall|k: int|
            old(keys).len() <= k < final(keys).len() ==> key_view(#[trigger] final(keys)@[k]@) == path_order_key(
                v@[k - old(keys).len()]@,
            ),
{
    let ghost start = keys@;
    let mut i: usize = 0;
    while i < v.len()
        invariant
            i <= v.len(),
            keys.len() == start.len() + i,
            forall|k: int| 0 <= k < start.len() ==> #[trigger] keys@[k] == start[k],
            forall|k: int| start.len() <= k < keys.len() ==> key_view(#[trigger] keys@[k]@) == path_order_key(v@[k - start.len()]@),
        decreases v.len() - i,
    {
        keys.push(path_order_key_exec(v[i].as_str()));
        i = i + 1;
    }
}

/// The files of the standard walk joined with those a targeted walk found,
/// each path once, in component order, and how many of them the standard
/// walk did not have.
pub fn join_included(standard: &Vec<String>, included: &Vec<String>) -> (r: (Vec<String>, usize))
    requires
        standard.len() + included.len() <= usize::MAX,
    ensures
        paths_ascending(r.0@),
        forall|x: Seq<char>| #[trigger] lists_path(r.0@, x) <==> (lists_path(standard@, x) || lists_path(included@, x)),
        r.1 == count_new(r.0@, standard@),
{
    let mut keys: Vec<Vec<KeyAtom>> = Vec::new();
    path_keys(standard, &mut keys);
    let ghost k1 = keys@;
    path_keys(included, &mut keys);
    let s = standard.len();
    let ghost kv = keys_view(keys@);
    proof {
        assert forall|k: int| 0 <= k < keys.len() implies kv[k] == path_order_key(
            if k < s { standard@[k]@ } else { included@[k - s]@ },
        ) by {
            if k < s {
                assert(keys@[k] == k1[k]);
            }
        }
    }
    let order = unique_sorted_order(&keys);
    let mut out: Vec<String> = Vec::new();
    let mut count: usize = 0;
    let mut t: usize = 0;
    while t < order.len()
        invariant
            t <= order.len(),
            kv == keys_view(keys@),
            keys.len() == s + included.len(),
            s == standard.len(),
            forall|k: int| 0 <= k < keys.len() ==> kv[k] == path_order_key(
                if k < s { standard@[k]@ } else { included@[k - s]@ },
            ),
            forall|q: int| 0 <= q < order.len() ==> #[trigger] order[q] < keys.len(),
            forall|q: int, k: int|
                #![trigger kv[k], order[q]]
                0 <= q < order.len() && 0 <= k < order[q] ==> kv[k] != kv[order[q] as int],
            out.len() == t,
            forall|q: int| 0 <= q < t ==> path_order_key((#[trigger] out@[q])@) == kv[order[q] as int],
            count == count_new(out@, standard@),
            count <= t,
        decreases order.len() - t,
    {
        let j = order[t];
        let p = if j < s {
            copy_string(&standard[j])
        } else {
            copy_string(&included[j - s])
        };
        let ghost before = out@;
        let fresh = j >= s;
        proof {
            assert(path_order_key(p@) == kv[j as int]);
            if fresh {
                assert forall|i: int| 0 <= i < standard.len() implies path_order_key((#[trigger] standard@[i])@) != path_order_key(p@) by {
                    assert(kv[i] == path_order_key(standard@[i]@));
                    assert(kv[i] != kv[order[t as int] as int]);
                }
            } else {
                assert(path_order_key(standard@[j as int]@) == path_order_key(p@));
            }
        }
        out.push(p);
        if fresh {
            count = count + 1;
        }
        proof {
            assert(out@.drop_last() =~= before);
            assert(out@.last() == p);
        }
        t = t + 1;
    }
    proof {
        assert forall|i: int, j: int| 0 <= i < j < out.len() implies key_compare(path_order_key(out@[i]@), path_order_key(out@[j]@))
            == -1 by {
        }
        assert forall|x: Seq<char>| #[trigger] lists_path(out@, x) <==> (lists_path(standard@, x) || lists_path(included@, x)) by {
            if lists_path(standard@, x) {
                let i = choose|i: int| 0 <= i < standard.len() && path_order_key((#[trigger] standard@[i])@) == path_order_key(x);
                assert(covers_key(kv, order@, i));
                let q = choose|q: int| 0 <= q < order.len() && kv[order[q] as int] == kv[i];
                assert(path_order_key(out@[q]@) == path_order_key(x));
            }
            if lists_path(included@, x) {
                let i = choose|i: int| 0 <= i < included.len() && path_order_key((#[trigger] included@[i])@) == path_order_key(x);
                assert(kv[s + i] == path_order_key(included@[i]@));
                assert(covers_key(kv, order@, s + i));
                let q = choose|q: int| 0 <= q < order.len() && kv[order[q] as int] == kv[s + i];
                assert(path_order_key(out@[q]@) == path_order_key(x));
            }
            if lists_path(out@, x) {
                let q = choose|q: int| 0 <= q < out.len() && path_order_key((#[trigger] out@[q])@) == path_order_key(x);
                let k = order[q] as int;
                if k < s {
                    assert(path_order_key(standard@[k]@) == path_order_key(x));
                } else {
                    assert(path_order_key(included@[k - s]@) == path_order_key(x));
                }
            }
        }
    }
    (out, count)
}

/// The paths of `all` whose components no path of `seen` has, each once, in
/// component order.
pub fn unseen_paths(all: &Vec<String>, seen: &Vec<String>) -> (r: Vec<String>)
    ensures
        paths_ascending(r@),
        forall|x: Seq<char>| #[trigger] lists_path(r@, x) <==> (lists_path(all@, x) && !lists_path(seen@, x)),
{
    let mut keep: Vec<String> = Vec::new();
    let mut i: usize = 0;
    while i < all.len()
        invariant
            i <= all.len(),
            forall|k: int| 0 <= k < keep.len() ==> lists_path(all@, (#[trigger] keep@[k])@) && !lists_path(seen@, keep@[k]@),
            forall|k: int| 0 <= k < i && !lists_path(seen@, (#[trigger] all@[k])@) ==> lists_path(keep@, all@[k]@),
        decreases all.len() - i,
    {
        if !listed_exec(seen, all[i].as_str()) {
            let ghost before = keep@;
            keep.push(copy_string(&all[i]));
            proof {
                assert(keep@[keep.len() - 1]@ == all@[i as int]@);
                assert forall|k: int| 0 <= k < i + 1 && !lists_path(seen@, (#[trigger] all@[k])@) implies lists_path(keep@, all@[k]@) by {
                    if k < i {
                        let q = choose|q: int| 0 <= q < before.len() && path_order_key((#[trigger] before[q])@) == path_order_key(all@[k]@);
                        assert(keep@[q] == before[q]);
                    } else {
                        assert(path_order_key(keep@[keep.len() - 1]@) == path_order_key(all@[k]@));
                    }
                }
                assert forall|k: int| 0 <= k < keep.len() implies lists_path(all@, (#[trigger] keep@[k])@) && !lists_path(seen@, keep@[k]@) by {
                    if k < before.len() {
                        assert(keep@[k] == before[k]);
                    } else {
                        assert(path_order_key(all@[i as int]@) == path_order_key(keep@[k]@));
                    }
                }
            }
        }
        i = i + 1;
    }
    let empty: Vec<String> = Vec::new();
    proof {
        assert(keep.len() + empty.len() <= usize::MAX);
    }
    let (r, _) = join_included(&keep, &empty);
    proof {
        assert forall|x: Seq<char>| #[trigger] lists_path(r@, x) <==> (lists_path(all@, x) && !lists_path(seen@, x)) by {
            if lists_path(r@, x) {
                assert(lists_path(keep@, x) || lists_path(empty@, x));
                let k = choose|k: int| 0 <= k < keep.len() && path_order_key((#[trigger] keep@[k])@) == path_order_key(x);
                let a = choose|a: int| 0 <= a < all.len() && path_order_key((#[trigger] all@[a])@) == path_order_key(keep@[k]@);
                if lists_path(seen@, x) {
                    let b = choose|b: int| 0 <= b < seen.len() && path_order_key((#[trigger] seen@[b])@) == path_order_key(x);
                    assert(lists_path(seen@, keep@[k]@));
                }
            }
            if lists_path(all@, x) && !lists_path(seen@, x) {
                let a = choose|a: int| 0 <= a < all.len() && path_order_key((#[trigger] all@[a])@) == path_order_key(x);
                if lists_path(seen@, all@[a]@) {
                    let b = choose|b: int| 0 <= b < seen.len() && path_order_key((#[trigger] seen@[b])@) == path_order_key(all@[a]@);
                    assert(lists_path(seen@, x));
                }
                let q = choose|q: int| 0 <= q < keep.len() && path_order_key((#[trigger] keep@[q])@) == path_order_key(all@[a]@);
                assert(lists_path(keep@, x));
            }
        }
    }
    r
}

fn listed_exec(v: &Vec<String>, x: &str) -> (r: bool)
    ensures
        r == lists_path(v@, x@),
{
    let key = path_order_key_exec(x);
    let mut i: usize = 0;
    while i < v.len()
        invariant
            i <= v.len(),
            key_view(key@) == path_order_key(x@),
            forall|k: int| 0 <= k < i ==> path_order_key((#[trigger] v@[k])@) != path_order_key(x@),
        decreases v.len() - i,
    {
        let k = path_order_key_exec(v[i].as_str());
        let c = crate::order::compare_keys(&k, &key);
        proof {
            crate::order::lemma_key_facts(path_order_key(v@[i as int]@), path_order_key(x@));
        }
        if c == 0 {
            return true;
        }
        i = i + 1;
    }
    false
}

/// The message for an include-ignored pattern that is refused.
pub open spec fn include_pattern_error(p: Seq<char>) -> Option<Seq<char>> {
    if p.len() == 0 || p[0] == '!' {
        Some("invalid include-ignored pattern "@ + debug_text(p))
    } else {
        None
    }
}

/// Checks an include-ignored pattern: it may be neither empty nor a
/// negation.
pub fn check_include_pattern(p: &str) -> (r: Result<(), InventoryError>)
    ensures
        match include_pattern_error(p@) {
            None => r is Ok,
            Some(m) => r matches Err(InventoryError::InvalidInput { message: x }) && x@ == m,
        },
{
    proof {
        reveal_strlit("!");
    }
    let bang = text_starts_with(p, "!");
    proof {
        if p@.len() > 0 && p@[0] == '!' {
            assert(p@.subrange(0, 1) =~= "!"@);
        }
        if bang {
            assert(p@.subrange(0, 1)[0] == p@[0]);
        }
    }
    if p.unicode_len() == 0 || bang {
        let mut m = String::new();
        push_text(&mut m, "invalid include-ignored pattern ");
        let q = debug_quoted(p);
        push_text(&mut m, q.as_str());
        return Err(InventoryError::InvalidInput { message: m });
    }
    Ok(())
}

} // verus!
