//! Ordering keys: every value that the library sorts or deduplicates is
//! flattened into a sequence of atoms (numbers and character strings), and
//! values are ordered by the lexicographic order of their keys.

use vstd::prelude::*;

verus! {

/// One component of an ordering key.
pub enum KeyAtom {
    Num(u64),
    Text(Vec<char>),
}

/// Mathematical view of a key atom.
pub enum AtomView {
    Num(int),
    Text(Seq<char>),
}

impl View for KeyAtom {
    type V = AtomView;

    open spec fn view(&self) -> AtomView {
        match self {
            KeyAtom::Num(n) => AtomView::Num(*n as int),
            KeyAtom::Text(t) => AtomView::Text(t@),
        }
    }
}

pub open spec fn key_view(k: Seq<KeyAtom>) -> Seq<AtomView> {
    k.map_values(|a: KeyAtom| a@)
}

/// A three-way comparison: -1, 0 or 1.
pub open spec fn is_total_order<A>(f: spec_fn(A, A) -> int) -> bool {
    &&& forall|x: A, y: A| #[trigger] f(x, y) == 0 <==> x == y
    &&& forall|x: A, y: A| #[trigger] f(x, y) == -f(y, x)
    &&& forall|x: A, y: A| #[trigger] f(x, y) == -1 || f(x, y) == 0 || f(x, y) == 1
    &&& forall|x: A, y: A, z: A| #[trigger] f(x, y) == -1 && #[trigger] f(y, z) == -1 ==> f(x, z) == -1
}

/// Lexicographic comparison of sequences; a proper prefix is smaller.
pub open spec fn lex_compare<A>(a: Seq<A>, b: Seq<A>, f: spec_fn(A, A) -> int) -> int
    decreases a.len(),
{
    if a.len() == 0 {
        if b.len() == 0 {
            0
        } else {
            -1
        }
    } else if b.len() == 0 {
        1
    } else if f(a[0], b[0]) != 0 {
        f(a[0], b[0])
    } else {
        lex_compare(a.drop_first(), b.drop_first(), f)
    }
}

pub open spec fn char_compare(x: char, y: char) -> int {
    if (x as u32) < (y as u32) {
        -1
    } else if (x as u32) == (y as u32) {
        0
    } else {
        1
    }
}

pub open spec fn char_order() -> spec_fn(char, char) -> int {
    |x: char, y: char| char_compare(x, y)
}

/// Text order: by character code points, which is the byte order of UTF-8.
pub open spec fn text_compare(a: Seq<char>, b: Seq<char>) -> int {
    lex_compare(a, b, char_order())
}

pub open spec fn atom_compare(x: AtomView, y: AtomView) -> int {
    match (x, y) {
        (AtomView::Num(a), AtomView::Num(b)) => if a < b {
            -1
        } else if a == b {
            0
        } else {
            1
        },
        (AtomView::Text(a), AtomView::Text(b)) => text_compare(a, b),
        (AtomView::Num(_), AtomView::Text(_)) => -1,
        (AtomView::Text(_), AtomView::Num(_)) => 1,
    }
}

pub open spec fn atom_order() -> spec_fn(AtomView, AtomView) -> int {
    |x: AtomView, y: AtomView| atom_compare(x, y)
}

/// The order of keys.
pub open spec fn key_compare(a: Seq<AtomView>, b: Seq<AtomView>) -> int {
    lex_compare(a, b, atom_order())
}

pub open spec fn key_order() -> spec_fn(Seq<AtomView>, Seq<AtomView>) -> int {
    |x: Seq<AtomView>, y: Seq<AtomView>| key_compare(x, y)
}

proof fn lemma_lex_range<A>(a: Seq<A>, b: Seq<A>, f: spec_fn(A, A) -> int)
    requires
        is_total_order(f),
    ensures
        lex_compare(a, b, f) == -1 || lex_compare(a, b, f) == 0 || lex_compare(a, b, f) == 1,
        lex_compare(a, b, f) == -lex_compare(b, a, f),
        lex_compare(a, b, f) == 0 <==> a == b,
    decreases a.len(),
{
    if a.len() > 0 && b.len() > 0 {
        assert(f(a[0], b[0]) == -f(b[0], a[0]));
        assert(f(a[0], b[0]) == 0 <==> a[0] == b[0]);
        assert(f(a[0], b[0]) == -1 || f(a[0], b[0]) == 0 || f(a[0], b[0]) == 1);
        if f(a[0], b[0]) == 0 {
            lemma_lex_range(a.drop_first(), b.drop_first(), f);
            if a.drop_first() == b.drop_first() {
                assert(a =~= seq![a[0]] + a.drop_first());
                assert(b =~= seq![b[0]] + b.drop_first());
            }
        }
        if a == b {
            assert(a[0] == b[0]);
            assert(a.drop_first() == b.drop_first());
        }
    } else if a.len() == 0 && b.len() == 0 {
        assert(a =~= b);
    }
}

proof fn lemma_lex_trans<A>(a: Seq<A>, b: Seq<A>, c: Seq<A>, f: spec_fn(A, A) -> int)
    requires
        is_total_order(f),
        lex_compare(a, b, f) == -1,
        lex_compare(b, c, f) == -1,
    ensures
        lex_compare(a, c, f) == -1,
    decreases a.len(),
{
    if a.len() > 0 && b.len() > 0 && c.len() > 0 {
        let x = a[0];
        let y = b[0];
        let z = c[0];
        assert(f(x, y) == 0 <==> x == y);
        assert(f(y, z) == 0 <==> y == z);
        assert(f(x, y) == -1 || f(x, y) == 0 || f(x, y) == 1);
        assert(f(y, z) == -1 || f(y, z) == 0 || f(y, z) == 1);
        assert(f(x, y) == -1 && f(y, z) == -1 ==> f(x, z) == -1);
        if f(x, y) == 0 && f(y, z) == 0 {
            lemma_lex_trans(a.drop_first(), b.drop_first(), c.drop_first(), f);
        }
    }
}

pub proof fn lemma_lex_total<A>(f: spec_fn(A, A) -> int)
    requires
        is_total_order(f),
    ensures
        is_total_order(|x: Seq<A>, y: Seq<A>| lex_compare(x, y, f)),
{
    let g = |x: Seq<A>, y: Seq<A>| lex_compare(x, y, f);
    assert forall|x: Seq<A>, y: Seq<A>| #[trigger] g(x, y) == 0 <==> x == y by {
        lemma_lex_range(x, y, f);
    }
    assert forall|x: Seq<A>, y: Seq<A>| #[trigger] g(x, y) == -g(y, x) by {
        lemma_lex_range(x, y, f);
    }
    assert forall|x: Seq<A>, y: Seq<A>| #[trigger] g(x, y) == -1 || g(x, y) == 0 || g(x, y) == 1 by {
        lemma_lex_range(x, y, f);
    }
    assert forall|x: Seq<A>, y: Seq<A>, z: Seq<A>|
        #[trigger] g(x, y) == -1 && #[trigger] g(y, z) == -1 implies g(x, z) == -1 by {
        lemma_lex_trans(x, y, z, f);
    }
}

proof fn lemma_char_eq(x: char, y: char)
    ensures
        (x as u32) == (y as u32) ==> x == y,
{
}

pub proof fn lemma_char_total()
    ensures
        is_total_order(char_order()),
{
    assert forall|x: char, y: char| #[trigger] char_order()(x, y) == 0 <==> x == y by {
        lemma_char_eq(x, y);
    }
}

pub proof fn lemma_atom_total()
    ensures
        is_total_order(atom_order()),
{
    lemma_char_total();
    lemma_lex_total(char_order());
    let g = |x: Seq<char>, y: Seq<char>| lex_compare(x, y, char_order());
    assert forall|x: AtomView, y: AtomView| #[trigger] atom_order()(x, y) == 0 <==> x == y by {
        match (x, y) {
            (AtomView::Text(a), AtomView::Text(b)) => {
                assert(g(a, b) == 0 <==> a == b);
            },
            _ => {},
        }
    }
    assert forall|x: AtomView, y: AtomView| #[trigger] atom_order()(x, y) == -atom_order()(y, x) by {
        match (x, y) {
            (AtomView::Text(a), AtomView::Text(b)) => {
                assert(g(a, b) == -g(b, a));
            },
            _ => {},
        }
    }
    assert forall|x: AtomView, y: AtomView|
        #[trigger] atom_order()(x, y) == -1 || atom_order()(x, y) == 0 || atom_order()(x, y) == 1 by {
        match (x, y) {
            (AtomView::Text(a), AtomView::Text(b)) => {
                assert(g(a, b) == -1 || g(a, b) == 0 || g(a, b) == 1);
            },
            _ => {},
        }
    }
    assert forall|x: AtomView, y: AtomView, z: AtomView|
        #[trigger] atom_order()(x, y) == -1 && #[trigger] atom_order()(y, z) == -1 implies atom_order()(
        x,
        z,
    ) == -1 by {
        match (x, y, z) {
            (AtomView::Text(a), AtomView::Text(b), AtomView::Text(c)) => {
                assert(g(a, b) == -1 && g(b, c) == -1);
            },
            _ => {},
        }
    }
}

/// The key order is a strict total order.
pub proof fn lemma_key_total()
    ensures
        is_total_order(key_order()),
{
    lemma_atom_total();
    lemma_lex_total(atom_order());
    let g = |x: Seq<AtomView>, y: Seq<AtomView>| lex_compare(x, y, atom_order());
    assert forall|x: Seq<AtomView>, y: Seq<AtomView>| #[trigger] key_order()(x, y) == g(x, y) by {}
}

/// Basic facts about one pair of keys.
pub proof fn lemma_key_facts(x: Seq<AtomView>, y: Seq<AtomView>)
    ensures
        key_compare(x, y) == 0 <==> x == y,
        key_compare(x, y) == -key_compare(y, x),
        key_compare(x, y) == -1 || key_compare(x, y) == 0 || key_compare(x, y) == 1,
{
    lemma_key_total();
    assert(key_order()(x, y) == key_compare(x, y));
    assert(key_order()(y, x) == key_compare(y, x));
}

/// Transitivity of the key order.
pub proof fn lemma_key_trans(x: Seq<AtomView>, y: Seq<AtomView>, z: Seq<AtomView>)
    ensures
        key_compare(x, y) <= 0 && key_compare(y, z) <= 0 ==> key_compare(x, z) <= 0,
        key_compare(x, y) < 0 && key_compare(y, z) <= 0 ==> key_compare(x, z) < 0,
        key_compare(x, y) <= 0 && key_compare(y, z) < 0 ==> key_compare(x, z) < 0,
{
    lemma_key_total();
    lemma_key_facts(x, y);
    lemma_key_facts(y, z);
    lemma_key_facts(x, z);
    assert(key_order()(x, y) == key_compare(x, y));
    assert(key_order()(y, z) == key_compare(y, z));
    assert(key_order()(x, z) == key_compare(x, z));
}

/// Basic facts about the text order.
pub proof fn lemma_text_facts(x: Seq<char>, y: Seq<char>)
    ensures
        text_compare(x, y) == 0 <==> x == y,
        text_compare(x, y) == -text_compare(y, x),
        text_compare(x, y) == -1 || text_compare(x, y) == 0 || text_compare(x, y) == 1,
{
    lemma_char_total();
    lemma_lex_total(char_order());
    let g = |a: Seq<char>, b: Seq<char>| lex_compare(a, b, char_order());
    assert(g(x, y) == text_compare(x, y));
    assert(g(y, x) == text_compare(y, x));
}

/// Transitivity of the text order.
pub proof fn lemma_text_trans(x: Seq<char>, y: Seq<char>, z: Seq<char>)
    ensures
        text_compare(x, y) == -1 && text_compare(y, z) == -1 ==> text_compare(x, z) == -1,
{
    lemma_char_total();
    lemma_lex_total(char_order());
    let g = |a: Seq<char>, b: Seq<char>| lex_compare(a, b, char_order());
    assert(g(x, y) == text_compare(x, y));
    assert(g(y, z) == text_compare(y, z));
    assert(g(x, z) == text_compare(x, z));
}

/// Copies the characters of a string.
pub fn text_chars(s: &str) -> (out: Vec<char>)
    ensures
        out@ == s@,
{
    let n = s.unicode_len();
    let mut out: Vec<char> = Vec::new();
    let mut i: usize = 0;
    while i < n
        invariant
            n == s@.len(),
            i <= n,
            out@ == s@.subrange(0, i as int),
        decreases n - i,
    {
        let c = s.get_char(i);
        out.push(c);
        i = i + 1;
        assert(out@ =~= s@.subrange(0, i as int));
    }
    assert(out@ =~= s@);
    out
}

/// Three-way comparison of two character sequences.
pub fn compare_chars(a: &Vec<char>, b: &Vec<char>) -> (r: i8)
    ensures
        r as int == text_compare(a@, b@),
{
    let mut i: usize = 0;
    assert(a@.skip(0) =~= a@);
    assert(b@.skip(0) =~= b@);
    while i < a.len() && i < b.len()
        invariant
            i <= a.len(),
            i <= b.len(),
            text_compare(a@, b@) == text_compare(a@.skip(i as int), b@.skip(i as int)),
        decreases a.len() - i,
    {
        let x = a[i];
        let y = b[i];
        let xn = x as u32;
        let yn = y as u32;
        assert(a@.skip(i as int)[0] == x);
        assert(b@.skip(i as int)[0] == y);
        if xn < yn {
            return -1;
        }
        if xn > yn {
            return 1;
        }
        assert(a@.skip(i as int).drop_first() =~= a@.skip(i + 1));
        assert(b@.skip(i as int).drop_first() =~= b@.skip(i + 1));
        i = i + 1;
    }
    if a.len() == b.len() {
        0
    } else if i == a.len() {
        -1
    } else {
        1
    }
}

pub fn compare_atoms(a: &KeyAtom, b: &KeyAtom) -> (r: i8)
    ensures
        r as int == atom_compare(a@, b@),
{
    match (a, b) {
        (KeyAtom::Num(x), KeyAtom::Num(y)) => {
            if *x < *y {
                -1
            } else if *x == *y {
                0
            } else {
                1
            }
        },
        (KeyAtom::Text(x), KeyAtom::Text(y)) => compare_chars(x, y),
        (KeyAtom::Num(_), KeyAtom::Text(_)) => -1,
        (KeyAtom::Text(_), KeyAtom::Num(_)) => 1,
    }
}

/// Three-way comparison of two keys.
pub fn compare_keys(a: &Vec<KeyAtom>, b: &Vec<KeyAtom>) -> (r: i8)
    ensures
        r as int == key_compare(key_view(a@), key_view(b@)),
{
    let ghost ka = key_view(a@);
    let ghost kb = key_view(b@);
    let mut i: usize = 0;
    assert(ka.skip(0) =~= ka);
    assert(kb.skip(0) =~= kb);
    while i < a.len() && i < b.len()
        invariant
            i <= a.len(),
            i <= b.len(),
            ka == key_view(a@),
            kb == key_view(b@),
            key_compare(ka, kb) == lex_compare(ka.skip(i as int), kb.skip(i as int), atom_order()),
        decreases a.len() - i,
    {
        let c = compare_atoms(&a[i], &b[i]);
        assert(ka.skip(i as int)[0] == a@[i as int]@);
        assert(kb.skip(i as int)[0] == b@[i as int]@);
        if c != 0 {
            return c;
        }
        assert(ka.skip(i as int).drop_first() =~= ka.skip(i + 1));
        assert(kb.skip(i as int).drop_first() =~= kb.skip(i + 1));
        i = i + 1;
    }
    if a.len() == b.len() {
        0
    } else if i == a.len() {
        -1
    } else {
        1
    }
}

/// The position of a key in a strictly increasing list of keys, if it is
/// there.
pub fn locate_key(keys: &Vec<Vec<KeyAtom>>, k: &Vec<KeyAtom>) -> (r: Option<usize>)
    requires
        forall|i: int, j: int|
            0 <= i < j < keys.len() ==> key_compare(key_view(keys[i]@), key_view(keys[j]@)) == -1,
    ensures
        r matches Some(x) ==> x < keys.len() && key_view(keys[x as int]@) == key_view(k@),
        r is None ==> forall|i: int| 0 <= i < keys.len() ==> key_view(#[trigger] keys[i]@) != key_view(k@),
{
    let mut lo: usize = 0;
    let mut hi: usize = keys.len();
    while lo < hi
        invariant
            lo <= hi <= keys.len(),
            forall|i: int, j: int|
                0 <= i < j < keys.len() ==> key_compare(key_view(keys[i]@), key_view(keys[j]@)) == -1,
            forall|i: int| 0 <= i < lo ==> key_compare(key_view(#[trigger] keys[i]@), key_view(k@)) == -1,
            forall|i: int| hi <= i < keys.len() ==> key_compare(key_view(#[trigger] keys[i]@), key_view(k@)) == 1,
        decreases hi - lo,
    {
        let mid = lo + (hi - lo) / 2;
        let c = compare_keys(&keys[mid], k);
        if c == 0 {
            proof {
                lemma_key_facts(key_view(keys[mid as int]@), key_view(k@));
            }
            return Some(mid);
        } else if c < 0 {
            proof {
                lemma_key_facts(key_view(keys[mid as int]@), key_view(k@));
                assert forall|i: int| 0 <= i < mid + 1 implies key_compare(key_view(#[trigger] keys[i]@), key_view(k@)) == -1 by {
                    if i < mid {
                        lemma_key_trans(key_view(keys[i]@), key_view(keys[mid as int]@), key_view(k@));
                        lemma_key_facts(key_view(keys[i]@), key_view(k@));
                    }
                }
            }
            lo = mid + 1;
        } else {
            proof {
                lemma_key_facts(key_view(keys[mid as int]@), key_view(k@));
                assert forall|i: int| mid <= i < keys.len() implies key_compare(key_view(#[trigger] keys[i]@), key_view(k@)) == 1 by {
                    if i > mid {
                        lemma_key_facts(key_view(keys[mid as int]@), key_view(keys[i]@));
                        lemma_key_facts(key_view(keys[i]@), key_view(k@));
                        lemma_key_trans(key_view(k@), key_view(keys[mid as int]@), key_view(keys[i]@));
                        lemma_key_facts(key_view(k@), key_view(keys[i]@));
                    }
                }
            }
            hi = mid;
        }
    }
    proof {
        assert forall|i: int| 0 <= i < keys.len() implies key_view(#[trigger] keys[i]@) != key_view(k@) by {
            lemma_key_facts(key_view(keys[i]@), key_view(k@));
        }
    }
    None
}

pub open spec fn keys_view(keys: Seq<Vec<KeyAtom>>) -> Seq<Seq<AtomView>> {
    keys.map_values(|k: Vec<KeyAtom>| key_view(k@))
}

/// `order` lists every index below `n` exactly once.
pub open spec fn is_permutation(order: Seq<usize>, n: nat) -> bool {
    &&& order.len() == n
    &&& forall|i: int| 0 <= i < order.len() ==> #[trigger] order[i] < n
    &&& forall|i: int, j: int| 0 <= i < j < order.len() ==> order[i] != order[j]
    &&& forall|m: int| 0 <= m < n ==> #[trigger] occurs(order, m)
}

/// The key at index `k` of `kv` is the key at some index that `order` lists.
pub open spec fn covers_key(kv: Seq<Seq<AtomView>>, order: Seq<usize>, k: int) -> bool {
    exists|i: int| 0 <= i < order.len() && kv[order[i] as int] == kv[k]
}

/// `m` occurs in `s`.
pub open spec fn occurs(s: Seq<usize>, m: int) -> bool {
    exists|t: int| 0 <= t < s.len() && s[t] == m
}

/// `order` sorts the keys `kv` stably: a permutation of their indices along
/// which the keys never decrease and equal keys keep their input order.
pub open spec fn is_stable_order(kv: Seq<Seq<AtomView>>, order: Seq<usize>) -> bool {
    &&& is_permutation(order, kv.len())
    &&& forall|i: int, j: int|
        0 <= i < j < order.len() ==> key_compare(kv[order[i] as int], kv[order[j] as int]) <= 0
    &&& forall|i: int, j: int|
        0 <= i < j < order.len() && key_compare(kv[order[i] as int], kv[order[j] as int]) == 0
            ==> order[i] < order[j]
}

/// Sorts indices by key; equal keys keep their input order.
pub fn sorted_order(keys: &Vec<Vec<KeyAtom>>) -> (order: Vec<usize>)
    ensures
        is_permutation(order@, keys.len() as nat),
        forall|i: int, j: int|
            0 <= i < j < order.len() ==> key_compare(
                keys_view(keys@)[order[i] as int],
                keys_view(keys@)[order[j] as int],
            ) <= 0,
        forall|i: int, j: int|
            0 <= i < j < order.len() && key_compare(
                keys_view(keys@)[order[i] as int],
                keys_view(keys@)[order[j] as int],
            ) == 0 ==> order[i] < order[j],
{
    proof {
        lemma_key_total();
    }
    let ghost kv = keys_view(keys@);
    let mut order: Vec<usize> = Vec::new();
    let mut k: usize = 0;
    while k < keys.len()
        invariant
            k <= keys.len(),
            kv == keys_view(keys@),
            is_total_order(key_order()),
            order.len() == k,
            forall|i: int| 0 <= i < order.len() ==> #[trigger] order[i] < k,
            forall|m: int| 0 <= m < k ==> #[trigger] occurs(order@, m),
            forall|i: int, j: int| 0 <= i < j < order.len() ==> order[i] != order[j],
            forall|i: int, j: int|
                0 <= i < j < order.len() ==> key_compare(kv[order[i] as int], kv[order[j] as int]) <= 0,
            forall|i: int, j: int|
                0 <= i < j < order.len() && key_compare(kv[order[i] as int], kv[order[j] as int]) == 0
                    ==> order[i] < order[j],
        decreases keys.len() - k,
    {
        // find the first position whose key is strictly greater than key k
        let mut p: usize = 0;
        let mut stop = false;
        while !stop && p < order.len()
            invariant
                p <= order.len(),
                kv == keys_view(keys@),
                k < keys.len(),
                is_total_order(key_order()),
                forall|i: int| 0 <= i < order.len() ==> #[trigger] order[i] < k,
                forall|i: int| 0 <= i < p ==> key_compare(kv[order[i] as int], kv[k as int]) <= 0,
                stop ==> p < order.len() && key_compare(kv[order[p as int] as int], kv[k as int]) == 1,
            decreases (order.len() - p) * 2 + (if stop { 0int } else { 1int }),
        {
            let c = compare_keys(&keys[order[p]], &keys[k]);
            proof {
                assert(key_order()(kv[order[p as int] as int], kv[k as int]) == c);
            }
            if c > 0 {
                stop = true;
            } else {
                p = p + 1;
            }
        }
        proof {
            if p < order.len() {
                assert(key_compare(kv[order[p as int] as int], kv[k as int]) == 1);
                assert forall|j: int| p <= j < order.len() implies key_compare(
                    kv[k as int],
                    kv[order[j] as int],
                ) == -1 by {
                    let x = kv[k as int];
                    let y = kv[order[p as int] as int];
                    let z = kv[order[j] as int];
                    assert(key_order()(y, x) == 1);
                    assert(key_order()(x, y) == -1);
                    if j > p {
                        assert(key_order()(y, z) <= 0);
                        if key_order()(y, z) == 0 {
                            assert(y == z);
                        } else {
                            assert(key_order()(x, z) == -1);
                        }
                    }
                }
            }
        }
        let ghost old_order = order@;
        order.insert(p, k);
        proof {
            assert forall|i: int, j: int| 0 <= i < j < order.len() implies key_compare(
                kv[order[i] as int],
                kv[order[j] as int],
            ) <= 0 by {
                if i < p && j < p {
                } else if i < p && j == p {
                } else if i < p && j > p {
                    assert(old_order[j - 1] == order[j]);
                    let x = kv[order[i] as int];
                    let y = kv[k as int];
                    let z = kv[order[j] as int];
                    assert(key_order()(x, y) <= 0);
                    assert(key_order()(y, z) == -1);
                    if key_order()(x, y) == 0 {
                        assert(x == y);
                    } else {
                        assert(key_order()(x, z) == -1);
                    }
                } else if i == p {
                } else {
                    assert(old_order[i - 1] == order[i]);
                    assert(old_order[j - 1] == order[j]);
                }
            }
            assert forall|i: int, j: int|
                0 <= i < j < order.len() && key_compare(kv[order[i] as int], kv[order[j] as int]) == 0
                    implies order[i] < order[j] by {
                if i < p && j < p {
                } else if i < p && j == p {
                } else if i < p && j > p {
                    assert(old_order[j - 1] == order[j]);
                } else if i == p {
                    assert(old_order[j - 1] == order[j]);
                } else {
                    assert(old_order[i - 1] == order[i]);
                    assert(old_order[j - 1] == order[j]);
                }
            }
            assert forall|i: int, j: int| 0 <= i < j < order.len() implies order[i] != order[j] by {
                if i < p && j < p {
                } else if i < p && j == p {
                } else if i < p && j > p {
                    assert(old_order[j - 1] == order[j]);
                } else if i == p {
                    assert(old_order[j - 1] == order[j]);
                } else {
                    assert(old_order[i - 1] == order[i]);
                    assert(old_order[j - 1] == order[j]);
                }
            }
            assert forall|i: int| 0 <= i < order.len() implies #[trigger] order[i] < k + 1 by {
                if i < p {
                } else if i > p {
                    assert(old_order[i - 1] == order[i]);
                }
            }
            assert forall|m: int| 0 <= m < k + 1 implies #[trigger] occurs(order@, m) by {
                if m == k {
                    assert(order[p as int] == m);
                } else {
                    assert(occurs(old_order, m));
                    let t0 = choose|t: int| 0 <= t < old_order.len() && old_order[t] == m;
                    if t0 < p {
                        assert(order[t0] == m);
                    } else {
                        assert(order[t0 + 1] == m);
                    }
                }
            }
        }
        k = k + 1;
    }
    order
}

/// Sorts indices by key and keeps only the first index of each key.
pub fn unique_sorted_order(keys: &Vec<Vec<KeyAtom>>) -> (order: Vec<usize>)
    ensures
        forall|i: int| 0 <= i < order.len() ==> #[trigger] order[i] < keys.len(),
        forall|i: int, j: int|
            0 <= i < j < order.len() ==> key_compare(
                keys_view(keys@)[order[i] as int],
                keys_view(keys@)[order[j] as int],
            ) == -1,
        forall|k: int| 0 <= k < keys.len() ==> #[trigger] covers_key(keys_view(keys@), order@, k),
        forall|i: int, k: int|
            #![trigger keys_view(keys@)[k], order[i]]
            0 <= i < order.len() && 0 <= k < order[i] ==> keys_view(keys@)[k] != keys_view(
                keys@,
            )[order[i] as int],
{
    let ghost kv = keys_view(keys@);
    let all = sorted_order(keys);
    let mut order: Vec<usize> = Vec::new();
    let mut q: usize = 0;
    while q < all.len()
        invariant
            q <= all.len(),
            kv == keys_view(keys@),
            kv.len() == keys.len(),
            is_permutation(all@, keys.len() as nat),
            forall|i: int, j: int|
                0 <= i < j < all.len() ==> key_compare(kv[all[i] as int], kv[all[j] as int]) <= 0,
            forall|i: int, j: int|
                0 <= i < j < all.len() && key_compare(kv[all[i] as int], kv[all[j] as int]) == 0
                    ==> all[i] < all[j],
            forall|i: int| 0 <= i < order.len() ==> #[trigger] order[i] < keys.len(),
            forall|i: int, j: int|
                0 <= i < j < order.len() ==> key_compare(kv[order[i] as int], kv[order[j] as int]) == -1,
            q > 0 ==> order.len() > 0 && kv[order[order.len() - 1] as int] == kv[all[q - 1] as int],
            q == 0 ==> order.len() == 0,
            forall|t: int|
                #![trigger all[t]]
                0 <= t < q ==> exists|i: int|
                    0 <= i < order.len() && kv[#[trigger] order[i] as int] == kv[all[t] as int],
            forall|i: int, m: int|
                #![trigger kv[m], order[i]]
                0 <= i < order.len() && 0 <= m < order[i] ==> kv[m] != kv[order[i] as int],
        decreases all.len() - q,
    {
        let keep = if q == 0 {
            true
        } else {
            compare_keys(&keys[order[order.len() - 1]], &keys[all[q]]) != 0
        };
        let ghost cur = kv[all[q as int] as int];
        proof {
            if q > 0 {
                lemma_key_facts(kv[all[q - 1] as int], cur);
            }
        }
        if keep {
            let ghost old_order = order@;
            proof {
                if q > 0 {
                    let last = kv[all[q - 1] as int];
                    assert(key_compare(last, cur) == -1);
                    assert forall|i: int| 0 <= i < old_order.len() implies key_compare(
                        kv[old_order[i] as int],
                        cur,
                    ) == -1 by {
                        let x = kv[old_order[i] as int];
                        lemma_key_facts(x, cur);
                        if i < old_order.len() - 1 {
                            assert(key_compare(x, kv[old_order[old_order.len() - 1] as int]) == -1);
                            lemma_key_trans(x, last, cur);
                        }
                    }
                }
                assert forall|m: int| 0 <= m < all[q as int] implies #[trigger] kv[m] != cur by {
                    if kv[m] == cur {
                        assert(occurs(all@, m));
                        let t = choose|t: int| 0 <= t < all.len() && all[t] == m;
                        lemma_key_facts(kv[all[t] as int], cur);
                        lemma_key_facts(cur, kv[all[t] as int]);
                        if t > q {
                            assert(all[q as int] < all[t]);
                        } else {
                            assert(t < q);
                            let last = kv[all[q - 1] as int];
                            if t < q - 1 {
                                assert(key_compare(kv[all[t] as int], last) <= 0);
                                lemma_key_trans(cur, last, cur);
                                lemma_key_facts(cur, cur);
                            }
                        }
                    }
                }
            }
            order.push(all[q]);
            proof {
                assert forall|t: int| #![trigger all[t]] 0 <= t < q + 1 implies exists|i: int|
                    0 <= i < order.len() && kv[#[trigger] order[i] as int] == kv[all[t] as int] by {
                    if t == q {
                        assert(order[order.len() - 1] == all[t]);
                    } else {
                        let i0 = choose|i: int| 0 <= i < old_order.len() && kv[#[trigger] old_order[i] as int] == kv[all[t] as int];
                        assert(order[i0] == old_order[i0]);
                    }
                }
                assert forall|i: int, m: int|
                    #![trigger kv[m], order[i]]
                    0 <= i < order.len() && 0 <= m < order[i] implies kv[m] != kv[order[i] as int] by {
                    if i < old_order.len() {
                        assert(order[i] == old_order[i]);
                    }
                }
            }
        } else {
            proof {
                assert(kv[order[order.len() - 1] as int] == cur);
                assert forall|t: int| #![trigger all[t]] 0 <= t < q + 1 implies exists|i: int|
                    0 <= i < order.len() && kv[#[trigger] order[i] as int] == kv[all[t] as int] by {
                    if t == q {
                        assert(kv[order[order.len() - 1] as int] == kv[all[t] as int]);
                    }
                }
            }
        }
        q = q + 1;
    }
    proof {
        assert forall|k: int| 0 <= k < keys.len() implies #[trigger] covers_key(kv, order@, k) by {
            assert(occurs(all@, k));
            let t = choose|t: int| 0 <= t < all.len() && all[t] == k;
            assert(kv[all[t] as int] == kv[k]);
        }
    }
    order
}

} // verus!
