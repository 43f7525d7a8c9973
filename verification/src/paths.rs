//! Repository-relative paths as text: their components, file name and
//! extension, with `/` as the separator.

use vstd::prelude::*;

verus! {

/// The pieces of `p` between separators, empty pieces included.
pub open spec fn split_pieces(p: Seq<char>) -> Seq<Seq<char>>
    decreases p.len(),
{
    if p.len() == 0 {
        seq![Seq::empty()]
    } else {
        let prev = split_pieces(p.drop_last());
        if p.last() == '/' {
            prev.push(Seq::empty())
        } else {
            prev.update(prev.len() - 1, prev.last().push(p.last()))
        }
    }
}

/// A path has at least one piece.
pub proof fn lemma_split_nonempty(p: Seq<char>)
    ensures
        split_pieces(p).len() >= 1,
    decreases p.len(),
{
    if p.len() > 0 {
        lemma_split_nonempty(p.drop_last());
    }
}

/// Text without a separator is one piece.
pub proof fn lemma_split_plain(w: Seq<char>)
    requires
        forall|k: int| 0 <= k < w.len() ==> w[k] != '/',
    ensures
        split_pieces(w) == seq![w],
    decreases w.len(),
{
    if w.len() > 0 {
        lemma_split_plain(w.drop_last());
        assert(w.drop_last().push(w.last()) =~= w);
        assert(seq![w.drop_last()].update(0, w.drop_last().push(w.last())) =~= seq![w]);
    } else {
        assert(w =~= Seq::<char>::empty());
    }
}

/// Joining two texts with a separator joins their pieces.
pub proof fn lemma_split_concat(x: Seq<char>, y: Seq<char>)
    ensures
        split_pieces(x + seq!['/'] + y) == split_pieces(x) + split_pieces(y),
    decreases y.len(),
{
    let z = x + seq!['/'] + y;
    if y.len() == 0 {
        assert(z.drop_last() =~= x);
        assert(split_pieces(x).push(Seq::empty()) =~= split_pieces(x) + split_pieces(y));
    } else {
        assert(z.drop_last() =~= x + seq!['/'] + y.drop_last());
        lemma_split_concat(x, y.drop_last());
        lemma_split_nonempty(y.drop_last());
        let a = split_pieces(x);
        let b = split_pieces(y.drop_last());
        assert(z.last() == y.last());
        if y.last() == '/' {
            assert((a + b).push(Seq::empty()) =~= a + b.push(Seq::empty()));
        } else {
            assert((a + b).update((a + b).len() - 1, (a + b).last().push(y.last())) =~= a + b.update(
                b.len() - 1,
                b.last().push(y.last()),
            ));
        }
    }
}

/// A piece that names something: not empty and not `.`.
pub open spec fn is_named_piece(s: Seq<char>) -> bool {
    s.len() > 0 && s != seq!['.']
}

/// The named components of a path, in order.
pub open spec fn components(p: Seq<char>) -> Seq<Seq<char>> {
    split_pieces(p).filter(|s: Seq<char>| is_named_piece(s))
}

/// The last component, unless there is none or it is `..`.
pub open spec fn file_name(p: Seq<char>) -> Option<Seq<char>> {
    let c = components(p);
    if c.len() == 0 || c.last() == seq!['.', '.'] {
        None
    } else {
        Some(c.last())
    }
}

/// The text after the last dot of a name, unless the name has no dot or its
/// only dot comes first.
pub open spec fn name_extension(name: Seq<char>) -> Option<Seq<char>> {
    if exists|i: int| 0 < i < name.len() && name[i] == '.' {
        let i = choose|i: int| 0 < i < name.len() && name[i] == '.' && forall|j: int| i < j < name.len() ==> name[j] != '.';
        Some(name.subrange(i + 1, name.len() as int))
    } else {
        None
    }
}

pub open spec fn extension(p: Seq<char>) -> Option<Seq<char>> {
    match file_name(p) {
        Some(name) => name_extension(name),
        None => None,
    }
}

pub open spec fn ascii_lower_char(c: char) -> char {
    if 'A' <= c && c <= 'Z' {
        ((c as u32) + 32) as char
    } else {
        c
    }
}

/// ASCII letters lowered; everything else kept.
pub open spec fn ascii_lower(s: Seq<char>) -> Seq<char> {
    s.map_values(|c: char| ascii_lower_char(c))
}

/// The pieces of a path between separators.
pub fn path_pieces(p: &str) -> (r: Vec<Vec<char>>)
    ensures
        r@.map_values(|v: Vec<char>| v@) == split_pieces(p@),
{
    let chars = crate::order::text_chars(p);
    let mut r: Vec<Vec<char>> = Vec::new();
    r.push(Vec::new());
    proof {
        assert(r@.map_values(|v: Vec<char>| v@) =~= split_pieces(chars@.take(0)));
    }
    let mut i: usize = 0;
    while i < chars.len()
        invariant
            i <= chars.len(),
            chars@ == p@,
            r.len() >= 1,
            r@.map_values(|v: Vec<char>| v@) == split_pieces(chars@.take(i as int)),
        decreases chars.len() - i,
    {
        let c = chars[i];
        let ghost t = chars@.take(i + 1);
        proof {
            assert(t.drop_last() =~= chars@.take(i as int));
            assert(t.last() == c);
        }
        let ghost before = r@.map_values(|v: Vec<char>| v@);
        if c == '/' {
            r.push(Vec::new());
            proof {
                assert(r@.map_values(|v: Vec<char>| v@) =~= before.push(Seq::empty()));
            }
        } else {
            let last = r.len() - 1;
            let mut piece = r.pop().unwrap();
            piece.push(c);
            r.push(piece);
            proof {
                assert(r@.map_values(|v: Vec<char>| v@) =~= before.update(before.len() - 1, before.last().push(c)));
            }
        }
        i = i + 1;
    }
    proof {
        assert(chars@.take(chars.len() as int) =~= chars@);
    }
    r
}

fn is_dot_piece(s: &Vec<char>) -> (r: bool)
    ensures
        r == (s@ == seq!['.']),
{
    if s.len() == 1 && s[0] == '.' {
        assert(s@ =~= seq!['.']);
        true
    } else {
        false
    }
}

/// The named components of a path.
pub fn path_components(p: &str) -> (r: Vec<Vec<char>>)
    ensures
        r@.map_values(|v: Vec<char>| v@) == components(p@),
{
    let pieces = path_pieces(p);
    let ghost pv = pieces@.map_values(|v: Vec<char>| v@);
    let mut r: Vec<Vec<char>> = Vec::new();
    let mut i: usize = 0;
    while i < pieces.len()
        invariant
            i <= pieces.len(),
            pv == pieces@.map_values(|v: Vec<char>| v@),
            pv == split_pieces(p@),
            r@.map_values(|v: Vec<char>| v@) == pv.take(i as int).filter(|s: Seq<char>| is_named_piece(s)),
        decreases pieces.len() - i,
    {
        let ghost before = r@.map_values(|v: Vec<char>| v@);
        proof {
            let t = pv.take(i + 1);
            assert(t.drop_last() =~= pv.take(i as int));
            assert(t.last() == pieces[i as int]@);
            assert(t.filter(|s: Seq<char>| is_named_piece(s)) == if is_named_piece(t.last()) {
                t.drop_last().filter(|s: Seq<char>| is_named_piece(s)).push(t.last())
            } else {
                t.drop_last().filter(|s: Seq<char>| is_named_piece(s))
            }) by {
                reveal_with_fuel(Seq::<_>::filter, 1);
            }
        }
        if pieces[i].len() > 0 && !is_dot_piece(&pieces[i]) {
            r.push(pieces[i].clone());
            proof {
                assert(r@.map_values(|v: Vec<char>| v@) =~= before.push(pieces[i as int]@));
            }
        }
        i = i + 1;
    }
    proof {
        assert(pv.take(pieces.len() as int) =~= pv);
    }
    r
}

/// The file name of a path: its last component, unless there is none or it
/// is `..`.
pub fn path_file_name(p: &str) -> (r: Option<Vec<char>>)
    ensures
        match r {
            Some(v) => file_name(p@) == Some(v@),
            None => file_name(p@) is None,
        },
{
    let c = path_components(p);
    proof {
        assert(c@.map_values(|v: Vec<char>| v@).len() == c.len());
    }
    if c.len() == 0 {
        return None;
    }
    let last = &c[c.len() - 1];
    proof {
        assert(c@.map_values(|v: Vec<char>| v@).last() == last@);
    }
    if last.len() == 2 && last[0] == '.' && last[1] == '.' {
        proof {
            assert(last@ =~= seq!['.', '.']);
        }
        return None;
    }
    proof {
        if last@ == seq!['.', '.'] {
            assert(last.len() == 2 && last[0] == '.' && last[1] == '.');
        }
    }
    Some(last.clone())
}

/// The extension of a file name.
pub fn name_extension_of(name: &Vec<char>) -> (r: Option<Vec<char>>)
    ensures
        match r {
            Some(v) => name_extension(name@) == Some(v@),
            None => name_extension(name@) is None,
        },
{
    let n = name.len();
    let mut i: usize = n;
    while i > 0
        invariant
            i <= n,
            n == name.len(),
            forall|j: int| i <= j < n ==> name[j] != '.',
        decreases i,
    {
        if name[i - 1] == '.' {
            let dot = i - 1;
            if dot == 0 {
                proof {
                    assert forall|k: int| !(0 < k < name.len() && name[k] == '.') by {}
                }
                return None;
            }
            let mut ext: Vec<char> = Vec::new();
            let mut k: usize = dot + 1;
            while k < n
                invariant
                    dot + 1 <= k <= n,
                    n == name.len(),
                    ext@ == name@.subrange(dot + 1, k as int),
                decreases n - k,
            {
                ext.push(name[k]);
                k = k + 1;
                assert(ext@ =~= name@.subrange(dot + 1, k as int));
            }
            proof {
                let c = choose|c: int| 0 < c < name.len() && name[c] == '.' && forall|j: int| c < j < name.len() ==> name[j] != '.';
                assert(0 < dot < name.len() && name[dot as int] == '.' && forall|j: int| dot < j < name.len() ==> name[j] != '.');
                if c < dot {
                    assert(name[dot as int] != '.');
                } else if dot < c {
                    assert(name[c] != '.');
                }
            }
            return Some(ext);
        }
        i = i - 1;
    }
    None
}

/// The extension of a path's file name.
pub fn path_extension(p: &str) -> (r: Option<Vec<char>>)
    ensures
        match r {
            Some(v) => extension(p@) == Some(v@),
            None => extension(p@) is None,
        },
{
    match path_file_name(p) {
        None => None,
        Some(name) => name_extension_of(&name),
    }
}

/// ASCII letters lowered.
pub fn ascii_lowercase(s: &Vec<char>) -> (r: Vec<char>)
    ensures
        r@ == ascii_lower(s@),
{
    let mut r: Vec<char> = Vec::new();
    let mut i: usize = 0;
    while i < s.len()
        invariant
            i <= s.len(),
            r@ == ascii_lower(s@.take(i as int)),
        decreases s.len() - i,
    {
        let c = s[i];
        let l = if 'A' <= c && c <= 'Z' {
            lower_ascii_letter(c)
        } else {
            c
        };
        r.push(l);
        i = i + 1;
        assert(r@ =~= ascii_lower(s@.take(i as int)));
    }
    assert(s@.take(s.len() as int) =~= s@);
    r
}

fn lower_ascii_letter(c: char) -> (r: char)
    requires
        'A' <= c && c <= 'Z',
    ensures
        r == ascii_lower_char(c),
{
    let b: u8 = c as u8;
    proof {
        assert(0x41 <= b <= 0x5a);
    }
    let r = (b + 32) as char;
    r
}


/// The file name of `w`, and of `d/w` for any `d`, is `w` itself when `w`
/// is a named piece other than `..` without a separator.
pub proof fn lemma_file_name_of_last_piece(d: Seq<char>, w: Seq<char>)
    requires
        forall|k: int| 0 <= k < w.len() ==> w[k] != '/',
        is_named_piece(w),
        w != seq!['.', '.'],
    ensures
        file_name(w) == Some(w),
        file_name(d + seq!['/'] + w) == Some(w),
{
    let pred = |s: Seq<char>| is_named_piece(s);
    lemma_split_plain(w);
    assert(seq![w] =~= Seq::<Seq<char>>::empty().push(w));
    Seq::<Seq<char>>::empty().lemma_filter_push(w, pred);
    Seq::<Seq<char>>::empty().lemma_filter_len(pred);
    assert(components(w) == split_pieces(w).filter(pred));
    assert(components(w).last() == w);
    lemma_split_concat(d, w);
    assert(split_pieces(d) + split_pieces(w) =~= split_pieces(d).push(w));
    split_pieces(d).lemma_filter_push(w, pred);
    assert(components(d + seq!['/'] + w) == split_pieces(d + seq!['/'] + w).filter(pred));
    assert(components(d + seq!['/'] + w).last() == w);
}

/// The extension of `stem.ext` is `ext` when `ext` has no dot and `stem`
/// is not empty.
pub proof fn lemma_name_extension_of(stem: Seq<char>, ext: Seq<char>)
    requires
        stem.len() > 0,
        forall|k: int| 0 <= k < ext.len() ==> ext[k] != '.',
    ensures
        name_extension(stem + seq!['.'] + ext) == Some(ext),
{
    let name = stem + seq!['.'] + ext;
    let at = stem.len() as int;
    assert(name[at] == '.');
    assert(forall|j: int| at < j < name.len() ==> name[j] == ext[j - at - 1]);
    let i = choose|i: int| 0 < i < name.len() && name[i] == '.' && forall|j: int| i < j < name.len() ==> name[j] != '.';
    if i < at {
        assert(name[at] != '.');
    }
    if i > at {
        assert(name[i] == ext[i - at - 1]);
    }
    assert(i == at);
    assert(name.subrange(at + 1, name.len() as int) =~= ext);
}

} // verus!
