//! Symbol references into a Git snapshot: the `rc1` text form that names a
//! commit, a blob, a repository-relative path and a byte range, how it is
//! written and read back.

use vstd::prelude::*;
use vstd::utf8::{decode_utf8, encode_utf8, valid_utf8};

use crate::text::{copy_string, decimal, push_char, push_decimal, push_text};

verus! {

/// Why a snapshot operation failed.
#[derive(Debug)]
pub struct SnapshotError(pub String);

/// One file of a snapshot: its blob and its text.
#[derive(Debug)]
pub struct SnapshotFile {
    pub object: String,
    pub source: String,
}

/// The committed files of one commit: the C++ sources that were read, the
/// tracked entries left out with the reason, and every tracked entry with
/// its mode and object.
#[derive(Debug)]
pub struct GitSnapshot {
    pub commit: String,
    pub files: std::collections::BTreeMap<String, SnapshotFile>,
    pub excluded: Vec<(String, String)>,
    pub entries: std::collections::BTreeMap<String, (String, String)>,
}

/// A reference to a byte range of one file of one commit.
#[derive(Debug)]
pub struct SourceReference {
    pub commit: String,
    pub object: String,
    pub path: String,
    pub start: usize,
    pub end: usize,
}

/// A reference taken by value.
pub struct ReferenceText {
    pub commit: Seq<char>,
    pub object: Seq<char>,
    pub path: Seq<char>,
    pub start: usize,
    pub end: usize,
}

impl View for SourceReference {
    type V = ReferenceText;

    open spec fn view(&self) -> ReferenceText {
        ReferenceText {
            commit: self.commit@,
            object: self.object@,
            path: self.path@,
            start: self.start,
            end: self.end,
        }
    }
}

/// The pieces of `s` between occurrences of `sep`, empty pieces included.
pub open spec fn split_on(s: Seq<char>, sep: char) -> Seq<Seq<char>>
    decreases s.len(),
{
    if s.len() == 0 {
        seq![Seq::empty()]
    } else {
        let prev = split_on(s.drop_last(), sep);
        if s.last() == sep {
            prev.push(Seq::empty())
        } else {
            prev.update(prev.len() - 1, prev.last().push(s.last()))
        }
    }
}

pub open spec fn is_hex_char(c: char) -> bool {
    ('0' <= c && c <= '9') || ('a' <= c && c <= 'f') || ('A' <= c && c <= 'F')
}

pub open spec fn all_hex(s: Seq<char>) -> bool {
    forall|i: int| 0 <= i < s.len() ==> is_hex_char(#[trigger] s[i])
}

/// A full Git object identifier: 40 or 64 hexadecimal digits.
pub open spec fn valid_oid(s: Seq<char>) -> bool {
    (s.len() == 40 || s.len() == 64) && all_hex(s)
}

pub open spec fn hex_value(c: char) -> int {
    if '0' <= c && c <= '9' {
        c as int - '0' as int
    } else if 'a' <= c && c <= 'f' {
        c as int - 'a' as int + 10
    } else {
        c as int - 'A' as int + 10
    }
}

/// The bytes that pairs of hexadecimal digits spell.
pub open spec fn hex_bytes(s: Seq<char>) -> Seq<u8>
    decreases s.len(),
{
    if s.len() < 2 {
        Seq::empty()
    } else {
        seq![(hex_value(s[0]) * 16 + hex_value(s[1])) as u8] + hex_bytes(s.subrange(2, s.len() as int))
    }
}

pub open spec fn hex_digit(d: int) -> char {
    if d < 10 {
        ('0' as int + d) as char
    } else {
        ('a' as int + d - 10) as char
    }
}

/// Two lowercase hexadecimal digits per byte.
pub open spec fn hex_text(b: Seq<u8>) -> Seq<char>
    decreases b.len(),
{
    if b.len() == 0 {
        Seq::empty()
    } else {
        seq![hex_digit(b[0] as int / 16), hex_digit(b[0] as int % 16)] + hex_text(b.drop_first())
    }
}

pub open spec fn is_digit_char(c: char) -> bool {
    '0' <= c && c <= '9'
}

/// The number decimal digits spell.
pub open spec fn digits_value(s: Seq<char>) -> nat
    decreases s.len(),
{
    if s.len() == 0 {
        0
    } else {
        digits_value(s.drop_last()) * 10 + (s.last() as int - '0' as int) as nat
    }
}

/// The digits of a number, after an optional `+`.
pub open spec fn unsigned_part(s: Seq<char>) -> Seq<char> {
    if s.len() > 0 && s[0] == '+' { s.drop_first() } else { s }
}

/// What `usize::from_str` gives: an optional `+`, then at least one digit,
/// the value within range.
pub open spec fn parse_usize(s: Seq<char>) -> Option<usize> {
    let d = unsigned_part(s);
    if d.len() == 0 || !(forall|i: int| 0 <= i < d.len() ==> is_digit_char(#[trigger] d[i])) || digits_value(d)
        > usize::MAX {
        None
    } else {
        Some(digits_value(d) as usize)
    }
}

/// A path whose components are all names: relative, not starting with `.`
/// as a component, and without `..`.
pub open spec fn normal_path(p: Seq<char>) -> bool {
    let pieces = split_on(p, '/');
    &&& p.len() > 0
    &&& p[0] != '/'
    &&& pieces[0] != seq!['.']
    &&& forall|i: int| 0 <= i < pieces.len() ==> #[trigger] pieces[i] != seq!['.', '.']
}

/// The text form of a reference.
pub open spec fn reference_text(r: ReferenceText) -> Seq<char> {
    "rc1:"@ + r.commit + ":"@ + r.object + ":"@ + decimal(r.start as nat) + ":"@ + decimal(r.end as nat) + ":"@
        + hex_text(encode_utf8(r.path))
}

pub open spec fn malformed_message() -> Seq<char> {
    "invalid rc1 symbol reference; copy the complete reference from JSON"@
}

/// What reading the text form gives: the reference, or the error text.
pub open spec fn parse_reference(t: Seq<char>) -> Result<ReferenceText, Seq<char>> {
    let parts = split_on(t, ':');
    if parts.len() != 6 || parts[0] != "rc1"@ || !valid_oid(parts[1]) || !valid_oid(parts[2]) || !all_hex(parts[5])
        || parts[5].len() % 2 != 0 {
        Err(malformed_message())
    } else if !valid_utf8(hex_bytes(parts[5])) {
        Err("Git paths must be UTF-8"@)
    } else if !normal_path(decode_utf8(hex_bytes(parts[5]))) {
        Err("reference path must be repository-relative"@)
    } else if parse_usize(parts[3]) is None || parse_usize(parts[4]) is None {
        Err("invalid reference offset"@)
    } else if parse_usize(parts[3])->0 > parse_usize(parts[4])->0 {
        Err("reference range is reversed"@)
    } else {
        Ok(
            ReferenceText {
                commit: parts[1],
                object: parts[2],
                path: decode_utf8(hex_bytes(parts[5])),
                start: parse_usize(parts[3])->0,
                end: parse_usize(parts[4])->0,
            },
        )
    }
}

proof fn lemma_split_nonempty(s: Seq<char>, sep: char)
    ensures
        split_on(s, sep).len() >= 1,
    decreases s.len(),
{
    if s.len() > 0 {
        lemma_split_nonempty(s.drop_last(), sep);
    }
}

proof fn lemma_split_concat(a: Seq<char>, b: Seq<char>, sep: char)
    ensures
        split_on(a + seq![sep] + b, sep) == split_on(a, sep) + split_on(b, sep),
    decreases b.len(),
{
    if b.len() == 0 {
        assert(a + seq![sep] + b =~= a.push(sep));
        assert((a + seq![sep] + b).drop_last() =~= a);
        assert(split_on(a, sep) + split_on(b, sep) =~= split_on(a, sep).push(Seq::empty()));
    } else {
        let b1 = b.drop_last();
        lemma_split_concat(a, b1, sep);
        lemma_split_nonempty(b1, sep);
        lemma_split_nonempty(a, sep);
        let whole = a + seq![sep] + b;
        assert(whole.drop_last() =~= a + seq![sep] + b1);
        assert(whole.last() == b.last());
        let pa = split_on(a, sep);
        let pb = split_on(b1, sep);
        if b.last() == sep {
            assert(split_on(whole, sep) =~= (pa + pb).push(Seq::empty()));
            assert(split_on(a, sep) + split_on(b, sep) =~= pa + pb.push(Seq::empty()));
        } else {
            let prev = pa + pb;
            assert(prev.last() == pb.last());
            assert(split_on(whole, sep) == prev.update(prev.len() - 1, prev.last().push(b.last())));
            assert(prev.update(prev.len() - 1, prev.last().push(b.last())) =~= pa + pb.update(pb.len() - 1, pb.last().push(
                b.last())));
        }
    }
}

proof fn lemma_split_free(s: Seq<char>, sep: char)
    requires
        forall|i: int| 0 <= i < s.len() ==> s[i] != sep,
    ensures
        split_on(s, sep) == seq![s],
    decreases s.len(),
{
    if s.len() == 0 {
        assert(s =~= Seq::<char>::empty());
    } else {
        lemma_split_free(s.drop_last(), sep);
        assert(s.drop_last().push(s.last()) =~= s);
        assert(split_on(s, sep) == seq![s.drop_last()].update(0, s.drop_last().push(s.last())));
        assert(seq![s.drop_last()].update(0, s) =~= seq![s]);
    }
}

proof fn lemma_hex_digit(d: int)
    requires
        0 <= d < 16,
    ensures
        is_hex_char(hex_digit(d)),
        hex_value(hex_digit(d)) == d,
        hex_digit(d) != ':',
{
}

proof fn lemma_hex_text(b: Seq<u8>)
    ensures
        hex_text(b).len() == 2 * b.len(),
        all_hex(hex_text(b)),
        hex_bytes(hex_text(b)) == b,
        forall|i: int| 0 <= i < hex_text(b).len() ==> hex_text(b)[i] != ':',
    decreases b.len(),
{
    if b.len() > 0 {
        lemma_hex_text(b.drop_first());
        let h = b[0] as int / 16;
        let l = b[0] as int % 16;
        lemma_hex_digit(h);
        lemma_hex_digit(l);
        let t = hex_text(b);
        let rest = hex_text(b.drop_first());
        assert(t == seq![hex_digit(h), hex_digit(l)] + rest);
        assert(t.subrange(2, t.len() as int) =~= rest);
        assert((h * 16 + l) as u8 == b[0]);
        assert(hex_bytes(t) =~= seq![b[0]] + b.drop_first());
        assert(seq![b[0]] + b.drop_first() =~= b);
        assert forall|i: int| 0 <= i < t.len() implies is_hex_char(#[trigger] t[i]) by {
            if i >= 2 {
                assert(t[i] == rest[i - 2]);
            }
        }
        assert forall|i: int| 0 <= i < t.len() implies t[i] != ':' by {
            if i >= 2 {
                assert(t[i] == rest[i - 2]);
            }
        }
    }
}

proof fn lemma_digit_char(k: int)
    requires
        0 <= k < 10,
    ensures
        is_digit_char(crate::text::digit_char(k)),
        crate::text::digit_char(k) as int - '0' as int == k,
{
    assert('0' as int == 48);
    assert('9' as int == 57);
    if k == 0 {
    } else if k == 1 {
        assert('1' as int == 49);
    } else if k == 2 {
        assert('2' as int == 50);
    } else if k == 3 {
        assert('3' as int == 51);
    } else if k == 4 {
        assert('4' as int == 52);
    } else if k == 5 {
        assert('5' as int == 53);
    } else if k == 6 {
        assert('6' as int == 54);
    } else if k == 7 {
        assert('7' as int == 55);
    } else if k == 8 {
        assert('8' as int == 56);
    } else {
    }
}

proof fn lemma_decimal(n: nat)
    ensures
        decimal(n).len() > 0,
        forall|i: int| 0 <= i < decimal(n).len() ==> is_digit_char(#[trigger] decimal(n)[i]),
        digits_value(decimal(n)) == n,
    decreases n,
{
    lemma_digit_char((n % 10) as int);
    if n < 10 {
        let d = decimal(n);
        assert(d.drop_last() =~= Seq::<char>::empty());
        lemma_digit_char(n as int);
        assert(d.last() == crate::text::digit_char(n as int));
        assert(digits_value(d) == digits_value(d.drop_last()) * 10 + (d.last() as int - '0' as int) as nat);
        assert(digits_value(Seq::<char>::empty()) == 0);
    }
    if n >= 10 {
        lemma_decimal(n / 10);
        let d = decimal(n);
        assert(d == decimal(n / 10).push(crate::text::digit_char((n % 10) as int)));
        assert(d.drop_last() =~= decimal(n / 10));
        assert(n == (n / 10) * 10 + n % 10) by (nonlinear_arith);
        assert(d.last() == crate::text::digit_char((n % 10) as int));
        assert(digits_value(d) == digits_value(d.drop_last()) * 10 + (d.last() as int - '0' as int) as nat);
        assert(digits_value(d.drop_last()) == n / 10);
        assert forall|i: int| 0 <= i < d.len() implies is_digit_char(#[trigger] d[i]) by {
            if i < d.len() - 1 {
                assert(d[i] == decimal(n / 10)[i]);
            }
        }
    }
}

proof fn lemma_parse_decimal(n: usize)
    ensures
        parse_usize(decimal(n as nat)) == Some(n),
        forall|i: int| 0 <= i < decimal(n as nat).len() ==> decimal(n as nat)[i] != ':',
{
    lemma_decimal(n as nat);
    let d = decimal(n as nat);
    assert(is_digit_char(d[0]));
    assert forall|i: int| 0 <= i < d.len() implies d[i] != ':' by {
        assert(is_digit_char(d[i]));
    }
}

/// Reading the text form of a reference gives the reference back, when its
/// identifiers are full object IDs, its path is repository-relative and its
/// range is not reversed.
pub proof fn lemma_parse_reference_text(r: ReferenceText)
    requires
        valid_oid(r.commit),
        valid_oid(r.object),
        normal_path(r.path),
        r.start <= r.end,
    ensures
        parse_reference(reference_text(r)) == Ok::<ReferenceText, Seq<char>>(r),
{
    let c = ':';
    let h = hex_text(encode_utf8(r.path));
    lemma_hex_text(encode_utf8(r.path));
    vstd::utf8::encode_utf8_valid_utf8(r.path);
    vstd::utf8::encode_utf8_decode_utf8(r.path);
    lemma_parse_decimal(r.start);
    lemma_parse_decimal(r.end);
    let ds = decimal(r.start as nat);
    let de = decimal(r.end as nat);
    reveal_strlit("rc1:");
    reveal_strlit("rc1");
    reveal_strlit(":");
    let rc = "rc1"@;
    assert forall|i: int| 0 <= i < r.commit.len() implies r.commit[i] != c by {
        assert(is_hex_char(r.commit[i]));
    }
    assert forall|i: int| 0 <= i < r.object.len() implies r.object[i] != c by {
        assert(is_hex_char(r.object[i]));
    }
    lemma_split_free(rc, c);
    lemma_split_free(r.commit, c);
    lemma_split_free(r.object, c);
    lemma_split_free(ds, c);
    lemma_split_free(de, c);
    lemma_split_free(h, c);
    let t = reference_text(r);
    assert(t =~= rc + seq![c] + (r.commit + seq![c] + (r.object + seq![c] + (ds + seq![c] + (de + seq![c] + h)))));
    lemma_split_concat(de, h, c);
    lemma_split_concat(ds, de + seq![c] + h, c);
    lemma_split_concat(r.object, ds + seq![c] + (de + seq![c] + h), c);
    lemma_split_concat(r.commit, r.object + seq![c] + (ds + seq![c] + (de + seq![c] + h)), c);
    lemma_split_concat(rc, r.commit + seq![c] + (r.object + seq![c] + (ds + seq![c] + (de + seq![c] + h))), c);
    let parts = split_on(t, c);
    assert(parts =~= seq![rc, r.commit, r.object, ds, de, h]);
    assert(parts[5] == h);
    assert(h.len() % 2 == 0);
}

/// Decodes bytes as UTF-8.
fn decode_utf8_text(b: &[u8]) -> (r: Option<String>)
    ensures
        r is Some <==> valid_utf8(b@),
        r matches Some(s) ==> s@ == decode_utf8(b@),
{
    match crate::text::utf8_prefix(b) {
        Ok(s) => Some(s),
        Err(_) => None,
    }
}

proof fn lemma_hex_text_push(b: Seq<u8>, x: u8)
    ensures
        hex_text(b.push(x)) == hex_text(b) + seq![hex_digit(x as int / 16), hex_digit(x as int % 16)],
    decreases b.len(),
{
    if b.len() == 0 {
        assert(b.push(x).drop_first() =~= Seq::<u8>::empty());
        assert(b.push(x)[0] == x);
        assert(hex_text(Seq::<u8>::empty()) == Seq::<char>::empty());
        assert(hex_text(b.push(x)) == seq![hex_digit(x as int / 16), hex_digit(x as int % 16)] + hex_text(b.push(x).drop_first()));
        assert(hex_text(b.push(x)) =~= hex_text(b) + seq![hex_digit(x as int / 16), hex_digit(x as int % 16)]);
    } else {
        lemma_hex_text_push(b.drop_first(), x);
        assert(b.push(x).drop_first() =~= b.drop_first().push(x));
        assert(b.push(x)[0] == b[0]);
        let head = seq![hex_digit(b[0] as int / 16), hex_digit(b[0] as int % 16)];
        assert(hex_text(b.push(x)) == head + hex_text(b.drop_first().push(x)));
        assert(hex_text(b) == head + hex_text(b.drop_first()));
        assert(hex_text(b.push(x)) =~= hex_text(b) + seq![hex_digit(x as int / 16), hex_digit(x as int % 16)]);
    }
}

fn hex_digit_char(d: u8) -> (c: char)
    requires
        d < 16,
    ensures
        c == hex_digit(d as int),
{
    if d < 10 {
        (48u8 + d) as char
    } else {
        (87u8 + d) as char
    }
}

fn push_hex(out: &mut String, b: &[u8])
    ensures
        final(out)@ == old(out)@ + hex_text(b@),
{
    let ghost start = out@;
    let mut i: usize = 0;
    while i < b.len()
        invariant
            i <= b.len(),
            out@ == start + hex_text(b@.take(i as int)),
        decreases b.len() - i,
    {
        let x = b[i];
        push_char(out, hex_digit_char(x / 16));
        push_char(out, hex_digit_char(x % 16));
        proof {
            lemma_hex_text_push(b@.take(i as int), x);
            assert(b@.take(i + 1) =~= b@.take(i as int).push(x));
            assert(out@ =~= start + hex_text(b@.take(i + 1)));
        }
        i = i + 1;
    }
    proof {
        assert(b@.take(b.len() as int) =~= b@);
    }
}

impl SourceReference {
    /// The text form `rc1:{commit}:{object}:{start}:{end}:{path as hex}`.
    pub fn encode(&self) -> (r: String)
        ensures
            r@ == reference_text(self@),
    {
        let mut out = String::new();
        push_text(&mut out, "rc1:");
        push_text(&mut out, self.commit.as_str());
        push_text(&mut out, ":");
        push_text(&mut out, self.object.as_str());
        push_text(&mut out, ":");
        push_decimal(&mut out, self.start as u64);
        push_text(&mut out, ":");
        push_decimal(&mut out, self.end as u64);
        push_text(&mut out, ":");
        let bytes = self.path.as_str().as_bytes();
        push_hex(&mut out, bytes);
        proof {
            assert(out@ =~= reference_text(self@));
        }
        out
    }
}

/// The pieces of `s` between occurrences of `sep`.
pub fn split_chars(s: &Vec<char>, sep: char) -> (r: Vec<Vec<char>>)
    ensures
        r.len() >= 1,
        r@.map_values(|v: Vec<char>| v@) == split_on(s@, sep),
{
    let mut r: Vec<Vec<char>> = Vec::new();
    r.push(Vec::new());
    proof {
        assert(r@.map_values(|v: Vec<char>| v@) =~= split_on(s@.take(0), sep));
    }
    let mut i: usize = 0;
    while i < s.len()
        invariant
            i <= s.len(),
            r.len() >= 1,
            r@.map_values(|v: Vec<char>| v@) == split_on(s@.take(i as int), sep),
        decreases s.len() - i,
    {
        let c = s[i];
        let ghost t = s@.take(i + 1);
        proof {
            assert(t.drop_last() =~= s@.take(i as int));
            assert(t.last() == c);
        }
        let ghost before = r@.map_values(|v: Vec<char>| v@);
        if c == sep {
            r.push(Vec::new());
            proof {
                assert(r@.map_values(|v: Vec<char>| v@) =~= before.push(Seq::empty()));
            }
        } else {
            let mut piece = r.pop().unwrap();
            piece.push(c);
            r.push(piece);
            proof {
                assert(r@.map_values(|v: Vec<char>| v@) =~= before.update(before.len() - 1, before.last().push(c)));
            }
        }
        i = i + 1;
    }
    proof {
        assert(s@.take(s.len() as int) =~= s@);
    }
    r
}

fn is_hex_exec(c: char) -> (r: bool)
    ensures
        r == is_hex_char(c),
{
    ('0' <= c && c <= '9') || ('a' <= c && c <= 'f') || ('A' <= c && c <= 'F')
}

fn all_hex_exec(v: &Vec<char>) -> (r: bool)
    ensures
        r == all_hex(v@),
{
    let mut i: usize = 0;
    while i < v.len()
        invariant
            i <= v.len(),
            forall|j: int| 0 <= j < i ==> is_hex_char(#[trigger] v@[j]),
        decreases v.len() - i,
    {
        if !is_hex_exec(v[i]) {
            return false;
        }
        i = i + 1;
    }
    true
}

fn valid_oid_exec(v: &Vec<char>) -> (r: bool)
    ensures
        r == valid_oid(v@),
{
    (v.len() == 40 || v.len() == 64) && all_hex_exec(v)
}

fn hex_value_exec(c: char) -> (r: u8)
    requires
        is_hex_char(c),
    ensures
        r as int == hex_value(c),
        r < 16,
{
    let n = c as u32;
    if '0' <= c && c <= '9' {
        (n - 48) as u8
    } else if 'a' <= c && c <= 'f' {
        (n - 87) as u8
    } else {
        (n - 55) as u8
    }
}

proof fn lemma_hex_bytes_concat(a: Seq<char>, b: Seq<char>)
    requires
        a.len() % 2 == 0,
    ensures
        hex_bytes(a + b) == hex_bytes(a) + hex_bytes(b),
    decreases a.len(),
{
    if a.len() == 0 {
        assert(a + b =~= b);
        assert(hex_bytes(a) == Seq::<u8>::empty());
        assert(hex_bytes(a) + hex_bytes(b) =~= hex_bytes(b));
    } else {
        let rest = a.subrange(2, a.len() as int);
        lemma_hex_bytes_concat(rest, b);
        assert((a + b).subrange(2, (a + b).len() as int) =~= rest + b);
        assert((a + b)[0] == a[0]);
        assert((a + b)[1] == a[1]);
        assert(hex_bytes(a + b) =~= hex_bytes(a) + hex_bytes(b));
    }
}

fn hex_bytes_exec(v: &Vec<char>) -> (r: Vec<u8>)
    requires
        all_hex(v@),
        v.len() % 2 == 0,
    ensures
        r@ == hex_bytes(v@),
{
    let mut r: Vec<u8> = Vec::new();
    let mut i: usize = 0;
    proof {
        assert(v@.take(0) =~= Seq::<char>::empty());
    }
    while i < v.len()
        invariant
            i <= v.len(),
            i % 2 == 0,
            v.len() % 2 == 0,
            all_hex(v@),
            r@ == hex_bytes(v@.take(i as int)),
        decreases v.len() - i,
    {
        let hi = hex_value_exec(v[i]);
        let lo = hex_value_exec(v[i + 1]);
        let b = hi * 16 + lo;
        let ghost before = r@;
        r.push(b);
        proof {
            let pair = v@.subrange(i as int, i + 2);
            assert(v@.take(i + 2) =~= v@.take(i as int) + pair);
            lemma_hex_bytes_concat(v@.take(i as int), pair);
            assert(pair[0] == v@[i as int]);
            assert(pair[1] == v@[i + 1]);
            assert(pair.subrange(2, pair.len() as int) =~= Seq::<char>::empty());
            assert(hex_bytes(pair.subrange(2, pair.len() as int)) == Seq::<u8>::empty());
            assert(hi * 16 + lo < 256);
            assert(hex_bytes(pair) == seq![(hex_value(pair[0]) * 16 + hex_value(pair[1])) as u8] + hex_bytes(
                pair.subrange(2, pair.len() as int),
            ));
            assert(hex_bytes(pair) =~= seq![b]);
            assert(r@ =~= hex_bytes(v@.take(i + 2)));
        }
        i = i + 2;
    }
    proof {
        assert(v@.take(v.len() as int) =~= v@);
    }
    r
}

fn normal_path_exec(p: &Vec<char>) -> (r: bool)
    ensures
        r == normal_path(p@),
{
    if p.len() == 0 || p[0] == '/' {
        return false;
    }
    let pieces = split_chars(p, '/');
    let ghost pv = pieces@.map_values(|v: Vec<char>| v@);
    proof {
        assert(pv.len() == pieces.len());
        assert(pv[0] == pieces@[0]@);
    }
    if pieces[0].len() == 1 && pieces[0][0] == '.' {
        proof {
            assert(pieces@[0]@ =~= seq!['.']);
        }
        return false;
    }
    proof {
        if pieces@[0]@ == seq!['.'] {
            assert(pieces@[0]@.len() == 1);
        }
    }
    let mut i: usize = 0;
    while i < pieces.len()
        invariant
            i <= pieces.len(),
            pv == pieces@.map_values(|v: Vec<char>| v@),
            pv == split_on(p@, '/'),
            forall|j: int| 0 <= j < i ==> #[trigger] pv[j] != seq!['.', '.'],
        decreases pieces.len() - i,
    {
        let piece = &pieces[i];
        if piece.len() == 2 && piece[0] == '.' && piece[1] == '.' {
            proof {
                assert(pv[i as int] =~= seq!['.', '.']);
            }
            return false;
        }
        proof {
            if pv[i as int] == seq!['.', '.'] {
                assert(piece@.len() == 2);
            }
        }
        i = i + 1;
    }
    true
}

proof fn lemma_digits_prefix(s: Seq<char>, k: int)
    requires
        0 <= k <= s.len(),
    ensures
        digits_value(s) >= digits_value(s.take(k)),
    decreases s.len(),
{
    if k < s.len() {
        lemma_digits_prefix(s.drop_last(), k);
        assert(s.drop_last().take(k) =~= s.take(k));
    } else {
        assert(s.take(k) =~= s);
    }
}

fn parse_usize_exec(s: &Vec<char>) -> (r: Option<usize>)
    ensures
        r == parse_usize(s@),
{
    let start: usize = if s.len() > 0 && s[0] == '+' { 1 } else { 0 };
    let ghost d = unsigned_part(s@);
    proof {
        assert(d =~= s@.subrange(start as int, s.len() as int));
    }
    if start == s.len() {
        return None;
    }
    let mut v: usize = 0;
    let mut i: usize = start;
    while i < s.len()
        invariant
            start <= i <= s.len(),
            d == s@.subrange(start as int, s.len() as int),
            d == unsigned_part(s@),
            forall|j: int| start <= j < i ==> is_digit_char(#[trigger] s@[j]),
            v == digits_value(d.take(i - start)),
        decreases s.len() - i,
    {
        let c = s[i];
        if !('0' <= c && c <= '9') {
            proof {
                assert(d[i - start] == c);
                assert(!is_digit_char(d[i - start]));
                assert(!(forall|j: int| 0 <= j < d.len() ==> is_digit_char(#[trigger] d[j])));
            }
            return None;
        }
        let digit = (c as u32 - 48) as usize;
        let ghost t = d.take(i - start + 1);
        proof {
            assert(t.drop_last() =~= d.take(i - start));
            assert(t.last() == c);
        }
        if v > (usize::MAX - digit) / 10 {
            proof {
                assert('0' as int == 48);
                assert(digits_value(t) == v * 10 + digit);
                assert(v * 10 + digit > usize::MAX) by (nonlinear_arith)
                    requires
                        v > (usize::MAX - digit) / 10,
                        digit <= 9,
                ;
                lemma_digits_prefix(d, i - start + 1);
            }
            return None;
        }
        proof {
            assert(v * 10 + digit <= usize::MAX) by (nonlinear_arith)
                requires
                    v <= (usize::MAX - digit) / 10,
                    digit <= 9,
            ;
        }
        v = v * 10 + digit;
        i = i + 1;
    }
    proof {
        assert(d.take(s.len() - start) =~= d);
        assert forall|j: int| 0 <= j < d.len() implies is_digit_char(#[trigger] d[j]) by {
            assert(d[j] == s@[j + start]);
        }
    }
    Some(v)
}

fn malformed() -> (e: SnapshotError)
    ensures
        e.0@ == malformed_message(),
{
    SnapshotError("invalid rc1 symbol reference; copy the complete reference from JSON".to_owned())
}

impl SourceReference {
    /// Reads the text form of a reference.
    pub fn parse(text: &str) -> (r: Result<SourceReference, SnapshotError>)
        ensures
            match parse_reference(text@) {
                Ok(v) => r matches Ok(x) && x@ == v,
                Err(m) => r matches Err(e) && e.0@ == m,
            },
    {
        let chars = crate::order::text_chars(text);
        let parts = split_chars(&chars, ':');
        let ghost pv = parts@.map_values(|v: Vec<char>| v@);
        proof {
            reveal_strlit("rc1");
            assert(pv.len() == parts.len());
        }
        if parts.len() != 6 {
            return Err(malformed());
        }
        proof {
            assert forall|i: int| 0 <= i < 6 implies pv[i] == parts@[i]@ by {}
        }
        let first_ok = parts[0].len() == 3 && parts[0][0] == 'r' && parts[0][1] == 'c' && parts[0][2] == '1';
        proof {
            if first_ok {
                assert(parts@[0]@ =~= "rc1"@);
            }
            if parts@[0]@ == "rc1"@ {
                assert(parts@[0]@.len() == 3);
            }
        }
        if !first_ok || !valid_oid_exec(&parts[1]) || !valid_oid_exec(&parts[2]) || !all_hex_exec(&parts[5])
            || parts[5].len() % 2 != 0 {
            return Err(malformed());
        }
        let bytes = hex_bytes_exec(&parts[5]);
        let path = match decode_utf8_text(bytes.as_slice()) {
            Some(p) => p,
            None => {
                return Err(SnapshotError("Git paths must be UTF-8".to_owned()));
            },
        };
        let path_chars = crate::order::text_chars(path.as_str());
        if !normal_path_exec(&path_chars) {
            return Err(SnapshotError("reference path must be repository-relative".to_owned()));
        }
        let start = parse_usize_exec(&parts[3]);
        let end = parse_usize_exec(&parts[4]);
        let (start, end) = match (start, end) {
            (Some(a), Some(b)) => (a, b),
            _ => {
                return Err(SnapshotError("invalid reference offset".to_owned()));
            },
        };
        if start > end {
            return Err(SnapshotError("reference range is reversed".to_owned()));
        }
        let commit = crate::text::string_from_chars(&parts[1]);
        let object = crate::text::string_from_chars(&parts[2]);
        Ok(SourceReference { commit, object, path, start, end })
    }
}

} // verus!

verus! {

/// The words of `s`: its maximal runs of characters that are not white space.
pub open spec fn words(s: Seq<char>) -> Seq<Seq<char>>
    decreases s.len(),
{
    if s.len() == 0 {
        Seq::empty()
    } else {
        let w = words(s.drop_last());
        let c = s.last();
        if crate::documentation::white_space(c) {
            w
        } else if s.len() >= 2 && !crate::documentation::white_space(s[s.len() - 2]) {
            w.update(w.len() - 1, w.last().push(c))
        } else {
            w.push(seq![c])
        }
    }
}

/// The index of the first `c` in `t` at or after `i`.
pub open spec fn index_of_from(t: Seq<char>, c: char, i: int) -> Option<int>
    decreases t.len() - i,
{
    if i < 0 || i >= t.len() {
        None
    } else if t[i] == c {
        Some(i)
    } else {
        index_of_from(t, c, i + 1)
    }
}

/// What one entry of `git ls-tree -z` says: its mode, object and path, or
/// why it cannot be read.
pub open spec fn tree_entry_of(b: Seq<u8>) -> Result<(Seq<char>, Seq<char>, Seq<char>), Seq<char>> {
    if !valid_utf8(b) {
        Err("Git paths must be UTF-8"@)
    } else {
        let t = decode_utf8(b);
        match index_of_from(t, '\t', 0) {
            None => Err("invalid Git tree entry"@),
            Some(k) => {
                let w = words(t.take(k));
                if w.len() < 3 {
                    Err("invalid Git tree object"@)
                } else {
                    Ok((w[0], w[2], t.skip(k + 1)))
                }
            },
        }
    }
}

fn split_words(s: &Vec<char>, lo: usize, hi: usize) -> (r: Vec<Vec<char>>)
    requires
        lo <= hi <= s.len(),
    ensures
        r@.map_values(|v: Vec<char>| v@) == words(s@.subrange(lo as int, hi as int)),
{
    let ghost t = s@.subrange(lo as int, hi as int);
    let mut r: Vec<Vec<char>> = Vec::new();
    let mut i: usize = lo;
    proof {
        assert(t.take(0) =~= Seq::<char>::empty());
        assert(r@.map_values(|v: Vec<char>| v@) =~= Seq::<Seq<char>>::empty());
    }
    while i < hi
        invariant
            lo <= i <= hi <= s.len(),
            t == s@.subrange(lo as int, hi as int),
            r@.map_values(|v: Vec<char>| v@) == words(t.take(i - lo)),
            i > lo && !crate::documentation::white_space(s@[i - 1]) ==> r.len() >= 1,
        decreases hi - i,
    {
        let c = s[i];
        let ghost p = t.take(i - lo + 1);
        let ghost before = r@.map_values(|v: Vec<char>| v@);
        proof {
            assert(p.drop_last() =~= t.take(i - lo));
            assert(p.last() == c);
            if p.len() >= 2 {
                assert(p[p.len() - 2] == s@[i - 1]);
            }
        }
        if crate::documentation::is_white_space(c) {
        } else if i > lo && !crate::documentation::is_white_space(s[i - 1]) {
            let mut last = r.pop().unwrap();
            last.push(c);
            r.push(last);
            proof {
                assert(r@.map_values(|v: Vec<char>| v@) =~= before.update(before.len() - 1, before.last().push(c)));
            }
        } else {
            let mut w: Vec<char> = Vec::new();
            w.push(c);
            r.push(w);
            proof {
                assert(w@ =~= seq![c]);
                assert(r@.map_values(|v: Vec<char>| v@) =~= before.push(seq![c]));
            }
        }
        i = i + 1;
    }
    proof {
        assert(t.take(hi - lo) =~= t);
    }
    r
}

fn chars_between(s: &Vec<char>, lo: usize, hi: usize) -> (r: String)
    requires
        lo <= hi <= s.len(),
    ensures
        r@ == s@.subrange(lo as int, hi as int),
{
    let mut out = String::new();
    let mut i: usize = lo;
    while i < hi
        invariant
            lo <= i <= hi <= s.len(),
            out@ == s@.subrange(lo as int, i as int),
        decreases hi - i,
    {
        push_char(&mut out, s[i]);
        i = i + 1;
        assert(out@ =~= s@.subrange(lo as int, i as int));
    }
    out
}

/// Reads one entry of `git ls-tree -z`: the mode, the object and the path.
pub fn tree_entry(entry: &[u8]) -> (r: Result<(String, String, String), SnapshotError>)
    ensures
        match tree_entry_of(entry@) {
            Ok((m, o, p)) => r matches Ok((rm, ro, rp)) && rm@ == m && ro@ == o && rp@ == p,
            Err(e) => r matches Err(x) && x.0@ == e,
        },
{
    let text = match decode_utf8_text(entry) {
        Some(t) => t,
        None => {
            return Err(SnapshotError("Git paths must be UTF-8".to_owned()));
        },
    };
    let chars = crate::order::text_chars(text.as_str());
    let mut k: usize = 0;
    while k < chars.len() && chars[k] != '\t'
        invariant
            k <= chars.len(),
            index_of_from(chars@, '\t', 0) == index_of_from(chars@, '\t', k as int),
        decreases chars.len() - k,
    {
        k = k + 1;
    }
    if k == chars.len() {
        return Err(SnapshotError("invalid Git tree entry".to_owned()));
    }
    let w = split_words(&chars, 0, k);
    proof {
        assert(chars@.subrange(0, k as int) =~= chars@.take(k as int));
        assert(w@.map_values(|v: Vec<char>| v@).len() == w.len());
    }
    if w.len() < 3 {
        return Err(SnapshotError("invalid Git tree object".to_owned()));
    }
    proof {
        assert(w@.map_values(|v: Vec<char>| v@)[0] == w@[0]@);
        assert(w@.map_values(|v: Vec<char>| v@)[2] == w@[2]@);
        assert(chars@.subrange(k + 1, chars.len() as int) =~= chars@.skip(k + 1));
    }
    let mode = crate::text::string_from_chars(&w[0]);
    let object = crate::text::string_from_chars(&w[2]);
    let path = chars_between(&chars, k + 1, chars.len());
    Ok((mode, object, path))
}

} // verus!

verus! {

/// The pieces of `b` between zero bytes, empty pieces included.
pub open spec fn split_nul(b: Seq<u8>) -> Seq<Seq<u8>>
    decreases b.len(),
{
    if b.len() == 0 {
        seq![Seq::empty()]
    } else {
        let prev = split_nul(b.drop_last());
        if b.last() == 0 {
            prev.push(Seq::empty())
        } else {
            prev.update(prev.len() - 1, prev.last().push(b.last()))
        }
    }
}

/// The non-empty fields of zero-separated output.
pub open spec fn nul_fields(b: Seq<u8>) -> Seq<Seq<u8>> {
    split_nul(b).filter(|f: Seq<u8>| f.len() > 0)
}

pub open spec fn starts_with_byte(f: Seq<u8>, x: u8) -> bool {
    f.len() > 0 && f[0] == x
}

/// The renames that the fields of `git diff --name-status -z -M` list: a
/// status, then one path, or two for a rename (`R`) or copy (`C`); each
/// rename gives its old and new path.
pub open spec fn renames_of(fs: Seq<Seq<u8>>) -> Result<Seq<(Seq<char>, Seq<char>)>, Seq<char>>
    decreases fs.len(),
{
    if fs.len() == 0 {
        Ok(Seq::empty())
    } else if fs.len() < 2 {
        Err("invalid Git diff path"@)
    } else if starts_with_byte(fs[0], 82) || starts_with_byte(fs[0], 67) {
        if fs.len() < 3 {
            Err("invalid Git rename"@)
        } else if starts_with_byte(fs[0], 82) {
            if !valid_utf8(fs[1]) || !valid_utf8(fs[2]) {
                Err("Git paths must be UTF-8"@)
            } else {
                match renames_of(fs.skip(3)) {
                    Ok(rest) => Ok(seq![(decode_utf8(fs[1]), decode_utf8(fs[2]))] + rest),
                    Err(e) => Err(e),
                }
            }
        } else {
            renames_of(fs.skip(3))
        }
    } else {
        renames_of(fs.skip(2))
    }
}

proof fn lemma_split_nul_nonempty(b: Seq<u8>)
    ensures
        split_nul(b).len() >= 1,
    decreases b.len(),
{
    if b.len() > 0 {
        lemma_split_nul_nonempty(b.drop_last());
    }
}

fn nul_fields_of(b: &[u8]) -> (r: Vec<Vec<u8>>)
    ensures
        r@.map_values(|v: Vec<u8>| v@) == nul_fields(b@),
{
    let ghost nonempty = |f: Seq<u8>| f.len() > 0;
    let mut out: Vec<Vec<u8>> = Vec::new();
    let mut cur: Vec<u8> = Vec::new();
    let mut i: usize = 0;
    proof {
        assert(b@.take(0) =~= Seq::<u8>::empty());
        assert(split_nul(b@.take(0)).drop_last() =~= Seq::<Seq<u8>>::empty());
        assert(out@.map_values(|v: Vec<u8>| v@) =~= Seq::<Seq<u8>>::empty().filter(nonempty));
    }
    while i < b.len()
        invariant
            i <= b.len(),
            nonempty == (|f: Seq<u8>| f.len() > 0),
            split_nul(b@.take(i as int)).len() >= 1,
            out@.map_values(|v: Vec<u8>| v@) == split_nul(b@.take(i as int)).drop_last().filter(nonempty),
            cur@ == split_nul(b@.take(i as int)).last(),
        decreases b.len() - i,
    {
        let x = b[i];
        let ghost p = split_nul(b@.take(i as int));
        let ghost before = out@.map_values(|v: Vec<u8>| v@);
        proof {
            assert(b@.take(i + 1).drop_last() =~= b@.take(i as int));
            assert(b@.take(i + 1).last() == x);
            assert(p.drop_last().push(p.last()) =~= p);
            crate::documentation::lemma_filter_push_pub(p.drop_last(), p.last(), nonempty);
        }
        if x == 0 {
            if cur.len() > 0 {
                let piece = cur;
                out.push(piece);
                proof {
                    assert(out@.map_values(|v: Vec<u8>| v@) =~= before.push(piece@));
                }
            }
            cur = Vec::new();
            proof {
                assert(split_nul(b@.take(i + 1)).drop_last() =~= p);
                assert(cur@ =~= Seq::<u8>::empty());
            }
        } else {
            cur.push(x);
            proof {
                assert(split_nul(b@.take(i + 1)).drop_last() =~= p.drop_last());
            }
        }
        i = i + 1;
    }
    proof {
        let p = split_nul(b@.take(i as int));
        assert(b@.take(i as int) =~= b@);
        assert(p.drop_last().push(p.last()) =~= p);
        crate::documentation::lemma_filter_push_pub(p.drop_last(), p.last(), nonempty);
    }
    let ghost before = out@.map_values(|v: Vec<u8>| v@);
    if cur.len() > 0 {
        let piece = cur;
        out.push(piece);
        proof {
            assert(out@.map_values(|v: Vec<u8>| v@) =~= before.push(piece@));
        }
    }
    out
}

/// The renames that `git diff --name-status -z -M` output lists, as pairs
/// of the old and the new path, in order.
pub fn parse_renames(bytes: &[u8]) -> (r: Result<Vec<(String, String)>, SnapshotError>)
    ensures
        match renames_of(nul_fields(bytes@)) {
            Ok(v) => r matches Ok(x) && x@.map_values(|p: (String, String)| (p.0@, p.1@)) == v,
            Err(e) => r matches Err(x) && x.0@ == e,
        },
{
    let fs = nul_fields_of(bytes);
    let ghost fv = fs@.map_values(|v: Vec<u8>| v@);
    let mut out: Vec<(String, String)> = Vec::new();
    let mut i: usize = 0;
    proof {
        assert(fv.skip(0) =~= fv);
        assert(out@.map_values(|p: (String, String)| (p.0@, p.1@)) =~= Seq::<(Seq<char>, Seq<char>)>::empty());
        match renames_of(fv) {
            Ok(rest) => assert(Seq::<(Seq<char>, Seq<char>)>::empty() + rest =~= rest),
            Err(_) => {},
        }
    }
    while i < fs.len()
        invariant
            i <= fs.len(),
            fv == fs@.map_values(|v: Vec<u8>| v@),
            fv == nul_fields(bytes@),
            renames_of(fv) == match renames_of(fv.skip(i as int)) {
                Ok(rest) => Ok(out@.map_values(|p: (String, String)| (p.0@, p.1@)) + rest),
                Err(e) => Err::<Seq<(Seq<char>, Seq<char>)>, Seq<char>>(e),
            },
        decreases fs.len() - i,
    {
        let ghost t = fv.skip(i as int);
        let ghost ov = out@.map_values(|p: (String, String)| (p.0@, p.1@));
        proof {
            assert(t[0] == fs@[i as int]@);
        }
        if i + 1 >= fs.len() {
            return Err(SnapshotError("invalid Git diff path".to_owned()));
        }
        let status = &fs[i];
        let is_rename = status.len() > 0 && status[0] == 82;
        let is_copy = status.len() > 0 && status[0] == 67;
        proof {
            assert(t[1] == fs@[i + 1]@);
        }
        if is_rename || is_copy {
            if i + 2 >= fs.len() {
                return Err(SnapshotError("invalid Git rename".to_owned()));
            }
            proof {
                assert(t[2] == fs@[i + 2]@);
                assert(t.skip(3) =~= fv.skip(i + 3));
            }
            if is_rename {
                let old_path = match decode_utf8_text(fs[i + 1].as_slice()) {
                    Some(p) => p,
                    None => {
                        return Err(SnapshotError("Git paths must be UTF-8".to_owned()));
                    },
                };
                let new_path = match decode_utf8_text(fs[i + 2].as_slice()) {
                    Some(p) => p,
                    None => {
                        return Err(SnapshotError("Git paths must be UTF-8".to_owned()));
                    },
                };
                let ghost pair = (old_path@, new_path@);
                out.push((old_path, new_path));
                proof {
                    assert(out@.map_values(|p: (String, String)| (p.0@, p.1@)) =~= ov.push(pair));
                    match renames_of(fv.skip(i + 3)) {
                        Ok(rest) => {
                            assert(ov + (seq![pair] + rest) =~= ov.push(pair) + rest);
                        },
                        Err(_) => {},
                    }
                }
            }
            i = i + 3;
        } else {
            proof {
                assert(t.skip(2) =~= fv.skip(i + 2));
            }
            i = i + 2;
        }
    }
    proof {
        assert(fv.skip(i as int) =~= Seq::<Seq<u8>>::empty());
        assert(out@.map_values(|p: (String, String)| (p.0@, p.1@)) + Seq::<(Seq<char>, Seq<char>)>::empty()
            =~= out@.map_values(|p: (String, String)| (p.0@, p.1@)));
    }
    Ok(out)
}

} // verus!

verus! {

/// Whether a tree entry mode is that of a regular file.
pub open spec fn regular_mode(mode: Seq<char>) -> bool {
    mode == "100644"@ || mode == "100755"@
}

/// Why a snapshot leaves a tracked entry out without reading it: it is not a
/// regular file, or not a C++ file.
pub open spec fn entry_exclusion(mode: Seq<char>, path: Seq<char>) -> Option<Seq<char>> {
    if !regular_mode(mode) {
        Some("non-regular-file"@)
    } else if crate::inventory::path_language(path) != Some("cpp"@) {
        Some("unsupported-file"@)
    } else {
        None
    }
}

fn is_regular_mode(mode: &str) -> (r: bool)
    ensures
        r == regular_mode(mode@),
{
    crate::text::text_eq(mode, "100644") || crate::text::text_eq(mode, "100755")
}

/// Why a snapshot leaves out a tracked entry with this mode and path before
/// reading its blob, if it does.
pub fn snapshot_exclusion(mode: &str, path: &str) -> (r: Option<&'static str>)
    ensures
        match entry_exclusion(mode@, path@) {
            Some(reason) => r matches Some(x) && x@ == reason,
            None => r is None,
        },
{
    if !is_regular_mode(mode) {
        return Some("non-regular-file");
    }
    let cpp = match crate::inventory::detect_language(path) {
        Some(language) => crate::text::text_eq(language.as_str(), "cpp"),
        None => false,
    };
    if cpp {
        None
    } else {
        Some("unsupported-file")
    }
}

/// The running byte total of a snapshot after one more blob, within the
/// limit.
pub fn add_snapshot_bytes(total: usize, size: usize, max_bytes: usize) -> (r: Result<usize, SnapshotError>)
    ensures
        total + size > usize::MAX ==> (r matches Err(e) && e.0@ == "snapshot size overflow"@),
        total + size <= usize::MAX && total + size > max_bytes ==> (r matches Err(e) && e.0@
            == "snapshot exceeds --max-input-bytes "@ + decimal(max_bytes as nat) + "; increase the limit explicitly"@),
        total + size <= max_bytes ==> r == Ok::<usize, SnapshotError>((total + size) as usize),
{
    let sum = match total.checked_add(size) {
        Some(s) => s,
        None => {
            return Err(SnapshotError("snapshot size overflow".to_owned()));
        },
    };
    if sum > max_bytes {
        let mut message = String::new();
        push_text(&mut message, "snapshot exceeds --max-input-bytes ");
        push_decimal(&mut message, max_bytes as u64);
        push_text(&mut message, "; increase the limit explicitly");
        return Err(SnapshotError(message));
    }
    Ok(sum)
}

/// The source of a blob that a snapshot keeps: text that is UTF-8 and holds
/// no zero character.
pub fn snapshot_source(bytes: &[u8]) -> (r: Option<String>)
    ensures
        match r {
            Some(s) => valid_utf8(bytes@) && s@ == decode_utf8(bytes@) && !decode_utf8(bytes@).contains('\0'),
            None => !valid_utf8(bytes@) || decode_utf8(bytes@).contains('\0'),
        },
{
    let text = match decode_utf8_text(bytes) {
        Some(t) => t,
        None => {
            return None;
        },
    };
    let chars = crate::order::text_chars(text.as_str());
    let mut i: usize = 0;
    while i < chars.len()
        invariant
            i <= chars.len(),
            chars@ == decode_utf8(bytes@),
            valid_utf8(bytes@),
            forall|j: int| 0 <= j < i ==> chars@[j] != '\0',
        decreases chars.len() - i,
    {
        if chars[i] == '\0' {
            proof {
                assert(chars@.contains('\0'));
            }
            return None;
        }
        i = i + 1;
    }
    proof {
        assert(!chars@.contains('\0'));
    }
    Some(text)
}

/// Checks that the blob a reference names is what the snapshot holds at its
/// path: a regular file with the same path and object.
pub fn check_reference_blob(r: &SourceReference, mode: &str, object: &str, path: &str) -> (res: Result<(), SnapshotError>)
    ensures
        res is Ok <==> (regular_mode(mode@) && path@ == r.path@ && object@ == r.object@),
        res matches Err(e) ==> e.0@ == "reference does not match the snapshot blob"@,
{
    if !is_regular_mode(mode) || !crate::text::text_eq(path, r.path.as_str()) || !crate::text::text_eq(
        object,
        r.object.as_str(),
    ) {
        return Err(SnapshotError("reference does not match the snapshot blob".to_owned()));
    }
    Ok(())
}

/// Checks the size of a referenced blob against the limit.
pub fn check_blob_size(size: usize, max_bytes: usize) -> (res: Result<(), SnapshotError>)
    ensures
        res is Ok <==> size <= max_bytes,
        res matches Err(e) ==> e.0@ == "source blob exceeds --max-input-bytes "@ + decimal(max_bytes as nat),
{
    if size > max_bytes {
        let mut message = String::new();
        push_text(&mut message, "source blob exceeds --max-input-bytes ");
        push_decimal(&mut message, max_bytes as u64);
        return Err(SnapshotError(message));
    }
    Ok(())
}

/// Checks that a reference's byte range is a slice of the source: in order,
/// within it and on character boundaries.
pub fn check_byte_range(source: &str, start: usize, end: usize) -> (res: Result<(), SnapshotError>)
    ensures
        res is Ok <==> (start <= end && vstd::utf8::is_char_boundary(encode_utf8(source@), start as int)
            && vstd::utf8::is_char_boundary(encode_utf8(source@), end as int)),
        res matches Err(e) ==> e.0@ == "invalid reference byte range"@,
{
    if start > end || !source.is_char_boundary(start) || !source.is_char_boundary(end) {
        return Err(SnapshotError("invalid reference byte range".to_owned()));
    }
    Ok(())
}

} // verus!

verus! {

/// Whether text is a full Git object ID: 40 or 64 hexadecimal digits.
pub fn valid_object_id(s: &str) -> (r: bool)
    ensures
        r == valid_oid(s@),
{
    let chars = crate::order::text_chars(s);
    valid_oid_exec(&chars)
}

/// Refuses a revision that Git would read as an option.
pub fn check_revision(revision: &str) -> (r: Result<(), SnapshotError>)
    ensures
        r is Err <==> (revision@.len() > 0 && revision@[0] == '-'),
        r matches Err(e) ==> e.0@ == "revision must not start with '-'"@,
{
    let dash = crate::text::text_starts_with(revision, "-");
    proof {
        reveal_strlit("-");
        if revision@.len() > 0 && revision@[0] == '-' {
            assert(revision@.subrange(0, 1) =~= "-"@);
        }
        if dash {
            assert(revision@.subrange(0, 1)[0] == revision@[0]);
        }
    }
    if dash {
        return Err(SnapshotError("revision must not start with '-'".to_owned()));
    }
    Ok(())
}

} // verus!
