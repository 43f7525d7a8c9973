//! Identifiers, file categories and the repository inventory model.

use vstd::prelude::*;

use crate::lines::RepositoryLineCounts;
use crate::order::{text_chars, KeyAtom, AtomView};
use crate::text::{copy_string, text_eq};

verus! {

#[derive(Debug, Clone, Copy, PartialEq, Eq, Structural, PartialOrd, Ord, Hash)]
pub enum FileCategory {
    Source,
    Documentation,
    Configuration,
    Data,
    Assets,
    Uncategorized,
}

pub open spec fn file_category_name(c: FileCategory) -> Seq<char> {
    match c {
        FileCategory::Source => "source"@,
        FileCategory::Documentation => "documentation"@,
        FileCategory::Configuration => "configuration"@,
        FileCategory::Data => "data"@,
        FileCategory::Assets => "assets"@,
        FileCategory::Uncategorized => "uncategorized"@,
    }
}

/// Position of a category in the fixed category order.
pub open spec fn file_category_index(c: FileCategory) -> int {
    match c {
        FileCategory::Source => 0,
        FileCategory::Documentation => 1,
        FileCategory::Configuration => 2,
        FileCategory::Data => 3,
        FileCategory::Assets => 4,
        FileCategory::Uncategorized => 5,
    }
}

impl FileCategory {
    pub fn as_str(self) -> (r: &'static str)
        ensures
            r@ == file_category_name(self),
    {
        match self {
            FileCategory::Source => "source",
            FileCategory::Documentation => "documentation",
            FileCategory::Configuration => "configuration",
            FileCategory::Data => "data",
            FileCategory::Assets => "assets",
            FileCategory::Uncategorized => "uncategorized",
        }
    }

    /// The category with the given name, if there is one.
    pub fn from_name(value: &str) -> (r: Option<FileCategory>)
        ensures
            match r {
                Some(c) => file_category_name(c) == value@,
                None => forall|c: FileCategory| file_category_name(c) != value@,
            },
    {
        if text_eq(value, "source") {
            Some(FileCategory::Source)
        } else if text_eq(value, "documentation") {
            Some(FileCategory::Documentation)
        } else if text_eq(value, "configuration") {
            Some(FileCategory::Configuration)
        } else if text_eq(value, "data") {
            Some(FileCategory::Data)
        } else if text_eq(value, "assets") {
            Some(FileCategory::Assets)
        } else if text_eq(value, "uncategorized") {
            Some(FileCategory::Uncategorized)
        } else {
            None
        }
    }

    /// Position in the fixed category order.
    pub fn index(self) -> (r: usize)
        ensures
            r as int == file_category_index(self),
            r < 6,
    {
        match self {
            FileCategory::Source => 0,
            FileCategory::Documentation => 1,
            FileCategory::Configuration => 2,
            FileCategory::Data => 3,
            FileCategory::Assets => 4,
            FileCategory::Uncategorized => 5,
        }
    }
}

/// A language name such as `python`.
#[derive(Debug)]
pub struct LanguageId {
    value: String,
}

impl View for LanguageId {
    type V = Seq<char>;

    closed spec fn view(&self) -> Seq<char> {
        self.value@
    }
}

impl LanguageId {
    pub fn new(value: &str) -> (r: LanguageId)
        ensures
            r@ == value@,
    {
        LanguageId { value: value.to_owned() }
    }

    pub fn as_str(&self) -> (r: &str)
        ensures
            r@ == self@,
    {
        self.value.as_str()
    }

    pub fn copy(&self) -> (r: LanguageId)
        ensures
            r@ == self@,
    {
        LanguageId { value: copy_string(&self.value) }
    }

    pub fn same(&self, other: &LanguageId) -> (r: bool)
        ensures
            r == (self@ == other@),
    {
        text_eq(self.value.as_str(), other.value.as_str())
    }

    pub fn push_key(&self, out: &mut Vec<KeyAtom>)
        ensures
            final(out)@.map_values(|a: KeyAtom| a@) == old(out)@.map_values(|a: KeyAtom| a@).push(
                AtomView::Text(self@),
            ),
    {
        let chars = text_chars(self.value.as_str());
        let ghost before = out@;
        out.push(KeyAtom::Text(chars));
        assert(out@.map_values(|a: KeyAtom| a@) =~= before.map_values(|a: KeyAtom| a@).push(
            AtomView::Text(self@),
        ));
    }
}

/// A normalized file extension such as `md`, or `[none]`.
#[derive(Debug)]
pub struct ExtensionId {
    value: String,
}

impl View for ExtensionId {
    type V = Seq<char>;

    closed spec fn view(&self) -> Seq<char> {
        self.value@
    }
}

impl ExtensionId {
    pub fn new(value: &str) -> (r: ExtensionId)
        ensures
            r@ == value@,
    {
        ExtensionId { value: value.to_owned() }
    }

    pub fn as_str(&self) -> (r: &str)
        ensures
            r@ == self@,
    {
        self.value.as_str()
    }
}

#[derive(Debug)]
pub struct InventoryDiagnostic {
    pub code: String,
    pub message: String,
}

/// Paths that ignore rules kept out of the inventory.
#[derive(Debug)]
pub struct IgnoredInventory {
    pub files: Vec<String>,
    pub directories: Vec<String>,
    pub builtin_directories: Vec<String>,
    pub exact: bool,
}

impl IgnoredInventory {
    pub fn file_count(&self) -> (r: usize)
        ensures
            r == self.files.len(),
    {
        self.files.len()
    }

    pub fn directory_count(&self) -> (r: usize)
        ensures
            r == self.directories.len(),
    {
        self.directories.len()
    }

    pub fn builtin_directory_count(&self) -> (r: usize)
        ensures
            r == self.builtin_directories.len(),
    {
        self.builtin_directories.len()
    }
}

/// The repository inventory. `files_by_category` holds one list per
/// category, in the fixed category order.
#[derive(Debug)]
pub struct RepositoryInventory {
    pub inventoried_files: usize,
    pub files_by_category: Vec<Vec<String>>,
    pub files_by_language: Vec<(LanguageId, usize)>,
    pub uncategorized_files_by_extension: Vec<(ExtensionId, usize)>,
    pub line_counts: RepositoryLineCounts,
    pub ignored: IgnoredInventory,
    pub num_included_ignored_files: usize,
    pub diagnostics: Vec<InventoryDiagnostic>,
}

impl RepositoryInventory {
    pub open spec fn well_formed(&self) -> bool {
        self.files_by_category.len() == 6
    }

    /// An empty inventory with every category present.
    pub fn empty() -> (r: RepositoryInventory)
        ensures
            r.well_formed(),
            r.inventoried_files == 0,
            forall|i: int| 0 <= i < 6 ==> r.files_by_category[i].len() == 0,
            r.files_by_language.len() == 0,
            r.uncategorized_files_by_extension.len() == 0,
    {
        let mut files_by_category: Vec<Vec<String>> = Vec::new();
        let mut i: usize = 0;
        while i < 6
            invariant
                i <= 6,
                files_by_category.len() == i,
                forall|j: int| 0 <= j < i ==> files_by_category[j].len() == 0,
            decreases 6 - i,
        {
            files_by_category.push(Vec::new());
            i = i + 1;
        }
        RepositoryInventory {
            inventoried_files: 0,
            files_by_category,
            files_by_language: Vec::new(),
            uncategorized_files_by_extension: Vec::new(),
            line_counts: RepositoryLineCounts::empty(),
            ignored: IgnoredInventory {
                files: Vec::new(),
                directories: Vec::new(),
                builtin_directories: Vec::new(),
                exact: false,
            },
            num_included_ignored_files: 0,
            diagnostics: Vec::new(),
        }
    }

    pub fn category_files(&self, category: FileCategory) -> (r: &[String])
        requires
            self.well_formed(),
        ensures
            r@ == self.files_by_category[file_category_index(category)]@,
    {
        self.files_by_category[category.index()].as_slice()
    }

    pub fn category_count(&self, category: FileCategory) -> (r: usize)
        requires
            self.well_formed(),
        ensures
            r == self.files_by_category[file_category_index(category)].len(),
    {
        self.category_files(category).len()
    }

    pub fn source_files(&self) -> (r: usize)
        requires
            self.well_formed(),
        ensures
            r == self.files_by_category[0].len(),
    {
        self.category_count(FileCategory::Source)
    }

    pub fn uncategorized_files(&self) -> (r: usize)
        requires
            self.well_formed(),
        ensures
            r == self.files_by_category[5].len(),
    {
        self.category_count(FileCategory::Uncategorized)
    }

    /// Appends a path to its category's list.
    pub fn record_category_path(&mut self, category: FileCategory, path: String)
        requires
            old(self).well_formed(),
        ensures
            final(self).well_formed(),
            final(self).files_by_category[file_category_index(category)]@ == old(
                self,
            ).files_by_category[file_category_index(category)]@.push(path),
            forall|i: int|
                0 <= i < 6 && i != file_category_index(category) ==> final(self).files_by_category[i]
                    == old(self).files_by_category[i],
            final(self).inventoried_files == old(self).inventoried_files,
            final(self).files_by_language@ == old(self).files_by_language@,
            final(self).uncategorized_files_by_extension@ == old(
                self,
            ).uncategorized_files_by_extension@,
    {
        let index = category.index();
        let mut list: Vec<String> = Vec::new();
        std::mem::swap(&mut list, &mut self.files_by_category[index]);
        list.push(path);
        self.files_by_category.set(index, list);
    }
}

} // verus!

verus! {

/// An uppercase hexadecimal digit.
pub open spec fn upper_hex_digit(d: int) -> char {
    if d < 10 {
        ('0' as int + d) as char
    } else {
        ('A' as int + d - 10) as char
    }
}

/// A byte written as `%` and two uppercase hexadecimal digits.
pub open spec fn percent_escape(b: u8) -> Seq<char> {
    seq!['%', upper_hex_digit(b as int / 16), upper_hex_digit(b as int % 16)]
}

/// How a decoded character of a path is written: `%` and `\` escaped, any
/// other character as it is.
pub open spec fn path_char_text(c: char) -> Seq<char> {
    if c == '%' || c == '\\' {
        percent_escape(c as u8)
    } else {
        seq![c]
    }
}

/// The text of a run of characters of a path.
pub open spec fn path_chars_text(s: Seq<char>) -> Seq<char>
    decreases s.len(),
{
    if s.len() == 0 {
        Seq::empty()
    } else {
        path_chars_text(s.drop_last()) + path_char_text(s.last())
    }
}

/// The lossless text of a path's bytes: each well-formed UTF-8 character
/// as itself (with `%` and `\` escaped), each other byte as `%XX`.
pub open spec fn path_text(b: Seq<u8>) -> Seq<char>
    decreases b.len(),
{
    if b.len() == 0 {
        Seq::empty()
    } else if vstd::utf8::valid_first_scalar(b) {
        path_char_text(vstd::utf8::decode_first_scalar(b) as char) + path_text(
            b.subrange(vstd::utf8::length_of_first_scalar(b), b.len() as int),
        )
    } else {
        percent_escape(b[0]) + path_text(b.drop_first())
    }
}

/// The value of an uppercase hexadecimal digit.
pub open spec fn upper_hex_value(c: char) -> int {
    if '0' <= c && c <= '9' {
        c as int - '0' as int
    } else {
        c as int - 'A' as int + 10
    }
}

pub open spec fn is_upper_hex(c: char) -> bool {
    ('0' <= c && c <= '9') || ('A' <= c && c <= 'F')
}

/// The bytes that a path's text stands for: `%XX` for byte `XX`, any
/// other character for its UTF-8 encoding.
pub open spec fn path_bytes(t: Seq<char>) -> Seq<u8>
    decreases t.len(),
{
    if t.len() == 0 {
        Seq::empty()
    } else if t[0] == '%' && t.len() >= 3 && is_upper_hex(t[1]) && is_upper_hex(t[2]) {
        seq![(upper_hex_value(t[1]) * 16 + upper_hex_value(t[2])) as u8] + path_bytes(t.subrange(3, t.len() as int))
    } else {
        vstd::utf8::encode_utf8(seq![t[0]]) + path_bytes(t.drop_first())
    }
}

} // verus!

verus! {

proof fn lemma_upper_hex(d: int)
    requires
        0 <= d < 16,
    ensures
        is_upper_hex(upper_hex_digit(d)),
        upper_hex_value(upper_hex_digit(d)) == d,
        upper_hex_digit(d) != '%',
{
}

proof fn lemma_percent_bytes(x: u8, t: Seq<char>)
    ensures
        path_bytes(percent_escape(x) + t) == seq![x] + path_bytes(t),
{
    let s = percent_escape(x) + t;
    lemma_upper_hex(x as int / 16);
    lemma_upper_hex(x as int % 16);
    assert(s[0] == '%');
    assert(s[1] == upper_hex_digit(x as int / 16));
    assert(s[2] == upper_hex_digit(x as int % 16));
    assert(s.subrange(3, s.len() as int) =~= t);
    assert((x as int / 16) * 16 + x as int % 16 == x);
}

/// The first character of `x` is also the first character of any sequence
/// that starts with the same bytes.
proof fn lemma_first_scalar_prefix(x: Seq<u8>, y: Seq<u8>)
    requires
        vstd::utf8::valid_first_scalar(x),
        y.len() >= vstd::utf8::length_of_first_scalar(x),
        forall|k: int| 0 <= k < vstd::utf8::length_of_first_scalar(x) ==> y[k] == x[k],
    ensures
        vstd::utf8::valid_first_scalar(y),
        vstd::utf8::length_of_first_scalar(y) == vstd::utf8::length_of_first_scalar(x),
        vstd::utf8::decode_first_scalar(y) == vstd::utf8::decode_first_scalar(x),
        1 <= vstd::utf8::length_of_first_scalar(x) <= x.len(),
{
    assert(y[0] == x[0]);
    if vstd::utf8::length_of_first_scalar(x) >= 2 {
        assert(y[1] == x[1]);
    }
    if vstd::utf8::length_of_first_scalar(x) >= 3 {
        assert(y[2] == x[2]);
    }
    if vstd::utf8::length_of_first_scalar(x) >= 4 {
        assert(y[3] == x[3]);
    }
}

/// The first character of `b` alone is well-formed UTF-8.
proof fn lemma_first_scalar_alone(b: Seq<u8>)
    requires
        vstd::utf8::valid_first_scalar(b),
    ensures
        1 <= vstd::utf8::length_of_first_scalar(b) <= b.len(),
        vstd::utf8::valid_utf8(b.take(vstd::utf8::length_of_first_scalar(b))),
        vstd::utf8::decode_utf8(b.take(vstd::utf8::length_of_first_scalar(b))) == seq![
            vstd::utf8::decode_first_scalar(b) as char,
        ],
        vstd::utf8::encode_utf8(seq![vstd::utf8::decode_first_scalar(b) as char]) == b.take(
            vstd::utf8::length_of_first_scalar(b),
        ),
{
    let l = vstd::utf8::length_of_first_scalar(b);
    lemma_first_scalar_prefix(b, b);
    let w = b.take(l);
    lemma_first_scalar_prefix(b, w);
    assert(vstd::utf8::pop_first_scalar(w) =~= Seq::<u8>::empty());
    reveal_with_fuel(vstd::utf8::valid_utf8, 2);
    reveal_with_fuel(vstd::utf8::decode_utf8, 2);
    assert(vstd::utf8::valid_utf8(w));
    assert(vstd::utf8::decode_utf8(w) =~= seq![vstd::utf8::decode_first_scalar(b) as char]);
    vstd::utf8::decode_utf8_encode_utf8(w);
}

/// A character below 128 is the first character of any sequence that starts
/// with its byte.
proof fn lemma_ascii_first(b: Seq<u8>)
    requires
        b.len() > 0,
        b[0] < 0x80,
    ensures
        vstd::utf8::valid_first_scalar(b),
        vstd::utf8::length_of_first_scalar(b) == 1,
        vstd::utf8::decode_first_scalar(b) == b[0] as u32,
{
    let x = b[0];
    assert(x & 0x7f == x) by (bit_vector)
        requires
            x < 0x80,
    ;
}

proof fn lemma_path_chars_front(c: char, s: Seq<char>)
    ensures
        path_chars_text(seq![c] + s) == path_char_text(c) + path_chars_text(s),
    decreases s.len(),
{
    if s.len() == 0 {
        assert(seq![c] + s =~= seq![c]);
        assert(seq![c].drop_last() =~= Seq::<char>::empty());
        assert(path_chars_text(Seq::<char>::empty()) == Seq::<char>::empty());
        assert(path_chars_text(seq![c]) =~= path_char_text(c));
    } else {
        lemma_path_chars_front(c, s.drop_last());
        assert((seq![c] + s).drop_last() =~= seq![c] + s.drop_last());
        assert((seq![c] + s).last() == s.last());
        assert(path_chars_text(seq![c] + s) =~= path_char_text(c) + path_chars_text(s));
    }
}

/// A well-formed UTF-8 run at the front of the bytes is written character by
/// character.
proof fn lemma_path_text_valid(w: Seq<u8>, rest: Seq<u8>)
    requires
        vstd::utf8::valid_utf8(w),
    ensures
        path_text(w + rest) == path_chars_text(vstd::utf8::decode_utf8(w)) + path_text(rest),
    decreases w.len(),
{
    if w.len() == 0 {
        assert(w + rest =~= rest);
        assert(path_chars_text(vstd::utf8::decode_utf8(w)) =~= Seq::<char>::empty());
        assert(Seq::<char>::empty() + path_text(rest) =~= path_text(rest));
    } else {
        let b = w + rest;
        let l = vstd::utf8::length_of_first_scalar(w);
        let pop = vstd::utf8::pop_first_scalar(w);
        lemma_first_scalar_prefix(w, w);
        lemma_first_scalar_prefix(w, b);
        let c = vstd::utf8::decode_first_scalar(w) as char;
        assert(b.subrange(l, b.len() as int) =~= pop + rest);
        lemma_path_text_valid(pop, rest);
        assert(vstd::utf8::decode_utf8(w) == seq![c] + vstd::utf8::decode_utf8(pop));
        lemma_path_chars_front(c, vstd::utf8::decode_utf8(pop));
        assert(path_text(b) == path_char_text(c) + path_text(pop + rest));
        assert(path_text(b) =~= path_chars_text(vstd::utf8::decode_utf8(w)) + path_text(rest));
    }
}

proof fn lemma_ascii_encoding(c: char)
    requires
        (c as u32) < 0x80,
    ensures
        vstd::utf8::encode_utf8(seq![c]) == seq![c as u8],
{
    let v = c as u32;
    assert(v & 0x7f == v) by (bit_vector)
        requires
            v < 0x80,
    ;
    assert(seq![c].drop_first() =~= Seq::<char>::empty());
    assert(vstd::utf8::encode_utf8(seq![c]) =~= vstd::utf8::encode_scalar(v) + vstd::utf8::encode_utf8(
        Seq::<char>::empty(),
    ));
}

proof fn lemma_lossless_scalar(b: Seq<u8>)
    requires
        vstd::utf8::valid_first_scalar(b),
        path_bytes(path_text(b.subrange(vstd::utf8::length_of_first_scalar(b), b.len() as int))) == b.subrange(
            vstd::utf8::length_of_first_scalar(b),
            b.len() as int,
        ),
    ensures
        path_bytes(path_text(b)) == b,
{
    let l = vstd::utf8::length_of_first_scalar(b);
    lemma_first_scalar_alone(b);
    let c = vstd::utf8::decode_first_scalar(b) as char;
    let rest = b.subrange(l, b.len() as int);
    assert(path_text(b) == path_char_text(c) + path_text(rest));
    if c == '%' || c == '\\' {
        lemma_ascii_encoding(c);
        assert(b.take(l) == seq![c as u8]);
        assert(b[0] == b.take(l)[0]);
        lemma_percent_bytes(c as u8, path_text(rest));
        assert(b =~= seq![b[0]] + rest);
    } else {
        let t = seq![c] + path_text(rest);
        assert(t[0] == c);
        assert(t.drop_first() =~= path_text(rest));
        assert(b =~= b.take(l) + rest);
    }
}

/// The text of a path gives back its bytes: writing a path for JSON loses
/// nothing, whatever bytes it holds.
pub proof fn lemma_path_text_lossless(b: Seq<u8>)
    ensures
        path_bytes(path_text(b)) == b,
    decreases b.len(),
{
    if b.len() == 0 {
        assert(path_text(b) =~= Seq::<char>::empty());
        assert(b =~= Seq::<u8>::empty());
    } else if vstd::utf8::valid_first_scalar(b) {
        lemma_first_scalar_prefix(b, b);
        let l = vstd::utf8::length_of_first_scalar(b);
        lemma_path_text_lossless(b.subrange(l, b.len() as int));
        lemma_lossless_scalar(b);
    } else {
        lemma_path_text_lossless(b.drop_first());
        lemma_percent_bytes(b[0], path_text(b.drop_first()));
        assert(b =~= seq![b[0]] + b.drop_first());
    }
}

} // verus!

verus! {

fn upper_hex_char(d: u8) -> (c: char)
    requires
        d < 16,
    ensures
        c == upper_hex_digit(d as int),
{
    if d < 10 {
        (48u8 + d) as char
    } else {
        (55u8 + d) as char
    }
}

fn push_percent(out: &mut String, b: u8)
    ensures
        final(out)@ == old(out)@ + percent_escape(b),
{
    let ghost start = out@;
    crate::text::push_char(out, '%');
    crate::text::push_char(out, upper_hex_char(b / 16));
    crate::text::push_char(out, upper_hex_char(b % 16));
    assert(out@ =~= start + percent_escape(b));
}

fn push_path_chars(out: &mut String, s: &str)
    ensures
        final(out)@ == old(out)@ + path_chars_text(s@),
{
    let chars = text_chars(s);
    let ghost start = out@;
    let mut i: usize = 0;
    while i < chars.len()
        invariant
            i <= chars.len(),
            out@ == start + path_chars_text(chars@.take(i as int)),
        decreases chars.len() - i,
    {
        let c = chars[i];
        let ghost before = out@;
        if c == '%' {
            push_percent(out, 37);
        } else if c == '\\' {
            push_percent(out, 92);
        } else {
            crate::text::push_char(out, c);
            assert(out@ =~= before + seq![c]);
        }
        proof {
            let t = chars@.take(i + 1);
            assert(t.drop_last() =~= chars@.take(i as int));
            assert(t.last() == c);
            assert(out@ =~= start + path_chars_text(t));
        }
        i = i + 1;
    }
    proof {
        assert(chars@.take(chars.len() as int) =~= s@);
    }
}

/// The JSON text of a path's bytes, which loses nothing: each well-formed
/// UTF-8 character as itself, except `%` and `\` which are written `%25` and
/// `%5C`, and each other byte as `%XX`.
pub fn percent_encode_path(bytes: &[u8]) -> (r: String)
    ensures
        r@ == path_text(bytes@),
{
    let mut out = String::new();
    let mut index: usize = 0;
    let n = bytes.len();
    proof {
        assert(bytes@.subrange(0, n as int) =~= bytes@);
        assert(Seq::<char>::empty() + path_text(bytes@) =~= path_text(bytes@));
    }
    while index < n
        invariant
            index <= n == bytes.len(),
            path_text(bytes@) == out@ + path_text(bytes@.subrange(index as int, n as int)),
        decreases n - index,
    {
        let ghost t = bytes@.subrange(index as int, n as int);
        let ghost before = out@;
        let x = bytes[index];
        if x == 47 || x == 37 || x == 92 {
            proof {
                lemma_ascii_first(t);
                let c = x as u32;
                if x == 47 {
                    vstd::utf8::char_u32_cast('/', c);
                } else if x == 37 {
                    vstd::utf8::char_u32_cast('%', c);
                } else {
                    vstd::utf8::char_u32_cast('\\', c);
                }
                assert(t.subrange(1, t.len() as int) =~= bytes@.subrange(index + 1, n as int));
            }
            if x == 47 {
                crate::text::push_char(&mut out, '/');
                assert(out@ =~= before + path_char_text('/'));
            } else {
                push_percent(&mut out, x);
                assert(path_char_text((x as u32) as char) == percent_escape(x));
            }
            index = index + 1;
        } else {
            let (_, rest) = bytes.split_at(index);
            match crate::text::utf8_prefix(rest) {
                Ok(s) => {
                    push_path_chars(&mut out, s.as_str());
                    proof {
                        lemma_path_text_valid(t, Seq::<u8>::empty());
                        assert(t + Seq::<u8>::empty() =~= t);
                        assert(bytes@.subrange(n as int, n as int) =~= Seq::<u8>::empty());
                    }
                    index = n;
                },
                Err(k) => {
                    if k > 0 {
                        let (valid, _) = rest.split_at(k);
                        proof {
                            assert(valid@ =~= t.take(k as int));
                        }
                        match crate::text::utf8_prefix(valid) {
                            Ok(s) => {
                                push_path_chars(&mut out, s.as_str());
                            },
                            Err(_) => {},
                        }
                        proof {
                            lemma_path_text_valid(t.take(k as int), t.subrange(k as int, t.len() as int));
                            assert(t.take(k as int) + t.subrange(k as int, t.len() as int) =~= t);
                            assert(t.subrange(k as int, t.len() as int) =~= bytes@.subrange(index + k, n as int));
                        }
                        index = index + k;
                    } else {
                        proof {
                            if vstd::utf8::valid_first_scalar(t) {
                                lemma_first_scalar_alone(t);
                                assert(!vstd::utf8::valid_utf8(t.take(vstd::utf8::length_of_first_scalar(t))));
                            }
                            assert(t.drop_first() =~= bytes@.subrange(index + 1, n as int));
                        }
                        push_percent(&mut out, x);
                        index = index + 1;
                    }
                },
            }
        }
    }
    out
}

} // verus!
