//! Bounded review context: the facts gathered about changed functions and
//! their neighbours, and how they are written as plain text.

use vstd::prelude::*;
use vstd::utf8::{decode_utf8, encode_utf8, is_char_boundary};

use crate::snapshot::split_on;
use crate::text::{decimal, push_char, push_text, text_eq};

verus! {

pub const SCHEMA_VERSION: &'static str = "review-context-v1";

/// How far and how much context is gathered.
#[derive(Debug)]
pub struct ContextLimits {
    pub depth: usize,
    pub max_symbols: usize,
    pub max_edges: usize,
    pub max_code_bytes: usize,
    pub include_callees: bool,
    pub show_declarations: bool,
    pub all_relations: bool,
}

impl Default for ContextLimits {
    fn default() -> (r: ContextLimits)
        ensures
            r.depth == 1,
            r.max_symbols == 200,
            r.max_edges == 1000,
            r.max_code_bytes == 1_048_576,
            !r.include_callees,
            !r.show_declarations,
            !r.all_relations,
    {
        ContextLimits {
            depth: 1,
            max_symbols: 200,
            max_edges: 1000,
            max_code_bytes: 1_048_576,
            include_callees: false,
            show_declarations: false,
            all_relations: false,
        }
    }
}

/// The code of a context symbol: included, or left out with the reason.
#[derive(Debug)]
pub struct Code {
    pub state: &'static str,
    pub text: Option<String>,
    pub reason: Option<&'static str>,
}

impl Code {
    /// The code for a source span: unavailable without source, left out by
    /// policy or when it does not fit the remaining byte budget, included
    /// otherwise, in which case the budget shrinks by its length in bytes.
    pub fn from_source(source: Option<&str>, with_body: bool, budget: &mut usize) -> (r: Code)
        ensures
            source is None ==> r.state@ == "unavailable"@ && r.text is None && (r.reason matches Some(x) && x@
                == "invalid-or-unavailable-source-span"@) && *final(budget) == *old(budget),
            source is Some && !with_body ==> r.state@ == "omitted"@ && r.text is None && (r.reason matches Some(
                x,
            ) && x@ == "callee-body-policy"@) && *final(budget) == *old(budget),
            source is Some && with_body && source->0.len() > *old(budget) ==> r.state@ == "omitted"@
                && r.text is None && (r.reason matches Some(x) && x@ == "code-byte-limit"@) && *final(budget) == *old(
                budget),
            source is Some && with_body && source->0.len() <= *old(budget) ==> r.state@ == "included"@
                && (r.text matches Some(t) && t@ == source->0@) && r.reason is None && *final(budget) == *old(budget)
                - source->0.len(),
    {
        match source {
            None => Code { state: "unavailable", text: None, reason: Some("invalid-or-unavailable-source-span") },
            Some(s) => {
                if !with_body {
                    Code { state: "omitted", text: None, reason: Some("callee-body-policy") }
                } else if s.len() > *budget {
                    Code { state: "omitted", text: None, reason: Some("code-byte-limit") }
                } else {
                    *budget = *budget - s.len();
                    Code { state: "included", text: Some(s.to_owned()), reason: None }
                }
            },
        }
    }
}

/// A source span of one snapshot, with its code.
#[derive(Debug)]
pub struct SourceRecord {
    pub reference: String,
    pub commit: String,
    pub path: String,
    pub start_line: usize,
    pub end_line: usize,
    pub changed: Option<bool>,
    pub code: Code,
}

/// One traversal step explaining why a context symbol was selected.
#[derive(Debug)]
pub struct ContextOrigin {
    pub from: String,
    pub role: String,
    pub resolution: String,
}

/// Where a symbol lies in another snapshot.
#[derive(Debug)]
pub struct SourceLocation {
    pub reference: String,
    pub commit: String,
    pub path: String,
    pub start_line: usize,
    pub end_line: usize,
}

/// The same source in another snapshot.
#[derive(Debug)]
pub struct OtherSnapshot {
    pub source: SourceLocation,
    pub origin: Option<ContextOrigin>,
    pub declarations: Vec<SourceLocation>,
}

/// A symbol of the review context. `roles` lists its distinct roles in
/// order.
#[derive(Debug)]
pub struct ContextSymbol {
    pub source: SourceRecord,
    pub name: String,
    pub kind: String,
    pub signature: Option<String>,
    pub definition: bool,
    pub link_status: String,
    pub roles: Vec<String>,
    pub origin: Option<ContextOrigin>,
    pub other_snapshots: Vec<OtherSnapshot>,
    pub declarations: Vec<SourceRecord>,
}

/// A changed function: how it changed and its references before and after.
#[derive(Debug)]
pub struct Change {
    pub status: &'static str,
    pub matching: &'static str,
    pub reason: Option<&'static str>,
    pub before: Option<String>,
    pub after: Option<String>,
}

/// A relation between context symbols.
#[derive(Debug)]
pub struct ContextEdge {
    pub snapshot: String,
    pub from: String,
    pub from_name: String,
    pub to: Option<String>,
    pub to_name: Option<String>,
    pub relation: &'static str,
    pub resolution: String,
    pub candidates: Vec<String>,
    pub path: String,
    pub line: usize,
    pub column: usize,
    pub expression: String,
    pub reason: Option<String>,
}

/// A changed file of the review.
#[derive(Debug)]
pub struct ChangedFile {
    pub before: Option<String>,
    pub after: Option<String>,
    pub status: &'static str,
    pub analysis: String,
    pub changed_functions: usize,
}

/// The analyzer behind a context, with its grammar and the versions of its
/// queries by name.
#[derive(Debug)]
pub struct AnalyzerProvenance {
    pub id: String,
    pub version: String,
    pub grammar: Option<String>,
    pub grammar_version: Option<String>,
    pub queries: Vec<(String, String)>,
}

/// A review context. `omissions` lists, by kind, how many items each limit
/// left out.
#[derive(Debug)]
pub struct ContextReport {
    pub schema_version: &'static str,
    pub base: Option<String>,
    pub head: String,
    pub language: &'static str,
    pub analyzers: Vec<AnalyzerProvenance>,
    pub files: Vec<ChangedFile>,
    pub changes: Vec<Change>,
    pub symbols: Vec<ContextSymbol>,
    pub relations: Vec<ContextEdge>,
    pub limits: ContextLimits,
    pub omissions: Vec<(String, usize)>,
    pub limitations: Vec<String>,
    pub diagnostics: Vec<String>,
}

} // verus!

verus! {

/// The pieces of a list, each written by `f`, one after another.
pub open spec fn concat_upto<A>(s: Seq<A>, f: spec_fn(A) -> Seq<char>, n: int) -> Seq<char>
    decreases n,
{
    if n <= 0 {
        Seq::empty()
    } else {
        concat_upto(s, f, n - 1) + f(s[n - 1])
    }
}

/// The pieces of a whole list.
pub open spec fn concat_all<A>(s: Seq<A>, f: spec_fn(A) -> Seq<char>) -> Seq<char> {
    concat_upto(s, f, s.len() as int)
}

/// The texts joined with `sep`.
pub open spec fn join_with(s: Seq<Seq<char>>, sep: Seq<char>) -> Seq<char>
    decreases s.len(),
{
    if s.len() == 0 {
        Seq::empty()
    } else if s.len() == 1 {
        s[0]
    } else {
        join_with(s.drop_last(), sep) + sep + s.last()
    }
}

/// The number of bytes a character takes in UTF-8.
pub open spec fn utf8_width(c: char) -> nat {
    encode_utf8(seq![c]).len()
}

/// The longest prefix of `s` that takes at most `budget` bytes of UTF-8.
pub open spec fn byte_prefix(s: Seq<char>, budget: int) -> Seq<char>
    decreases s.len(),
{
    if s.len() == 0 || utf8_width(s[0]) > budget {
        Seq::empty()
    } else {
        seq![s[0]] + byte_prefix(s.drop_first(), budget - utf8_width(s[0]))
    }
}

/// A commit ID shortened to its first twelve bytes.
pub open spec fn short_commit(c: Seq<char>) -> Seq<char> {
    byte_prefix(c, 12)
}

pub open spec fn change_label(changed: Option<bool>) -> Seq<char> {
    match changed {
        Some(true) => "changed"@,
        Some(false) => "unchanged"@,
        None => "context"@,
    }
}

/// A number right-aligned in four columns.
pub open spec fn padded4(n: nat) -> Seq<char> {
    let d = decimal(n);
    if d.len() >= 4 {
        d
    } else {
        Seq::new((4 - d.len()) as nat, |i: int| ' ') + d
    }
}

/// A line without the carriage return before its line feed.
pub open spec fn strip_cr(l: Seq<char>) -> Seq<char> {
    if l.len() > 0 && l.last() == '\r' {
        l.drop_last()
    } else {
        l
    }
}

/// The lines of a text as `str::lines` gives them: split at each line feed,
/// each ended line without a carriage return before the line feed, and no
/// empty last line after a final line feed.
pub open spec fn lines_of(t: Seq<char>) -> Seq<Seq<char>> {
    let p = split_on(t, '\n');
    let body = p.drop_last().map_values(|l: Seq<char>| strip_cr(l));
    if p.last().len() == 0 {
        body
    } else {
        body.push(p.last())
    }
}

/// The numbered lines of code, starting at line `start`.
pub open spec fn code_lines(ls: Seq<Seq<char>>, start: nat, n: int) -> Seq<char>
    decreases n,
{
    if n <= 0 {
        Seq::empty()
    } else {
        code_lines(ls, start, n - 1) + padded4((start + n - 1) as nat) + "  "@ + ls[n - 1] + "\n"@
    }
}

/// How a source record is written: its place, then its code or why the code
/// is missing.
#[verifier::opaque]
pub open spec fn source_text(s: SourceRecord) -> Seq<char> {
    s.path@ + ":"@ + decimal(s.start_line as nat) + "-"@ + decimal(s.end_line as nat) + " ["@ + change_label(s.changed)
        + "] @"@ + short_commit(s.commit@) + "\n"@ + match s.code.text {
        Some(t) => code_lines(lines_of(t@), s.start_line as nat, lines_of(t@).len() as int),
        None => "code ["@ + s.code.state@ + ": "@ + match s.code.reason {
            Some(r) => r@,
            None => "unspecified"@,
        } + "]\n"@,
    }
}

pub open spec fn declaration_piece() -> spec_fn(SourceRecord) -> Seq<char> {
    |d: SourceRecord| "declaration "@ + source_text(d)
}

/// Whether a symbol carries a reference, itself or in another snapshot.
pub open spec fn carries(s: ContextSymbol, id: Seq<char>) -> bool {
    s.source.reference@ == id || exists|j: int|
        0 <= j < s.other_snapshots.len() && (#[trigger] s.other_snapshots@[j]).source.reference@ == id
}

/// The index of the symbol that a reference names: the last one carrying it.
pub open spec fn symbol_for(ss: Seq<ContextSymbol>, id: Seq<char>, n: int) -> Option<int>
    decreases n,
{
    if n <= 0 {
        None
    } else if carries(ss[n - 1], id) {
        Some(n - 1)
    } else {
        symbol_for(ss, id, n - 1)
    }
}

pub open spec fn lookup(ss: Seq<ContextSymbol>, id: Seq<char>) -> Option<int> {
    symbol_for(ss, id, ss.len() as int)
}

/// One side of a change: the symbol it names with its declarations, nothing
/// for an unknown symbol, or a note that the side is absent.
#[verifier::opaque]
pub open spec fn side_text(ss: Seq<ContextSymbol>, label: Seq<char>, id: Option<String>) -> Seq<char> {
    match id {
        Some(x) => match lookup(ss, x@) {
            Some(i) => label + " "@ + source_text(ss[i].source) + concat_all(ss[i].declarations@, declaration_piece()),
            None => Seq::empty(),
        },
        None => label + " [absent]\n"@,
    }
}

/// The name a change is shown under.
pub open spec fn change_name(ss: Seq<ContextSymbol>, c: Change) -> Seq<char> {
    let id = if c.after is Some {
        c.after
    } else {
        c.before
    };
    match id {
        Some(x) => match lookup(ss, x@) {
            Some(i) => ss[i].name@,
            None => "function"@,
        },
        None => "function"@,
    }
}

#[verifier::opaque]
pub open spec fn change_text(ss: Seq<ContextSymbol>, c: Change) -> Seq<char> {
    change_name(ss, c) + " ["@ + c.status@ + match c.reason {
        Some(r) => "; "@ + r@,
        None => Seq::<char>::empty(),
    } + "]\n"@ + side_text(ss, "BEFORE"@, c.before) + side_text(ss, "AFTER"@, c.after) + "\n"@
}

pub open spec fn change_piece(ss: Seq<ContextSymbol>) -> spec_fn(Change) -> Seq<char> {
    |c: Change| change_text(ss, c)
}

/// Whether a change already showed the symbol with a reference.
pub open spec fn shown_by_change(ss: Seq<ContextSymbol>, cs: Seq<Change>, r: Seq<char>) -> bool {
    exists|k: int|
        0 <= k < cs.len() && ((#[trigger] cs[k].before matches Some(x) && x@ == r) || (cs[k].after matches Some(
            y,
        ) && y@ == r)) && lookup(ss, r) is Some
}

/// Whether a relation of the context already explains an origin.
pub open spec fn origin_visible(es: Seq<ContextEdge>, reference: Seq<char>, o: ContextOrigin) -> bool {
    exists|k: int|
        0 <= k < es.len() && if o.role@ == "caller"@ {
            (#[trigger] es[k]).from@ == reference && (es[k].to matches Some(t) && t@ == o.from@)
        } else {
            es[k].from@ == o.from@ && ((es[k].to matches Some(t) && t@ == reference) || exists|m: int|
                0 <= m < es[k].candidates.len() && (#[trigger] es[k].candidates@[m])@ == reference)
        }
}

/// The commit part of a reference: its second `:`-separated piece.
pub open spec fn origin_commit(f: Seq<char>) -> Seq<char> {
    let parts = split_on(f, ':');
    if parts.len() >= 2 {
        parts[1]
    } else {
        Seq::empty()
    }
}

/// Why a symbol was selected, when no shown relation says so already.
#[verifier::opaque]
pub open spec fn origin_text(r: ContextReport, reference: Seq<char>, origin: Option<ContextOrigin>) -> Seq<char> {
    match origin {
        None => Seq::empty(),
        Some(o) => if origin_visible(r.relations@, reference, o) {
            Seq::empty()
        } else {
            match lookup(r.symbols@, o.from@) {
                Some(p) => "via "@ + r.symbols@[p].name@ + " ["@ + o.role@ + "; "@ + o.resolution@ + "] @"@
                    + short_commit(origin_commit(o.from@)) + "\n"@,
                None => Seq::empty(),
            }
        },
    }
}

pub open spec fn location_text(prefix: Seq<char>, l: SourceLocation) -> Seq<char> {
    prefix + short_commit(l.commit@) + " "@ + l.path@ + ":"@ + decimal(l.start_line as nat) + "-"@ + decimal(
        l.end_line as nat,
    ) + "\n"@
}

pub open spec fn same_declaration_piece() -> spec_fn(SourceLocation) -> Seq<char> {
    |l: SourceLocation| location_text("same declaration @"@, l)
}

#[verifier::opaque]
pub open spec fn other_text(r: ContextReport, o: OtherSnapshot) -> Seq<char> {
    location_text("same source @"@, o.source) + origin_text(r, o.source.reference@, o.origin) + concat_all(
        o.declarations@,
        same_declaration_piece(),
    )
}

pub open spec fn other_piece(r: ContextReport) -> spec_fn(OtherSnapshot) -> Seq<char> {
    |o: OtherSnapshot| other_text(r, o)
}

/// A context symbol that no change showed: its name, roles and source, why
/// it was selected, where else the same source lies, its signature when its
/// code is left out, and its declarations.
#[verifier::opaque]
pub open spec fn symbol_text(r: ContextReport, s: ContextSymbol) -> Seq<char> {
    if shown_by_change(r.symbols@, r.changes@, s.source.reference@) {
        Seq::empty()
    } else {
        s.name@ + " ["@ + change_label(s.source.changed) + "; "@ + join_with(
            s.roles@.map_values(|x: String| x@),
            ","@,
        ) + "]\n"@ + source_text(s.source) + origin_text(r, s.source.reference@, s.origin) + concat_all(
            s.other_snapshots@,
            other_piece(r),
        ) + if s.source.code.state@ != "included"@ && s.signature is Some {
            "  "@ + s.signature->0@ + "\n"@
        } else {
            Seq::<char>::empty()
        } + concat_all(s.declarations@, declaration_piece()) + "\n"@
    }
}

pub open spec fn symbol_piece(r: ContextReport) -> spec_fn(ContextSymbol) -> Seq<char> {
    |s: ContextSymbol| symbol_text(r, s)
}

pub open spec fn edge_text(e: ContextEdge) -> Seq<char> {
    "  "@ + e.from_name@ + " -> "@ + match e.to_name {
        Some(t) => t@,
        None => e.expression@,
    } + " ["@ + e.relation@ + "; "@ + e.resolution@ + "] "@ + e.path@ + ":"@ + decimal(e.line as nat) + " @"@
        + short_commit(e.snapshot@) + "\n"@
}

pub open spec fn edge_piece() -> spec_fn(ContextEdge) -> Seq<char> {
    |e: ContextEdge| edge_text(e)
}

pub open spec fn file_text(f: ChangedFile) -> Seq<char> {
    if f.changed_functions == 0 {
        "file "@ + match f.after {
            Some(a) => a@,
            None => match f.before {
                Some(b) => b@,
                None => Seq::<char>::empty(),
            },
        } + " ["@ + f.status@ + "; "@ + f.analysis@ + "; no changed function body]\n"@
    } else {
        Seq::empty()
    }
}

pub open spec fn file_piece() -> spec_fn(ChangedFile) -> Seq<char> {
    |f: ChangedFile| file_text(f)
}

pub open spec fn omission_text(o: (String, usize)) -> Seq<char> {
    if o.1 > 0 {
        "omitted "@ + o.0@ + "="@ + decimal(o.1 as nat) + if o.0@ == "context-relations"@ {
            " (--all-relations)"@
        } else {
            Seq::<char>::empty()
        } + "\n"@
    } else {
        Seq::empty()
    }
}

pub open spec fn omission_piece() -> spec_fn((String, usize)) -> Seq<char> {
    |o: (String, usize)| omission_text(o)
}

pub open spec fn diagnostic_piece() -> spec_fn(String) -> Seq<char> {
    |d: String| "! "@ + d@ + "\n"@
}

/// The plain text of a review context: each change with its two sides, the
/// other symbols, the relations, the files without a changed function, what
/// the limits left out, and the diagnostics.
#[verifier::opaque]
pub open spec fn context_text(r: ContextReport) -> Seq<char> {
    concat_all(r.changes@, change_piece(r.symbols@)) + concat_all(r.symbols@, symbol_piece(r)) + if r.relations.len()
        > 0 {
        "Relations\n"@
    } else {
        Seq::<char>::empty()
    } + concat_all(r.relations@, edge_piece()) + concat_all(r.files@, file_piece()) + concat_all(
        r.omissions@,
        omission_piece(),
    ) + concat_all(r.diagnostics@, diagnostic_piece())
}

} // verus!

verus! {

proof fn lemma_concat_step<A>(s: Seq<A>, f: spec_fn(A) -> Seq<char>, i: int)
    requires
        0 <= i < s.len(),
    ensures
        concat_upto(s, f, i + 1) == concat_upto(s, f, i) + f(s[i]),
{
}

fn char_width(c: char) -> (w: usize)
    ensures
        w == utf8_width(c),
        1 <= w <= 4,
{
    proof {
        vstd::utf8::char_is_scalar(c);
        assert(seq![c].drop_first() =~= Seq::<char>::empty());
        assert(encode_utf8(seq![c]) =~= vstd::utf8::encode_scalar(c as u32) + encode_utf8(Seq::<char>::empty()));
    }
    let v = c as u32;
    if v < 0x80 {
        1
    } else if v < 0x800 {
        2
    } else if v < 0x10000 {
        3
    } else {
        4
    }
}

fn push_short_commit(out: &mut String, c: &str)
    ensures
        final(out)@ == old(out)@ + short_commit(c@),
{
    let chars = crate::order::text_chars(c);
    let ghost start = out@;
    let mut budget: usize = 12;
    let mut i: usize = 0;
    let mut done = false;
    proof {
        assert(chars@.skip(0) =~= chars@);
    }
    while i < chars.len() && !done
        invariant
            i <= chars.len(),
            budget <= 12,
            short_commit(c@) == out@.subrange(start.len() as int, out@.len() as int) + byte_prefix(
                chars@.skip(i as int),
                budget as int,
            ),
            out@.len() >= start.len(),
            out@.subrange(0, start.len() as int) == start,
            chars@ == c@,
            done ==> byte_prefix(chars@.skip(i as int), budget as int) == Seq::<char>::empty(),
        decreases (chars.len() - i) * 2 + if done { 0int } else { 1int },
    {
        let x = chars[i];
        let w = char_width(x);
        let ghost rest = chars@.skip(i as int);
        proof {
            assert(rest[0] == x);
            assert(rest.drop_first() =~= chars@.skip(i + 1));
        }
        if w > budget {
            done = true;
        } else {
            let ghost before = out@;
            push_char(out, x);
            proof {
                assert(out@.subrange(start.len() as int, out@.len() as int) =~= before.subrange(
                    start.len() as int,
                    before.len() as int,
                ).push(x));
                assert(out@.subrange(0, start.len() as int) =~= before.subrange(0, start.len() as int));
                assert(seq![x] + byte_prefix(chars@.skip(i + 1), budget - w) == byte_prefix(rest, budget as int));
            }
            budget = budget - w;
            i = i + 1;
        }
    }
    proof {
        if !done {
            assert(chars@.skip(i as int) =~= Seq::<char>::empty());
        }
        assert(out@ =~= start + out@.subrange(start.len() as int, out@.len() as int));
    }
}

fn decimal_wide(n: u128) -> (s: String)
    ensures
        s@ == decimal(n as nat),
    decreases n,
{
    if n < 10 {
        let mut s = String::new();
        crate::text::push_decimal(&mut s, n as u64);
        s
    } else {
        let mut s = decimal_wide(n / 10);
        let ghost before = s@;
        let d = crate::text::decimal_text((n % 10) as u64);
        proof {
            assert(decimal((n % 10) as nat) == seq![crate::text::digit_char((n % 10) as int)]);
        }
        push_text(&mut s, d.as_str());
        s
    }
}

fn push_numbered(out: &mut String, number: u128, line: &Vec<char>)
    ensures
        final(out)@ == old(out)@ + padded4(number as nat) + "  "@ + line@ + "\n"@,
{
    let ghost start = out@;
    let d = decimal_wide(number);
    let width = d.as_str().unicode_len();
    let fill: usize = if width < 4 {
        4 - width
    } else {
        0
    };
    let mut pad: usize = 0;
    while pad < fill
        invariant
            width == d@.len(),
            fill == if width < 4 { 4 - width } else { 0 },
            pad <= fill,
            out@ == start + Seq::new(pad as nat, |i: int| ' '),
        decreases fill - pad,
    {
        push_char(out, ' ');
        pad = pad + 1;
        assert(out@ =~= start + Seq::new(pad as nat, |i: int| ' '));
    }
    push_text(out, d.as_str());
    proof {
        if d@.len() >= 4 {
            assert(pad == 0);
            assert(Seq::new(0, |i: int| ' ') =~= Seq::<char>::empty());
        }
        assert(out@ =~= start + padded4(number as nat));
    }
    push_text(out, "  ");
    let s = crate::text::string_from_chars(line);
    push_text(out, s.as_str());
    push_text(out, "\n");
}

fn push_code_lines(out: &mut String, text: &str, start_line: usize)
    ensures
        final(out)@ == old(out)@ + code_lines(lines_of(text@), start_line as nat, lines_of(text@).len() as int),
{
    let ghost start = out@;
    let chars = crate::order::text_chars(text);
    let pieces = crate::snapshot::split_chars(&chars, '\n');
    let ghost pv = pieces@.map_values(|v: Vec<char>| v@);
    let ghost ls = lines_of(text@);
    let body = pieces.len() - 1;
    proof {
        assert(pv.len() == pieces.len());
        assert(pv.drop_last().map_values(|l: Seq<char>| strip_cr(l)).len() == body);
    }
    let mut i: usize = 0;
    while i < body
        invariant
            i <= body == pieces.len() - 1,
            pv == pieces@.map_values(|v: Vec<char>| v@),
            pv == split_on(text@, '\n'),
            ls == lines_of(text@),
            forall|k: int| 0 <= k < body ==> ls[k] == strip_cr(#[trigger] pv[k]),
            ls.len() >= body,
            out@ == start + code_lines(ls, start_line as nat, i as int),
        decreases body - i,
    {
        let piece = &pieces[i];
        let mut line: Vec<char> = Vec::new();
        let n = piece.len();
        let keep = if n > 0 && piece[n - 1] == '\r' {
            n - 1
        } else {
            n
        };
        let mut j: usize = 0;
        while j < keep
            invariant
                j <= keep <= piece.len(),
                line@ == piece@.take(j as int),
            decreases keep - j,
        {
            line.push(piece[j]);
            j = j + 1;
            assert(line@ =~= piece@.take(j as int));
        }
        proof {
            assert(pv[i as int] == piece@);
            assert(line@ =~= strip_cr(piece@));
            assert(ls[i as int] == line@);
        }
        push_numbered(out, start_line as u128 + i as u128, &line);
        i = i + 1;
    }
    let last = &pieces[body];
    proof {
        assert(pv[body as int] == last@);
        assert(pv.last() == last@);
    }
    if last.len() > 0 {
        proof {
            assert(ls.len() == body + 1);
            assert(ls[body as int] == last@);
        }
        push_numbered(out, start_line as u128 + body as u128, last);
    } else {
        proof {
            assert(ls.len() == body);
        }
    }
}

fn push_source(out: &mut String, s: &SourceRecord)
    ensures
        final(out)@ == old(out)@ + source_text(*s),
{
    let ghost start = out@;
    push_text(out, s.path.as_str());
    push_text(out, ":");
    crate::text::push_decimal(out, s.start_line as u64);
    push_text(out, "-");
    crate::text::push_decimal(out, s.end_line as u64);
    push_text(out, " [");
    push_text(out, change_label_text(s.changed));
    push_text(out, "] @");
    push_short_commit(out, s.commit.as_str());
    push_text(out, "\n");
    let ghost mid = out@;
    match &s.code.text {
        Some(t) => {
            push_code_lines(out, t.as_str(), s.start_line);
        },
        None => {
            push_text(out, "code [");
            push_text(out, s.code.state);
            push_text(out, ": ");
            match s.code.reason {
                Some(r) => push_text(out, r),
                None => push_text(out, "unspecified"),
            }
            push_text(out, "]\n");
        },
    }
    proof {
        reveal(source_text);
    }
    assert(out@ =~= start + source_text(*s));
}

fn change_label_text(changed: Option<bool>) -> (r: &'static str)
    ensures
        r@ == change_label(changed),
{
    match changed {
        Some(true) => "changed",
        Some(false) => "unchanged",
        None => "context",
    }
}

fn push_declarations(out: &mut String, ds: &Vec<SourceRecord>)
    ensures
        final(out)@ == old(out)@ + concat_all(ds@, declaration_piece()),
{
    let ghost start = out@;
    let mut i: usize = 0;
    while i < ds.len()
        invariant
            i <= ds.len(),
            out@ == start + concat_upto(ds@, declaration_piece(), i as int),
        decreases ds.len() - i,
    {
        push_text(out, "declaration ");
        push_source(out, &ds[i]);
        proof {
            lemma_concat_step(ds@, declaration_piece(), i as int);
            assert(out@ =~= start + concat_upto(ds@, declaration_piece(), i + 1));
        }
        i = i + 1;
    }
}

fn carries_exec(s: &ContextSymbol, id: &str) -> (r: bool)
    ensures
        r == carries(*s, id@),
{
    if text_eq(s.source.reference.as_str(), id) {
        return true;
    }
    let mut j: usize = 0;
    while j < s.other_snapshots.len()
        invariant
            j <= s.other_snapshots.len(),
            s.source.reference@ != id@,
            forall|k: int| 0 <= k < j ==> (#[trigger] s.other_snapshots@[k]).source.reference@ != id@,
        decreases s.other_snapshots.len() - j,
    {
        if text_eq(s.other_snapshots[j].source.reference.as_str(), id) {
            return true;
        }
        j = j + 1;
    }
    false
}

fn lookup_exec(ss: &Vec<ContextSymbol>, id: &str) -> (r: Option<usize>)
    ensures
        match r {
            Some(i) => lookup(ss@, id@) == Some(i as int) && i < ss.len(),
            None => lookup(ss@, id@) is None,
        },
{
    let mut found: Option<usize> = None;
    let mut j: usize = 0;
    while j < ss.len()
        invariant
            j <= ss.len(),
            match found {
                Some(i) => symbol_for(ss@, id@, j as int) == Some(i as int) && i < j,
                None => symbol_for(ss@, id@, j as int) is None,
            },
        decreases ss.len() - j,
    {
        if carries_exec(&ss[j], id) {
            found = Some(j);
        }
        j = j + 1;
    }
    found
}

fn push_side(out: &mut String, ss: &Vec<ContextSymbol>, label: &str, id: &Option<String>)
    ensures
        final(out)@ == old(out)@ + side_text(ss@, label@, *id),
{
    let ghost start = out@;
    match id {
        Some(x) => {
            match lookup_exec(ss, x.as_str()) {
                Some(i) => {
                    push_text(out, label);
                    push_text(out, " ");
                    push_source(out, &ss[i].source);
                    push_declarations(out, &ss[i].declarations);
                },
                None => {},
            }
        },
        None => {
            push_text(out, label);
            push_text(out, " [absent]\n");
        },
    }
    proof {
        reveal(side_text);
    }
    assert(out@ =~= start + side_text(ss@, label@, *id));
}

fn push_change(out: &mut String, ss: &Vec<ContextSymbol>, c: &Change)
    ensures
        final(out)@ == old(out)@ + change_text(ss@, *c),
{
    let ghost start = out@;
    let id = if c.after.is_some() {
        &c.after
    } else {
        &c.before
    };
    match id {
        Some(x) => match lookup_exec(ss, x.as_str()) {
            Some(i) => push_text(out, ss[i].name.as_str()),
            None => push_text(out, "function"),
        },
        None => push_text(out, "function"),
    }
    assert(out@ =~= start + change_name(ss@, *c));
    push_text(out, " [");
    push_text(out, c.status);
    match c.reason {
        Some(r) => {
            push_text(out, "; ");
            push_text(out, r);
        },
        None => {},
    }
    push_text(out, "]\n");
    push_side(out, ss, "BEFORE", &c.before);
    push_side(out, ss, "AFTER", &c.after);
    push_text(out, "\n");
    proof {
        reveal(change_text);
    }
    assert(out@ =~= start + change_text(ss@, *c));
}

fn shown_exec(ss: &Vec<ContextSymbol>, cs: &Vec<Change>, r: &str) -> (b: bool)
    ensures
        b == shown_by_change(ss@, cs@, r@),
{
    if lookup_exec(ss, r).is_none() {
        return false;
    }
    let mut k: usize = 0;
    while k < cs.len()
        invariant
            k <= cs.len(),
            lookup(ss@, r@) is Some,
            forall|m: int|
                0 <= m < k ==> !((#[trigger] cs@[m].before matches Some(x) && x@ == r@) || (cs@[m].after matches Some(y)
                    && y@ == r@)),
        decreases cs.len() - k,
    {
        let c = &cs[k];
        let b = match &c.before {
            Some(x) => text_eq(x.as_str(), r),
            None => false,
        };
        let a = match &c.after {
            Some(y) => text_eq(y.as_str(), r),
            None => false,
        };
        if a || b {
            return true;
        }
        k = k + 1;
    }
    false
}

fn visible_exec(es: &Vec<ContextEdge>, reference: &str, o: &ContextOrigin) -> (b: bool)
    ensures
        b == origin_visible(es@, reference@, *o),
{
    let caller = text_eq(o.role.as_str(), "caller");
    let mut k: usize = 0;
    while k < es.len()
        invariant
            k <= es.len(),
            caller == (o.role@ == "caller"@),
            forall|m: int|
                0 <= m < k ==> !(if o.role@ == "caller"@ {
                    (#[trigger] es@[m]).from@ == reference@ && (es@[m].to matches Some(t) && t@ == o.from@)
                } else {
                    es@[m].from@ == o.from@ && ((es@[m].to matches Some(t) && t@ == reference@) || exists|q: int|
                        0 <= q < es@[m].candidates.len() && (#[trigger] es@[m].candidates@[q])@ == reference@)
                }),
        decreases es.len() - k,
    {
        let e = &es[k];
        let hit = if caller {
            text_eq(e.from.as_str(), reference) && match &e.to {
                Some(t) => text_eq(t.as_str(), o.from.as_str()),
                None => false,
            }
        } else {
            let to_hit = match &e.to {
                Some(t) => text_eq(t.as_str(), reference),
                None => false,
            };
            let mut cand = false;
            let mut q: usize = 0;
            while q < e.candidates.len()
                invariant
                    q <= e.candidates.len(),
                    cand == exists|x: int| 0 <= x < q && (#[trigger] e.candidates@[x])@ == reference@,
                decreases e.candidates.len() - q,
            {
                if text_eq(e.candidates[q].as_str(), reference) {
                    cand = true;
                }
                q = q + 1;
            }
            text_eq(e.from.as_str(), o.from.as_str()) && (to_hit || cand)
        };
        if hit {
            return true;
        }
        k = k + 1;
    }
    false
}

fn push_origin(out: &mut String, r: &ContextReport, reference: &str, origin: &Option<ContextOrigin>)
    ensures
        final(out)@ == old(out)@ + origin_text(*r, reference@, *origin),
{
    let ghost start = out@;
    match origin {
        None => {},
        Some(o) => {
            if !visible_exec(&r.relations, reference, o) {
                match lookup_exec(&r.symbols, o.from.as_str()) {
                    Some(p) => {
                        push_text(out, "via ");
                        push_text(out, r.symbols[p].name.as_str());
                        push_text(out, " [");
                        push_text(out, o.role.as_str());
                        push_text(out, "; ");
                        push_text(out, o.resolution.as_str());
                        push_text(out, "] @");
                        let chars = crate::order::text_chars(o.from.as_str());
                        let parts = crate::snapshot::split_chars(&chars, ':');
                        let ghost pv = parts@.map_values(|v: Vec<char>| v@);
                        let commit = if parts.len() >= 2 {
                            crate::text::string_from_chars(&parts[1])
                        } else {
                            String::new()
                        };
                        proof {
                            if parts.len() >= 2 {
                                assert(pv[1] == parts@[1]@);
                            }
                            assert(commit@ == origin_commit(o.from@));
                        }
                        push_short_commit(out, commit.as_str());
                        push_text(out, "\n");
                    },
                    None => {},
                }
            }
        },
    }
    proof {
        reveal(origin_text);
    }
    assert(out@ =~= start + origin_text(*r, reference@, *origin));
}

fn push_location(out: &mut String, prefix: &str, l: &SourceLocation)
    ensures
        final(out)@ == old(out)@ + location_text(prefix@, *l),
{
    let ghost start = out@;
    push_text(out, prefix);
    push_short_commit(out, l.commit.as_str());
    push_text(out, " ");
    push_text(out, l.path.as_str());
    push_text(out, ":");
    crate::text::push_decimal(out, l.start_line as u64);
    push_text(out, "-");
    crate::text::push_decimal(out, l.end_line as u64);
    push_text(out, "\n");
    assert(out@ =~= start + location_text(prefix@, *l));
}

fn push_other(out: &mut String, r: &ContextReport, o: &OtherSnapshot)
    ensures
        final(out)@ == old(out)@ + other_text(*r, *o),
{
    let ghost start = out@;
    push_location(out, "same source @", &o.source);
    push_origin(out, r, o.source.reference.as_str(), &o.origin);
    let ghost mid = out@;
    let mut i: usize = 0;
    while i < o.declarations.len()
        invariant
            i <= o.declarations.len(),
            out@ == mid + concat_upto(o.declarations@, same_declaration_piece(), i as int),
        decreases o.declarations.len() - i,
    {
        push_location(out, "same declaration @", &o.declarations[i]);
        proof {
            lemma_concat_step(o.declarations@, same_declaration_piece(), i as int);
            assert(out@ =~= mid + concat_upto(o.declarations@, same_declaration_piece(), i + 1));
        }
        i = i + 1;
    }
    proof {
        reveal(other_text);
    }
    assert(out@ =~= start + other_text(*r, *o));
}

fn push_roles(out: &mut String, roles: &Vec<String>)
    ensures
        final(out)@ == old(out)@ + join_with(roles@.map_values(|x: String| x@), ","@),
{
    let ghost start = out@;
    let ghost rv = roles@.map_values(|x: String| x@);
    let mut i: usize = 0;
    while i < roles.len()
        invariant
            i <= roles.len(),
            rv == roles@.map_values(|x: String| x@),
            out@ == start + join_with(rv.take(i as int), ","@),
        decreases roles.len() - i,
    {
        proof {
            assert(rv.take(i + 1).drop_last() =~= rv.take(i as int));
            assert(rv.take(i + 1).last() == roles@[i as int]@);
            if i == 0 {
                assert(rv.take(0) =~= Seq::<Seq<char>>::empty());
            }
        }
        if i > 0 {
            push_text(out, ",");
        }
        push_text(out, roles[i].as_str());
        proof {
            if i == 0 {
                assert(join_with(rv.take(1), ","@) == rv.take(1)[0]);
            }
            assert(out@ =~= start + join_with(rv.take(i + 1), ","@));
        }
        i = i + 1;
    }
    proof {
        assert(rv.take(roles.len() as int) =~= rv);
    }
}

#[verifier::rlimit(60)]
#[verifier::spinoff_prover]
fn push_symbol(out: &mut String, r: &ContextReport, s: &ContextSymbol)
    ensures
        final(out)@ == old(out)@ + symbol_text(*r, *s),
{
    let ghost start = out@;
    if shown_exec(&r.symbols, &r.changes, s.source.reference.as_str()) {
        proof {
            reveal(symbol_text);
        }
        assert(out@ =~= start + symbol_text(*r, *s));
        return;
    }
    push_text(out, s.name.as_str());
    push_text(out, " [");
    push_text(out, change_label_text(s.source.changed));
    push_text(out, "; ");
    push_roles(out, &s.roles);
    push_text(out, "]\n");
    push_source(out, &s.source);
    push_origin(out, r, s.source.reference.as_str(), &s.origin);
    let ghost mid = out@;
    let mut i: usize = 0;
    while i < s.other_snapshots.len()
        invariant
            i <= s.other_snapshots.len(),
            out@ == mid + concat_upto(s.other_snapshots@, other_piece(*r), i as int),
        decreases s.other_snapshots.len() - i,
    {
        push_other(out, r, &s.other_snapshots[i]);
        proof {
            lemma_concat_step(s.other_snapshots@, other_piece(*r), i as int);
            assert(out@ =~= mid + concat_upto(s.other_snapshots@, other_piece(*r), i + 1));
        }
        i = i + 1;
    }
    let ghost mid2 = out@;
    if !text_eq(s.source.code.state, "included") {
        match &s.signature {
            Some(sig) => {
                push_text(out, "  ");
                push_text(out, sig.as_str());
                push_text(out, "\n");
            },
            None => {},
        }
    }
    push_declarations(out, &s.declarations);
    push_text(out, "\n");
    proof {
        reveal(symbol_text);
    }
    assert(out@ =~= start + symbol_text(*r, *s));
}

fn push_edge(out: &mut String, e: &ContextEdge)
    ensures
        final(out)@ == old(out)@ + edge_text(*e),
{
    let ghost start = out@;
    push_text(out, "  ");
    push_text(out, e.from_name.as_str());
    push_text(out, " -> ");
    match &e.to_name {
        Some(t) => push_text(out, t.as_str()),
        None => push_text(out, e.expression.as_str()),
    }
    push_text(out, " [");
    push_text(out, e.relation);
    push_text(out, "; ");
    push_text(out, e.resolution.as_str());
    push_text(out, "] ");
    push_text(out, e.path.as_str());
    push_text(out, ":");
    crate::text::push_decimal(out, e.line as u64);
    push_text(out, " @");
    push_short_commit(out, e.snapshot.as_str());
    push_text(out, "\n");
    assert(out@ =~= start + edge_text(*e));
}

fn push_file(out: &mut String, f: &ChangedFile)
    ensures
        final(out)@ == old(out)@ + file_text(*f),
{
    let ghost start = out@;
    if f.changed_functions == 0 {
        push_text(out, "file ");
        match &f.after {
            Some(x) => push_text(out, x.as_str()),
            None => match &f.before {
                Some(y) => push_text(out, y.as_str()),
                None => {},
            },
        }
        push_text(out, " [");
        push_text(out, f.status);
        push_text(out, "; ");
        push_text(out, f.analysis.as_str());
        push_text(out, "; no changed function body]\n");
    }
    assert(out@ =~= start + file_text(*f));
}

fn push_omission(out: &mut String, o: &(String, usize))
    ensures
        final(out)@ == old(out)@ + omission_text(*o),
{
    let ghost start = out@;
    if o.1 > 0 {
        push_text(out, "omitted ");
        push_text(out, o.0.as_str());
        push_text(out, "=");
        crate::text::push_decimal(out, o.1 as u64);
        if text_eq(o.0.as_str(), "context-relations") {
            push_text(out, " (--all-relations)");
        }
        push_text(out, "\n");
    }
    assert(out@ =~= start + omission_text(*o));
}

/// The review context as plain text: each change with its symbol before and
/// after, the other context symbols with why they were selected, the
/// relations, the changed files without a changed function body, what the
/// limits left out, and the diagnostics.
pub fn render_context(report: &ContextReport) -> (r: String)
    ensures
        r@ == context_text(*report),
{
    let mut out = String::new();
    let mut i: usize = 0;
    while i < report.changes.len()
        invariant
            i <= report.changes.len(),
            out@ == concat_upto(report.changes@, change_piece(report.symbols@), i as int),
        decreases report.changes.len() - i,
    {
        push_change(&mut out, &report.symbols, &report.changes[i]);
        proof {
            lemma_concat_step(report.changes@, change_piece(report.symbols@), i as int);
        }
        i = i + 1;
    }
    let ghost a = out@;
    let mut i: usize = 0;
    while i < report.symbols.len()
        invariant
            i <= report.symbols.len(),
            out@ == a + concat_upto(report.symbols@, symbol_piece(*report), i as int),
        decreases report.symbols.len() - i,
    {
        push_symbol(&mut out, report, &report.symbols[i]);
        proof {
            lemma_concat_step(report.symbols@, symbol_piece(*report), i as int);
            assert(out@ =~= a + concat_upto(report.symbols@, symbol_piece(*report), i + 1));
        }
        i = i + 1;
    }
    if report.relations.len() > 0 {
        push_text(&mut out, "Relations\n");
    }
    let ghost b = out@;
    let mut i: usize = 0;
    while i < report.relations.len()
        invariant
            i <= report.relations.len(),
            out@ == b + concat_upto(report.relations@, edge_piece(), i as int),
        decreases report.relations.len() - i,
    {
        let ghost before = out@;
        push_edge(&mut out, &report.relations[i]);
        proof {
            lemma_concat_step(report.relations@, edge_piece(), i as int);
            assert(out@ =~= b + concat_upto(report.relations@, edge_piece(), i + 1));
        }
        i = i + 1;
    }
    let ghost c = out@;
    let mut i: usize = 0;
    while i < report.files.len()
        invariant
            i <= report.files.len(),
            out@ == c + concat_upto(report.files@, file_piece(), i as int),
        decreases report.files.len() - i,
    {
        let ghost before = out@;
        push_file(&mut out, &report.files[i]);
        proof {
            lemma_concat_step(report.files@, file_piece(), i as int);
            assert(out@ =~= c + concat_upto(report.files@, file_piece(), i + 1));
        }
        i = i + 1;
    }
    let ghost d = out@;
    let mut i: usize = 0;
    while i < report.omissions.len()
        invariant
            i <= report.omissions.len(),
            out@ == d + concat_upto(report.omissions@, omission_piece(), i as int),
        decreases report.omissions.len() - i,
    {
        let ghost before = out@;
        push_omission(&mut out, &report.omissions[i]);
        proof {
            lemma_concat_step(report.omissions@, omission_piece(), i as int);
            assert(out@ =~= d + concat_upto(report.omissions@, omission_piece(), i + 1));
        }
        i = i + 1;
    }
    let ghost e = out@;
    let mut i: usize = 0;
    while i < report.diagnostics.len()
        invariant
            i <= report.diagnostics.len(),
            out@ == e + concat_upto(report.diagnostics@, diagnostic_piece(), i as int),
        decreases report.diagnostics.len() - i,
    {
        let ghost before = out@;
        push_text(&mut out, "! ");
        push_text(&mut out, report.diagnostics[i].as_str());
        push_text(&mut out, "\n");
        proof {
            lemma_concat_step(report.diagnostics@, diagnostic_piece(), i as int);
            assert(out@ =~= e + concat_upto(report.diagnostics@, diagnostic_piece(), i + 1));
        }
        i = i + 1;
    }
    proof {
        reveal(context_text);
    }
    assert(out@ =~= context_text(*report));
    out
}

} // verus!
