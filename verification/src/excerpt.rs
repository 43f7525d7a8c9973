//! Source excerpts for the graph viewers: the lines of a declaration, cut
//! out of its file by the byte range of its span.

use vstd::prelude::*;
use vstd::utf8::encode_utf8;

use crate::analyzer::SourceSpan;
use crate::context::{lines_of, strip_cr};
use crate::snapshot::{split_chars, split_on};

verus! {

/// The lines of a declaration's source and where they stand.
#[derive(Debug)]
pub struct HtmlSource {
    pub start_line: usize,
    pub start_column: usize,
    pub end_line: usize,
    pub lines: Vec<String>,
}

/// The text between two byte offsets of a source, where both are character
/// boundaries in order.
pub open spec fn byte_range_text(source: Seq<char>, start: int, end: int) -> Option<Seq<char>> {
    if start <= end && vstd::utf8::is_char_boundary(encode_utf8(source), start) && vstd::utf8::is_char_boundary(
        encode_utf8(source),
        end,
    ) {
        Some(vstd::utf8::decode_utf8(encode_utf8(source).subrange(start, end)))
    } else {
        None
    }
}

/// `str::get` with a byte range: the slice where both ends are character
/// boundaries in order (the end at most the length), else nothing. Claimed
/// as the standard library documents it: the slice's bytes are the source's
/// bytes in the range.
#[verifier::external_body]
fn str_get(source: &str, start: usize, end: usize) -> (r: Option<String>)
    ensures
        match r {
            Some(s) => start <= end && vstd::utf8::is_char_boundary(encode_utf8(source@), start as int)
                && vstd::utf8::is_char_boundary(encode_utf8(source@), end as int) && encode_utf8(s@) == encode_utf8(
                source@,
            ).subrange(start as int, end as int),
            None => !(start <= end && vstd::utf8::is_char_boundary(encode_utf8(source@), start as int)
                && vstd::utf8::is_char_boundary(encode_utf8(source@), end as int)),
        },
{
    source.get(start..end).map(|s| s.to_string())
}

/// The lines of a text as `str::lines` gives them.
pub fn text_lines(text: &str) -> (r: Vec<String>)
    ensures
        r@.map_values(|s: String| s@) == lines_of(text@),
{
    let chars = crate::order::text_chars(text);
    let pieces = split_chars(&chars, '\n');
    let ghost pv = pieces@.map_values(|v: Vec<char>| v@);
    let ghost ls = lines_of(text@);
    let body = pieces.len() - 1;
    proof {
        assert(pv.len() == pieces.len());
        assert(pv.drop_last().map_values(|l: Seq<char>| strip_cr(l)).len() == body);
    }
    let mut out: Vec<String> = Vec::new();
    let mut i: usize = 0;
    while i < body
        invariant
            i <= body == pieces.len() - 1,
            pv == pieces@.map_values(|v: Vec<char>| v@),
            pv == split_on(text@, '\n'),
            ls == lines_of(text@),
            forall|k: int| 0 <= k < body ==> ls[k] == strip_cr(#[trigger] pv[k]),
            ls.len() >= body,
            out@.map_values(|s: String| s@) == ls.take(i as int),
        decreases body - i,
    {
        let piece = &pieces[i];
        let mut line: Vec<char> = Vec::new();
        let n = piece.len();
        let keep = if n > 0 && piece[n - 1] == '\r' {
            n - 1
        } else {
            n
        };
        let mut j: usize = 0;
        while j < keep
            invariant
                j <= keep <= piece.len(),
                line@ == piece@.take(j as int),
            decreases keep - j,
        {
            line.push(piece[j]);
            j = j + 1;
            assert(line@ =~= piece@.take(j as int));
        }
        proof {
            assert(pv[i as int] == piece@);
            assert(line@ =~= strip_cr(piece@));
            assert(ls[i as int] == line@);
        }
        let ghost before = out@;
        out.push(crate::text::string_from_chars(&line));
        proof {
            assert(out@.map_values(|s: String| s@) =~= before.map_values(|s: String| s@).push(line@));
            assert(ls.take(i + 1) =~= ls.take(i as int).push(ls[i as int]));
        }
        i = i + 1;
    }
    let last = &pieces[body];
    proof {
        assert(pv[body as int] == last@);
        assert(pv.last() == last@);
    }
    if last.len() > 0 {
        let ghost before = out@;
        out.push(crate::text::string_from_chars(last));
        proof {
            assert(ls.len() == body + 1);
            assert(ls[body as int] == last@);
            assert(out@.map_values(|s: String| s@) =~= before.map_values(|s: String| s@).push(last@));
            assert(ls =~= ls.take(body as int).push(ls[body as int]));
        }
    } else {
        proof {
            assert(ls.len() == body);
            assert(ls =~= ls.take(body as int));
        }
    }
    out
}

/// Whether the last line number of an excerpt fits a machine word.
pub open spec fn excerpt_fits(source: Seq<char>, span: SourceSpan) -> bool {
    match byte_range_text(source, span.start_byte as int, span.end_byte as int) {
        Some(t) => span.start.line + lines_of(t).len() - 1 <= usize::MAX,
        None => true,
    }
}

/// The lines of a span's source, cut out by its byte range, numbered from
/// its start line; none where the range is no slice of the source or holds
/// no line.
pub fn source_for_span(source: &str, span: SourceSpan) -> (r: Option<HtmlSource>)
    requires
        excerpt_fits(source@, span),
    ensures
        match byte_range_text(source@, span.start_byte as int, span.end_byte as int) {
            None => r is None,
            Some(t) => if lines_of(t).len() == 0 {
                r is None
            } else {
                r matches Some(h) && h.start_line == span.start.line && h.start_column == span.start.column
                    && h.end_line == span.start.line + lines_of(t).len() - 1 && h.lines@.map_values(|s: String| s@)
                    == lines_of(t)
            },
        },
{
    let excerpt = match str_get(source, span.start_byte, span.end_byte) {
        Some(e) => e,
        None => {
            return None;
        },
    };
    proof {
        vstd::utf8::encode_utf8_decode_utf8(excerpt@);
        assert(byte_range_text(source@, span.start_byte as int, span.end_byte as int) == Some(excerpt@));
    }
    let lines = text_lines(excerpt.as_str());
    if lines.len() == 0 {
        return None;
    }
    let end_line = span.start.line + (lines.len() - 1);
    Some(HtmlSource { start_line: span.start.line, start_column: span.start.column, end_line, lines })
}

} // verus!
