//! Physical line counts: every line of a source file is source, comment or
//! blank. A line that holds any code or any part of a string literal is
//! source; otherwise a line that holds any part of a comment is a comment;
//! otherwise it is blank.

use vstd::prelude::*;

use crate::report::LanguageId;
use crate::text::text_eq;

verus! {

#[derive(Debug, Clone, Copy, PartialEq, Eq, Structural)]
pub struct LineCounts {
    pub files: usize,
    pub total: usize,
    pub source: usize,
    pub comment: usize,
    pub blank: usize,
}

pub open spec fn zero_counts() -> LineCounts {
    LineCounts { files: 0, total: 0, source: 0, comment: 0, blank: 0 }
}

pub open spec fn add_counts(a: LineCounts, b: LineCounts) -> LineCounts {
    LineCounts {
        files: (a.files + b.files) as usize,
        total: (a.total + b.total) as usize,
        source: (a.source + b.source) as usize,
        comment: (a.comment + b.comment) as usize,
        blank: (a.blank + b.blank) as usize,
    }
}

impl LineCounts {
    pub fn zero() -> (r: LineCounts)
        ensures
            r == zero_counts(),
    {
        LineCounts { files: 0, total: 0, source: 0, comment: 0, blank: 0 }
    }

    /// Adds another count field by field.
    pub fn add(&mut self, other: LineCounts)
        requires
            old(self).files + other.files <= usize::MAX,
            old(self).total + other.total <= usize::MAX,
            old(self).source + other.source <= usize::MAX,
            old(self).comment + other.comment <= usize::MAX,
            old(self).blank + other.blank <= usize::MAX,
        ensures
            *final(self) == add_counts(*old(self), other),
    {
        self.files = self.files + other.files;
        self.total = self.total + other.total;
        self.source = self.source + other.source;
        self.comment = self.comment + other.comment;
        self.blank = self.blank + other.blank;
    }
}

/// Line counts of a repository, overall and per language.
#[derive(Debug)]
pub struct RepositoryLineCounts {
    pub total: LineCounts,
    pub by_language: Vec<(LanguageId, LineCounts)>,
}

impl RepositoryLineCounts {
    pub fn empty() -> (r: RepositoryLineCounts)
        ensures
            r.total == zero_counts(),
            r.by_language.len() == 0,
    {
        RepositoryLineCounts { total: LineCounts::zero(), by_language: Vec::new() }
    }
}

#[derive(Debug, Clone, Copy, PartialEq, Eq, Structural)]
pub enum LineKind {
    Source,
    Comment,
    Blank,
}

pub open spec fn classify_line(source: bool, comment: bool) -> LineKind {
    if source {
        LineKind::Source
    } else if comment {
        LineKind::Comment
    } else {
        LineKind::Blank
    }
}

fn classify(source: bool, comment: bool) -> (k: LineKind)
    ensures
        k == classify_line(source, comment),
{
    if source {
        LineKind::Source
    } else if comment {
        LineKind::Comment
    } else {
        LineKind::Blank
    }
}

pub open spec fn is_space(c: u8) -> bool {
    c == 32 || c == 9 || c == 10 || c == 12 || c == 13
}

fn space(c: u8) -> (r: bool)
    ensures
        r == is_space(c),
{
    c == 32 || c == 9 || c == 10 || c == 12 || c == 13
}

/// `pat` occurs in `s` at position `i`.
pub open spec fn occurs_at(s: Seq<u8>, i: int, pat: Seq<u8>) -> bool {
    0 <= i && i + pat.len() <= s.len() && s.subrange(i, i + pat.len()) == pat
}

fn starts_at(s: &[u8], i: usize, pat: &[u8]) -> (r: bool)
    ensures
        r == occurs_at(s@, i as int, pat@),
{
    if i > s.len() || pat.len() > s.len() - i {
        return false;
    }
    let mut j: usize = 0;
    while j < pat.len()
        invariant
            i + pat.len() <= s.len(),
            j <= pat.len(),
            forall|k: int| 0 <= k < j ==> s@[i + k] == pat@[k],
        decreases pat.len() - j,
    {
        if s[i + j] != pat[j] {
            assert(s@.subrange(i as int, i + pat.len())[j as int] != pat@[j as int]);
            return false;
        }
        j = j + 1;
    }
    assert(s@.subrange(i as int, i + pat.len()) =~= pat@);
    true
}

// ---------------------------------------------------------------- Python

#[derive(Debug, Clone, Copy, PartialEq, Eq, Structural)]
pub enum PythonString {
    Single(u8),
    Triple(u8),
}

/// Scanner state carried from one Python line to the next.
#[derive(Debug, Clone, Copy, PartialEq, Eq, Structural)]
pub struct PythonState {
    pub string: Option<PythonString>,
    pub escaped: bool,
}

pub open spec fn triple(q: u8) -> Seq<u8> {
    seq![q, q, q]
}

/// The Python scanner from position `i` to the end of the line.
pub open spec fn python_scan(
    line: Seq<u8>,
    i: int,
    st: PythonState,
    source: bool,
    comment: bool,
) -> (LineKind, PythonState)
    decreases line.len() - i,
{
    if i < 0 || i >= line.len() {
        (classify_line(source, comment), st)
    } else {
        let c = line[i];
        match st.string {
            Some(PythonString::Triple(q)) => {
                if occurs_at(line, i, triple(q)) && !st.escaped {
                    python_scan(line, i + 3, PythonState { string: None, escaped: false }, true, comment)
                } else {
                    python_scan(
                        line,
                        i + 1,
                        PythonState { string: st.string, escaped: c == 92 && !st.escaped },
                        true,
                        comment,
                    )
                }
            },
            Some(PythonString::Single(q)) => {
                let next = if c == q && !st.escaped {
                    None
                } else {
                    st.string
                };
                python_scan(
                    line,
                    i + 1,
                    PythonState { string: next, escaped: c == 92 && !st.escaped },
                    true,
                    comment,
                )
            },
            None => {
                if is_space(c) {
                    python_scan(line, i + 1, st, source, comment)
                } else if c == 35 {
                    (classify_line(source, true), st)
                } else if c == 39 || c == 34 {
                    if occurs_at(line, i, triple(c)) {
                        python_scan(
                            line,
                            i + 3,
                            PythonState { string: Some(PythonString::Triple(c)), escaped: st.escaped },
                            true,
                            comment,
                        )
                    } else {
                        python_scan(
                            line,
                            i + 1,
                            PythonState { string: Some(PythonString::Single(c)), escaped: st.escaped },
                            true,
                            comment,
                        )
                    }
                } else {
                    python_scan(line, i + 1, st, true, comment)
                }
            },
        }
    }
}

/// Classifies one Python line and advances the scanner state.
pub fn classify_python_line(line: &[u8], state: &mut PythonState) -> (k: LineKind)
    ensures
        (k, *final(state)) == python_scan(line@, 0, *old(state), old(state).string is Some, false),
{
    let mut source = state.string.is_some();
    let mut comment = false;
    let mut index: usize = 0;
    let ghost start = *state;
    while index < line.len()
        invariant
            start == *old(state),
            python_scan(line@, 0, start, start.string is Some, false) == python_scan(
                line@,
                index as int,
                *state,
                source,
                comment,
            ),
        decreases line.len() - index,
    {
        let c = line[index];
        match state.string {
            Some(PythonString::Triple(q)) => {
                let t = [q, q, q];
                assert(t@ =~= triple(q));
                if starts_at(line, index, &t) && !state.escaped {
                    state.string = None;
                    state.escaped = false;
                    index = index + 3;
                } else {
                    state.escaped = c == 92 && !state.escaped;
                    index = index + 1;
                }
                source = true;
            },
            Some(PythonString::Single(q)) => {
                if c == q && !state.escaped {
                    state.string = None;
                }
                state.escaped = c == 92 && !state.escaped;
                index = index + 1;
                source = true;
            },
            None => {
                if space(c) {
                    index = index + 1;
                } else if c == 35 {
                    assert(python_scan(line@, index as int, *state, source, comment) == (
                        classify_line(source, true),
                        *state,
                    ));
                    comment = true;
                    return classify(source, comment);
                } else if c == 39 || c == 34 {
                    let t = [c, c, c];
                    assert(t@ =~= triple(c));
                    if starts_at(line, index, &t) {
                        state.string = Some(PythonString::Triple(c));
                        index = index + 3;
                    } else {
                        state.string = Some(PythonString::Single(c));
                        index = index + 1;
                    }
                    source = true;
                } else {
                    source = true;
                    index = index + 1;
                }
            },
        }
    }
    classify(source, comment)
}

// ---------------------------------------------------------------- C-like

/// An open string literal of a C-like language.
#[derive(Debug)]
pub enum CLikeString {
    Quoted(u8),
    Raw(Vec<u8>),
}

pub enum CStringView {
    Quoted(u8),
    Raw(Seq<u8>),
}

/// Scanner state carried from one C-like line to the next.
#[derive(Debug)]
pub struct CLikeState {
    pub block_comment_depth: usize,
    pub string: Option<CLikeString>,
    pub escaped: bool,
}

pub struct CStateView {
    pub depth: int,
    pub string: Option<CStringView>,
    pub escaped: bool,
}

pub open spec fn c_string_view(s: Option<CLikeString>) -> Option<CStringView> {
    match s {
        None => None,
        Some(CLikeString::Quoted(q)) => Some(CStringView::Quoted(q)),
        Some(CLikeString::Raw(t)) => Some(CStringView::Raw(t@)),
    }
}

impl CLikeState {
    pub open spec fn view_state(&self) -> CStateView {
        CStateView {
            depth: self.block_comment_depth as int,
            string: c_string_view(self.string),
            escaped: self.escaped,
        }
    }
}

pub open spec fn first_index_from(s: Seq<u8>, b: u8, i: int) -> Option<int>
    decreases s.len() - i,
{
    if i < 0 || i >= s.len() {
        None
    } else if s[i] == b {
        Some(i)
    } else {
        first_index_from(s, b, i + 1)
    }
}

/// The start of a raw string literal: Rust `r"`, `r#"`… or C++ `R"delim(`.
/// Gives the text that closes the literal and how many bytes the opening
/// takes.
pub open spec fn raw_start(s: Seq<u8>) -> Option<(Seq<u8>, int)> {
    if s.len() > 0 && s[0] == 114 {
        match first_index_from(s, 34, 0) {
            None => None,
            Some(q) => if forall|k: int| 0 <= k < q ==> s[k] == 114 || s[k] == 35 {
                Some((seq![34u8] + s.subrange(1, q), q + 1))
            } else {
                None
            },
        }
    } else if s.len() >= 2 && s[0] == 82 && s[1] == 34 {
        match first_index_from(s, 40, 2) {
            None => None,
            Some(p) => if p - 2 > 16 || exists|k: int|
                2 <= k < p && (is_space(s[k]) || s[k] == 40 || s[k] == 41) {
                None
            } else {
                Some((seq![41u8] + s.subrange(2, p) + seq![34u8], p + 1))
            },
        }
    } else {
        None
    }
}

fn first_index(s: &[u8], b: u8, from: usize) -> (r: Option<usize>)
    ensures
        match first_index_from(s@, b, from as int) {
            None => r is None,
            Some(i) => r == Some(i as usize),
        },
    decreases s.len() - from,
{
    if from >= s.len() {
        None
    } else if s[from] == b {
        Some(from)
    } else {
        first_index(s, b, from + 1)
    }
}

proof fn lemma_first_index_bounds(s: Seq<u8>, b: u8, i: int)
    ensures
        first_index_from(s, b, i) matches Some(k) ==> i <= k < s.len() && s[k] == b && forall|m: int|
            i <= m < k ==> s[m] != b,
    decreases s.len() - i,
{
    if 0 <= i < s.len() && s[i] != b {
        lemma_first_index_bounds(s, b, i + 1);
    }
}

/// Finds a raw string literal that starts at position `at`.
pub fn raw_string_start(line: &[u8], at: usize) -> (r: Option<(Vec<u8>, usize)>)
    requires
        at <= line.len(),
    ensures
        match raw_start(line@.subrange(at as int, line@.len() as int)) {
            None => r is None,
            Some((t, n)) => r matches Some((rt, rn)) && rt@ == t && rn as int == n,
        },
{
    let ghost s = line@.subrange(at as int, line@.len() as int);
    let n = line.len() - at;
    let mut rest: Vec<u8> = Vec::new();
    let mut i: usize = 0;
    while i < n
        invariant
            n == line.len() - at,
            s == line@.subrange(at as int, line@.len() as int),
            i <= n,
            rest@ == s.subrange(0, i as int),
        decreases n - i,
    {
        rest.push(line[at + i]);
        i = i + 1;
        assert(rest@ =~= s.subrange(0, i as int));
    }
    assert(rest@ =~= s);
    let bytes = rest.as_slice();
    if bytes.len() > 0 && bytes[0] == 114 {
        let quote = first_index(bytes, 34, 0);
        proof {
            lemma_first_index_bounds(s, 34, 0);
        }
        match quote {
            None => {
                return None;
            },
            Some(q) => {
                let mut k: usize = 0;
                while k < q
                    invariant
                        bytes@ == s,
                        s == line@.subrange(at as int, line@.len() as int),
                        q < s.len(),
                        k <= q,
                        s.len() > 0 && s[0] == 114,
                        first_index_from(s, 34, 0) == Some(q as int),
                        forall|m: int| 0 <= m < k ==> s[m] == 114 || s[m] == 35,
                    decreases q - k,
                {
                    if bytes[k] != 114 && bytes[k] != 35 {
                        assert(!(s[k as int] == 114 || s[k as int] == 35));
                        assert(first_index_from(s, 34, 0) == Some(q as int));
                        return None;
                    }
                    k = k + 1;
                }
                let mut terminator: Vec<u8> = Vec::new();
                terminator.push(34);
                let mut j: usize = 1;
                while j < q
                    invariant
                        bytes@ == s,
                        s == line@.subrange(at as int, line@.len() as int),
                        q < s.len(),
                        1 <= j <= q || (j == 1 && q == 0),
                        terminator@ == seq![34u8] + s.subrange(1, j as int),
                    decreases q - j,
                {
                    terminator.push(bytes[j]);
                    j = j + 1;
                    assert(terminator@ =~= seq![34u8] + s.subrange(1, j as int));
                }
                proof {
                    if q == 0 {
                        assert(s[0] == 114);
                    }
                }
                return Some((terminator, q + 1));
            },
        }
    }
    if bytes.len() >= 2 && bytes[0] == 82 && bytes[1] == 34 {
        let paren = first_index(bytes, 40, 2);
        proof {
            lemma_first_index_bounds(s, 40, 2);
        }
        match paren {
            None => {
                return None;
            },
            Some(p) => {
                if p - 2 > 16 {
                    assert(first_index_from(s, 40, 2) == Some(p as int));
                    return None;
                }
                let mut k: usize = 2;
                while k < p
                    invariant
                        bytes@ == s,
                        s == line@.subrange(at as int, line@.len() as int),
                        2 <= k <= p,
                        p < s.len(),
                        p - 2 <= 16,
                        !(s.len() > 0 && s[0] == 114),
                        s.len() >= 2 && s[0] == 82 && s[1] == 34,
                        first_index_from(s, 40, 2) == Some(p as int),
                        forall|m: int| 2 <= m < k ==> !(is_space(s[m]) || s[m] == 40 || s[m] == 41),
                    decreases p - k,
                {
                    if space(bytes[k]) || bytes[k] == 40 || bytes[k] == 41 {
                        assert(2 <= k < p && (is_space(s[k as int]) || s[k as int] == 40 || s[k as int] == 41));
                        assert(first_index_from(s, 40, 2) == Some(p as int));
                        return None;
                    }
                    k = k + 1;
                }
                let mut terminator: Vec<u8> = Vec::new();
                terminator.push(41);
                let mut j: usize = 2;
                while j < p
                    invariant
                        bytes@ == s,
                        s == line@.subrange(at as int, line@.len() as int),
                        2 <= j <= p,
                        p < s.len(),
                        terminator@ == seq![41u8] + s.subrange(2, j as int),
                    decreases p - j,
                {
                    terminator.push(bytes[j]);
                    j = j + 1;
                    assert(terminator@ =~= seq![41u8] + s.subrange(2, j as int));
                }
                terminator.push(34);
                assert(terminator@ =~= seq![41u8] + s.subrange(2, p as int) + seq![34u8]);
                return Some((terminator, p + 1));
            },
        }
    }
    None
}

pub open spec fn slash_slash() -> Seq<u8> {
    seq![47u8, 47u8]
}

pub open spec fn slash_star() -> Seq<u8> {
    seq![47u8, 42u8]
}

pub open spec fn star_slash() -> Seq<u8> {
    seq![42u8, 47u8]
}

/// The C-like scanner from position `i` to the end of the line.
pub open spec fn c_scan(line: Seq<u8>, i: int, st: CStateView, source: bool, comment: bool) -> (
    LineKind,
    CStateView,
)
    decreases line.len() - i,
{
    if i < 0 || i >= line.len() {
        (classify_line(source, comment), st)
    } else {
        let c = line[i];
        match st.string {
            Some(CStringView::Quoted(q)) => {
                let next = if c == q && !st.escaped {
                    None
                } else {
                    st.string
                };
                c_scan(
                    line,
                    i + 1,
                    CStateView { depth: st.depth, string: next, escaped: c == 92 && !st.escaped },
                    true,
                    comment,
                )
            },
            Some(CStringView::Raw(t)) => {
                if occurs_at(line, i, t) && t.len() > 0 {
                    c_scan(
                        line,
                        i + t.len(),
                        CStateView { depth: st.depth, string: None, escaped: st.escaped },
                        true,
                        comment,
                    )
                } else {
                    c_scan(line, i + 1, st, true, comment)
                }
            },
            None => {
                if st.depth > 0 {
                    if occurs_at(line, i, slash_star()) {
                        c_scan(
                            line,
                            i + 2,
                            CStateView { depth: st.depth + 1, string: None, escaped: st.escaped },
                            source,
                            true,
                        )
                    } else if occurs_at(line, i, star_slash()) {
                        c_scan(
                            line,
                            i + 2,
                            CStateView { depth: st.depth - 1, string: None, escaped: st.escaped },
                            source,
                            true,
                        )
                    } else {
                        c_scan(line, i + 1, st, source, true)
                    }
                } else if is_space(c) {
                    c_scan(line, i + 1, st, source, comment)
                } else if occurs_at(line, i, slash_slash()) {
                    (classify_line(source, true), st)
                } else if occurs_at(line, i, slash_star()) {
                    c_scan(
                        line,
                        i + 2,
                        CStateView { depth: 1, string: None, escaped: st.escaped },
                        source,
                        true,
                    )
                } else {
                    match raw_start(line.subrange(i, line.len() as int)) {
                        Some((t, n)) => {
                            proof {
                                lemma_raw_start_bounds(line.subrange(i, line.len() as int));
                            }
                            c_scan(
                            line,
                            i + n,
                            CStateView {
                                depth: st.depth,
                                string: Some(CStringView::Raw(t)),
                                escaped: st.escaped,
                            },
                            true,
                            comment,
                        )
                        },
                        None => if c == 34 || c == 39 {
                            c_scan(
                                line,
                                i + 1,
                                CStateView {
                                    depth: st.depth,
                                    string: Some(CStringView::Quoted(c)),
                                    escaped: false,
                                },
                                true,
                                comment,
                            )
                        } else {
                            c_scan(line, i + 1, st, true, comment)
                        },
                    }
                }
            },
        }
    }
}

/// A raw string opening that is found has a delimiter and lies within the line.
pub proof fn lemma_raw_start_bounds(s: Seq<u8>)
    ensures
        raw_start(s) matches Some((t, n)) ==> 1 <= n <= s.len() && t.len() >= 1,
{
    lemma_first_index_bounds(s, 34, 0);
    lemma_first_index_bounds(s, 40, 2);
}

/// Classifies one line of a C-like language and advances the scanner state.
pub fn classify_c_like_line(line: &[u8], state: &mut CLikeState) -> (k: LineKind)
    requires
        old(state).block_comment_depth + line.len() <= usize::MAX,
    ensures
        (k, final(state).view_state()) == c_scan(
            line@,
            0,
            old(state).view_state(),
            old(state).string is Some,
            old(state).block_comment_depth > 0,
        ),
        final(state).block_comment_depth <= old(state).block_comment_depth + line.len(),
{
    let mut source = state.string.is_some();
    let mut comment = state.block_comment_depth > 0;
    let mut index: usize = 0;
    let ghost start = state.view_state();
    let ghost d0 = state.block_comment_depth as int;
    let ghost src0 = state.string is Some;
    let ghost com0 = state.block_comment_depth > 0;
    while index < line.len()
        invariant
            start == old(state).view_state(),
            src0 == (old(state).string is Some),
            com0 == (old(state).block_comment_depth > 0),
            c_scan(line@, 0, start, src0, com0) == c_scan(
                line@,
                index as int,
                state.view_state(),
                source,
                comment,
            ),
            state.block_comment_depth <= d0 + index,
            d0 + line.len() <= usize::MAX,
            index <= line.len(),
        decreases line.len() - index,
    {
        let c = line[index];
        let mut close_quote = false;
        let mut raw_len: usize = 0;
        let mut raw_hit = false;
        let mut in_string = false;
        let mut quoted = false;
        match &state.string {
            Some(CLikeString::Quoted(q)) => {
                in_string = true;
                quoted = true;
                close_quote = c == *q && !state.escaped;
            },
            Some(CLikeString::Raw(t)) => {
                in_string = true;
                raw_hit = t.len() > 0 && starts_at(line, index, t.as_slice());
                raw_len = t.len();
            },
            None => {},
        }
        if in_string {
            if quoted {
                if close_quote {
                    state.string = None;
                }
                state.escaped = c == 92 && !state.escaped;
                index = index + 1;
            } else if raw_hit {
                state.string = None;
                index = index + raw_len;
            } else {
                index = index + 1;
            }
            source = true;
        } else if state.block_comment_depth > 0 {
            comment = true;
            if starts_at(line, index, &[47u8, 42u8]) {
                assert([47u8, 42u8]@ =~= slash_star());
                state.block_comment_depth = state.block_comment_depth + 1;
                index = index + 2;
            } else if starts_at(line, index, &[42u8, 47u8]) {
                assert([42u8, 47u8]@ =~= star_slash());
                assert([47u8, 42u8]@ =~= slash_star());
                state.block_comment_depth = state.block_comment_depth - 1;
                index = index + 2;
            } else {
                assert([42u8, 47u8]@ =~= star_slash());
                assert([47u8, 42u8]@ =~= slash_star());
                index = index + 1;
            }
        } else if space(c) {
            index = index + 1;
        } else if starts_at(line, index, &[47u8, 47u8]) {
            assert([47u8, 47u8]@ =~= slash_slash());
            assert(c_scan(line@, index as int, state.view_state(), source, comment) == (
                classify_line(source, true),
                state.view_state(),
            ));
            comment = true;
            return classify(source, comment);
        } else if starts_at(line, index, &[47u8, 42u8]) {
            assert([47u8, 47u8]@ =~= slash_slash());
            assert([47u8, 42u8]@ =~= slash_star());
            comment = true;
            state.block_comment_depth = 1;
            index = index + 2;
        } else {
            assert([47u8, 47u8]@ =~= slash_slash());
            assert([47u8, 42u8]@ =~= slash_star());
            match raw_string_start(line, index) {
                Some((terminator, consumed)) => {
                    proof {
                        lemma_raw_start_bounds(line@.subrange(index as int, line@.len() as int));
                    }
                    state.string = Some(CLikeString::Raw(terminator));
                    index = index + consumed;
                    source = true;
                },
                None => {
                    if c == 34 || c == 39 {
                        state.string = Some(CLikeString::Quoted(c));
                        state.escaped = false;
                    }
                    source = true;
                    index = index + 1;
                },
            }
        }
    }
    classify(source, comment)
}

// ---------------------------------------------------------------- files

/// Index just past the end of the physical line that starts at `start`:
/// past its newline, or the end of the input.
pub open spec fn line_end(b: Seq<u8>, start: int) -> int
    decreases b.len() - start,
{
    if start < 0 || start >= b.len() {
        b.len() as int
    } else if b[start] == 10 {
        start + 1
    } else {
        line_end(b, start + 1)
    }
}

/// The end of a line lies after its start and within the text.
pub proof fn lemma_line_end(b: Seq<u8>, start: int)
    requires
        0 <= start < b.len(),
    ensures
        start < line_end(b, start) <= b.len(),
    decreases b.len() - start,
{
    if b[start] != 10 {
        if start + 1 < b.len() {
            lemma_line_end(b, start + 1);
        } else {
            assert(line_end(b, start + 1) == b.len());
        }
    }
}

/// The number of physical lines from `start` on.
pub open spec fn physical_line_count(b: Seq<u8>, start: int) -> nat
    decreases b.len() - start,
{
    if start < 0 || start >= b.len() {
        0
    } else {
        proof {
            lemma_line_end(b, start);
        }
        1 + physical_line_count(b, line_end(b, start))
    }
}

/// Line totals as natural numbers.
pub struct LineTally {
    pub total: nat,
    pub source: nat,
    pub comment: nat,
    pub blank: nat,
}

pub open spec fn zero_tally() -> LineTally {
    LineTally { total: 0, source: 0, comment: 0, blank: 0 }
}

pub open spec fn add_tally(a: LineTally, b: LineTally) -> LineTally {
    LineTally {
        total: a.total + b.total,
        source: a.source + b.source,
        comment: a.comment + b.comment,
        blank: a.blank + b.blank,
    }
}

pub open spec fn one_line(k: LineKind) -> LineTally {
    LineTally {
        total: 1,
        source: if k == LineKind::Source { 1 } else { 0 },
        comment: if k == LineKind::Comment { 1 } else { 0 },
        blank: if k == LineKind::Blank { 1 } else { 0 },
    }
}

/// Counts of the Python lines from `start` on.
pub open spec fn python_counts(b: Seq<u8>, start: int, st: PythonState) -> LineTally
    decreases b.len() - start,
{
    if start < 0 || start >= b.len() {
        zero_tally()
    } else {
        proof {
            lemma_line_end(b, start);
        }
        let end = line_end(b, start);
        let (k, next) = python_scan(b.subrange(start, end), 0, st, st.string is Some, false);
        add_tally(one_line(k), python_counts(b, end, next))
    }
}

/// Counts of the C-like lines from `start` on.
pub open spec fn c_counts(b: Seq<u8>, start: int, st: CStateView) -> LineTally
    decreases b.len() - start,
{
    if start < 0 || start >= b.len() {
        zero_tally()
    } else {
        proof {
            lemma_line_end(b, start);
        }
        let end = line_end(b, start);
        let (k, next) = c_scan(b.subrange(start, end), 0, st, st.string is Some, st.depth > 0);
        add_tally(one_line(k), c_counts(b, end, next))
    }
}

pub open spec fn initial_c_state() -> CStateView {
    CStateView { depth: 0, string: None, escaped: false }
}

pub open spec fn initial_python_state() -> PythonState {
    PythonState { string: None, escaped: false }
}

/// The line counts of one file: Python when the language is `python`,
/// C-like otherwise.
pub open spec fn file_counts(b: Seq<u8>, language: Seq<char>) -> LineTally {
    if language == "python"@ {
        python_counts(b, 0, initial_python_state())
    } else {
        c_counts(b, 0, initial_c_state())
    }
}

/// The line counts of the physical lines from `start` on add up, and there
/// is one per physical line.
proof fn lemma_python_counts_shape(b: Seq<u8>, start: int, st: PythonState)
    ensures
        python_counts(b, start, st).total == physical_line_count(b, start),
        python_counts(b, start, st).total == python_counts(b, start, st).source + python_counts(
            b,
            start,
            st,
        ).comment + python_counts(b, start, st).blank,
    decreases b.len() - start,
{
    if 0 <= start < b.len() {
        lemma_line_end(b, start);
        let end = line_end(b, start);
        let (k, next) = python_scan(b.subrange(start, end), 0, st, st.string is Some, false);
        lemma_python_counts_shape(b, end, next);
    }
}

proof fn lemma_c_counts_shape(b: Seq<u8>, start: int, st: CStateView)
    ensures
        c_counts(b, start, st).total == physical_line_count(b, start),
        c_counts(b, start, st).total == c_counts(b, start, st).source + c_counts(
            b,
            start,
            st,
        ).comment + c_counts(b, start, st).blank,
    decreases b.len() - start,
{
    if 0 <= start < b.len() {
        lemma_line_end(b, start);
        let end = line_end(b, start);
        let (k, next) = c_scan(b.subrange(start, end), 0, st, st.string is Some, st.depth > 0);
        lemma_c_counts_shape(b, end, next);
    }
}

proof fn lemma_physical_line_count_bound(b: Seq<u8>, start: int)
    requires
        0 <= start <= b.len(),
    ensures
        physical_line_count(b, start) <= b.len() - start,
    decreases b.len() - start,
{
    if start < b.len() {
        lemma_line_end(b, start);
        lemma_physical_line_count_bound(b, line_end(b, start));
    }
}

fn find_line_end(bytes: &[u8], start: usize) -> (end: usize)
    requires
        start < bytes.len(),
    ensures
        end as int == line_end(bytes@, start as int),
    decreases bytes.len() - start,
{
    if bytes[start] == 10 {
        start + 1
    } else if start + 1 >= bytes.len() {
        assert(line_end(bytes@, start + 1) == bytes@.len());
        bytes.len()
    } else {
        find_line_end(bytes, start + 1)
    }
}

fn copy_range(bytes: &[u8], start: usize, end: usize) -> (out: Vec<u8>)
    requires
        start <= end <= bytes.len(),
    ensures
        out@ == bytes@.subrange(start as int, end as int),
{
    let mut out: Vec<u8> = Vec::new();
    let mut i = start;
    while i < end
        invariant
            start <= i <= end,
            end <= bytes.len(),
            out@ == bytes@.subrange(start as int, i as int),
        decreases end - i,
    {
        out.push(bytes[i]);
        i = i + 1;
        assert(out@ =~= bytes@.subrange(start as int, i as int));
    }
    out
}

pub open spec fn tally_of(c: LineCounts) -> LineTally {
    LineTally {
        total: c.total as nat,
        source: c.source as nat,
        comment: c.comment as nat,
        blank: c.blank as nat,
    }
}

fn count_one(counts: &mut LineCounts, k: LineKind)
    requires
        old(counts).total < usize::MAX,
        old(counts).source < usize::MAX,
        old(counts).comment < usize::MAX,
        old(counts).blank < usize::MAX,
    ensures
        tally_of(*final(counts)) == add_tally(tally_of(*old(counts)), one_line(k)),
        final(counts).files == old(counts).files,
{
    counts.total = counts.total + 1;
    match k {
        LineKind::Source => counts.source = counts.source + 1,
        LineKind::Comment => counts.comment = counts.comment + 1,
        LineKind::Blank => counts.blank = counts.blank + 1,
    }
}

/// Counts the physical lines of one file by kind.
pub fn count_file(bytes: &[u8], language: &str) -> (counts: LineCounts)
    ensures
        tally_of(counts) == file_counts(bytes@, language@),
        counts.files == 1,
        counts.total == physical_line_count(bytes@, 0),
        counts.total == counts.source + counts.comment + counts.blank,
{
    let python = text_eq(language, "python");
    let mut counts = LineCounts { files: 1, total: 0, source: 0, comment: 0, blank: 0 };
    let mut start: usize = 0;
    let mut py_state = PythonState { string: None, escaped: false };
    let mut c_state = CLikeState { block_comment_depth: 0, string: None, escaped: false };
    let ghost b = bytes@;
    proof {
        lemma_python_counts_shape(b, 0, initial_python_state());
        lemma_c_counts_shape(b, 0, initial_c_state());
        lemma_physical_line_count_bound(b, 0);
    }
    while start < bytes.len()
        invariant
            b == bytes@,
            start <= bytes.len(),
            counts.files == 1,
            counts.total == counts.source + counts.comment + counts.blank,
            counts.total + physical_line_count(b, start as int) == physical_line_count(b, 0),
            physical_line_count(b, start as int) <= b.len() - start,
            physical_line_count(b, 0) <= b.len(),
            c_state.block_comment_depth <= start,
            python ==> file_counts(b, language@) == add_tally(
                tally_of(counts),
                python_counts(b, start as int, py_state),
            ),
            !python ==> file_counts(b, language@) == add_tally(
                tally_of(counts),
                c_counts(b, start as int, c_state.view_state()),
            ),
            python == (language@ == "python"@),
        decreases bytes.len() - start,
    {
        let end = find_line_end(bytes, start);
        proof {
            lemma_line_end(b, start as int);
            lemma_physical_line_count_bound(b, end as int);
            lemma_python_counts_shape(b, end as int, py_state);
        }
        let line = copy_range(bytes, start, end);
        let kind = if python {
            classify_python_line(line.as_slice(), &mut py_state)
        } else {
            classify_c_like_line(line.as_slice(), &mut c_state)
        };
        count_one(&mut counts, kind);
        start = end;
    }
    counts
}


/// ASCII white space: space, tab, line feed, form feed and carriage return.
pub open spec fn ascii_white(c: u8) -> bool {
    c == 32 || c == 9 || c == 10 || c == 12 || c == 13
}

proof fn lemma_python_blank_run_then_hash(line: Seq<u8>, n: int, st: PythonState, i: int)
    requires
        st.string is None,
        0 <= i <= n < line.len(),
        line[n] == 35,
        forall|k: int| 0 <= k < n ==> ascii_white(#[trigger] line[k]),
    ensures
        python_scan(line, i, st, false, false) == (LineKind::Comment, st),
    decreases n - i,
{
    if i < n {
        assert(ascii_white(line[i]));
        lemma_python_blank_run_then_hash(line, n, st, i + 1);
    }
}

/// Outside a string, a Python line made of ASCII white space, then `#`,
/// then anything, is a comment line, and the scanner state is unchanged:
/// indentation never turns a comment into code.
pub proof fn lemma_python_indented_comment(ws: Seq<u8>, rest: Seq<u8>, st: PythonState)
    requires
        st.string is None,
        forall|k: int| 0 <= k < ws.len() ==> ascii_white(#[trigger] ws[k]),
    ensures
        python_scan(ws + seq![35u8] + rest, 0, st, false, false) == (LineKind::Comment, st),
{
    let line = ws + seq![35u8] + rest;
    assert forall|k: int| 0 <= k < ws.len() implies ascii_white(#[trigger] line[k]) by {
        assert(line[k] == ws[k]);
    }
    assert(line[ws.len() as int] == 35);
    lemma_python_blank_run_then_hash(line, ws.len() as int, st, 0);
}

proof fn lemma_c_blank_run_then_slashes(line: Seq<u8>, n: int, st: CStateView, i: int)
    requires
        st.string is None,
        st.depth == 0,
        0 <= i <= n,
        n + 2 <= line.len(),
        line[n] == 47,
        line[n + 1] == 47,
        forall|k: int| 0 <= k < n ==> ascii_white(#[trigger] line[k]),
    ensures
        c_scan(line, i, st, false, false) == (LineKind::Comment, st),
    decreases n - i,
{
    if i < n {
        assert(ascii_white(line[i]));
        lemma_c_blank_run_then_slashes(line, n, st, i + 1);
    } else {
        assert(line.subrange(n, n + 2) =~= slash_slash());
        assert(occurs_at(line, n, slash_slash()));
    }
}

/// Outside strings and block comments, a C-like line made of ASCII white
/// space, then `//`, then anything, is a comment line, never a source line,
/// and the scanner state is unchanged.
pub proof fn lemma_c_line_comment(ws: Seq<u8>, rest: Seq<u8>, st: CStateView)
    requires
        st.string is None,
        st.depth == 0,
        forall|k: int| 0 <= k < ws.len() ==> ascii_white(#[trigger] ws[k]),
    ensures
        c_scan(ws + seq![47u8, 47u8] + rest, 0, st, false, false) == (LineKind::Comment, st),
{
    let line = ws + seq![47u8, 47u8] + rest;
    assert forall|k: int| 0 <= k < ws.len() implies ascii_white(#[trigger] line[k]) by {
        assert(line[k] == ws[k]);
    }
    assert(line[ws.len() as int] == 47);
    assert(line[ws.len() as int + 1] == 47);
    lemma_c_blank_run_then_slashes(line, ws.len() as int, st, 0);
}


/// Once a Python line has shown code, nothing later on it makes it a
/// comment or blank line.
proof fn lemma_python_source_sticks(line: Seq<u8>, i: int, st: PythonState, comment: bool)
    ensures
        python_scan(line, i, st, true, comment).0 == LineKind::Source,
    decreases line.len() - i,
{
    if 0 <= i < line.len() {
        let c = line[i];
        match st.string {
            Some(PythonString::Triple(q)) => {
                if occurs_at(line, i, triple(q)) && !st.escaped {
                    lemma_python_source_sticks(line, i + 3, PythonState { string: None, escaped: false }, comment);
                } else {
                    lemma_python_source_sticks(
                        line,
                        i + 1,
                        PythonState { string: st.string, escaped: c == 92 && !st.escaped },
                        comment,
                    );
                }
            },
            Some(PythonString::Single(q)) => {
                let next = if c == q && !st.escaped {
                    None
                } else {
                    st.string
                };
                lemma_python_source_sticks(line, i + 1, PythonState { string: next, escaped: c == 92 && !st.escaped }, comment);
            },
            None => {
                if is_space(c) {
                    lemma_python_source_sticks(line, i + 1, st, comment);
                } else if c == 35 {
                } else if c == 39 || c == 34 {
                    if occurs_at(line, i, triple(c)) {
                        lemma_python_source_sticks(
                            line,
                            i + 3,
                            PythonState { string: Some(PythonString::Triple(c)), escaped: st.escaped },
                            comment,
                        );
                    } else {
                        lemma_python_source_sticks(
                            line,
                            i + 1,
                            PythonState { string: Some(PythonString::Single(c)), escaped: st.escaped },
                            comment,
                        );
                    }
                } else {
                    lemma_python_source_sticks(line, i + 1, st, comment);
                }
            },
        }
    }
}

proof fn lemma_python_white_run(line: Seq<u8>, n: int, st: PythonState, i: int)
    requires
        st.string is None,
        0 <= i <= n <= line.len(),
        forall|k: int| 0 <= k < n ==> ascii_white(#[trigger] line[k]),
    ensures
        python_scan(line, i, st, false, false) == python_scan(line, n, st, false, false),
    decreases n - i,
{
    if i < n {
        assert(ascii_white(line[i]));
        lemma_python_white_run(line, n, st, i + 1);
    }
}

/// Outside a string, a Python line whose first character after ASCII white
/// space is anything but `#` is a source line, whatever follows; a line of
/// ASCII white space only is blank; a line that starts inside a string is
/// a source line.
pub proof fn lemma_python_line_kinds(ws: Seq<u8>, c: u8, rest: Seq<u8>, st: PythonState)
    requires
        forall|k: int| 0 <= k < ws.len() ==> ascii_white(#[trigger] ws[k]),
    ensures
        st.string is None && !ascii_white(c) && c != 35 ==> python_scan(ws + seq![c] + rest, 0, st, false, false).0
            == LineKind::Source,
        st.string is None ==> python_scan(ws, 0, st, false, false) == (LineKind::Blank, st),
        st.string is Some ==> python_scan(ws + seq![c] + rest, 0, st, true, false).0 == LineKind::Source,
{
    let line = ws + seq![c] + rest;
    lemma_python_source_sticks(line, 0, st, false);
    if st.string is None {
        assert forall|k: int| 0 <= k < ws.len() implies ascii_white(#[trigger] line[k]) by {
            assert(line[k] == ws[k]);
        }
        lemma_python_white_run(line, ws.len() as int, st, 0);
        lemma_python_white_run(ws, ws.len() as int, st, 0);
        if !ascii_white(c) && c != 35 {
            let i = ws.len() as int;
            assert(line[i] == c);
            if c == 39 || c == 34 {
                if occurs_at(line, i, triple(c)) {
                    lemma_python_source_sticks(line, i + 3, PythonState { string: Some(PythonString::Triple(c)), escaped: st.escaped }, false);
                } else {
                    lemma_python_source_sticks(line, i + 1, PythonState { string: Some(PythonString::Single(c)), escaped: st.escaped }, false);
                }
            } else {
                lemma_python_source_sticks(line, i + 1, st, false);
            }
        }
    }
}

/// Once a C-like line has shown code, nothing later on it makes it a
/// comment or blank line.
proof fn lemma_c_source_sticks(line: Seq<u8>, i: int, st: CStateView, comment: bool)
    ensures
        c_scan(line, i, st, true, comment).0 == LineKind::Source,
    decreases line.len() - i,
{
    if 0 <= i < line.len() {
        let c = line[i];
        match st.string {
            Some(CStringView::Quoted(q)) => {
                let next = if c == q && !st.escaped {
                    None
                } else {
                    st.string
                };
                lemma_c_source_sticks(line, i + 1, CStateView { depth: st.depth, string: next, escaped: c == 92 && !st.escaped }, comment);
            },
            Some(CStringView::Raw(t)) => {
                if occurs_at(line, i, t) && t.len() > 0 {
                    lemma_c_source_sticks(line, i + t.len(), CStateView { depth: st.depth, string: None, escaped: st.escaped }, comment);
                } else {
                    lemma_c_source_sticks(line, i + 1, st, comment);
                }
            },
            None => {
                if st.depth > 0 {
                    if occurs_at(line, i, slash_star()) {
                        lemma_c_source_sticks(line, i + 2, CStateView { depth: st.depth + 1, string: None, escaped: st.escaped }, true);
                    } else if occurs_at(line, i, star_slash()) {
                        lemma_c_source_sticks(line, i + 2, CStateView { depth: st.depth - 1, string: None, escaped: st.escaped }, true);
                    } else {
                        lemma_c_source_sticks(line, i + 1, st, true);
                    }
                } else if is_space(c) {
                    lemma_c_source_sticks(line, i + 1, st, comment);
                } else if occurs_at(line, i, slash_slash()) {
                } else if occurs_at(line, i, slash_star()) {
                    lemma_c_source_sticks(line, i + 2, CStateView { depth: 1, string: None, escaped: st.escaped }, true);
                } else {
                    match raw_start(line.subrange(i, line.len() as int)) {
                        Some((t, n)) => {
                            lemma_raw_start_bounds(line.subrange(i, line.len() as int));
                            lemma_c_source_sticks(line, i + n, CStateView { depth: st.depth, string: Some(CStringView::Raw(t)), escaped: st.escaped }, comment);
                        },
                        None => if c == 34 || c == 39 {
                            lemma_c_source_sticks(line, i + 1, CStateView { depth: st.depth, string: Some(CStringView::Quoted(c)), escaped: false }, comment);
                        } else {
                            lemma_c_source_sticks(line, i + 1, st, comment);
                        },
                    }
                }
            },
        }
    }
}

proof fn lemma_c_white_run(line: Seq<u8>, n: int, st: CStateView, i: int)
    requires
        st.string is None,
        st.depth == 0,
        0 <= i <= n <= line.len(),
        forall|k: int| 0 <= k < n ==> ascii_white(#[trigger] line[k]),
    ensures
        c_scan(line, i, st, false, false) == c_scan(line, n, st, false, false),
    decreases n - i,
{
    if i < n {
        assert(ascii_white(line[i]));
        lemma_c_white_run(line, n, st, i + 1);
    }
}

/// Outside strings and block comments, a C-like line whose first
/// character after ASCII white space is anything but `/` is a source line,
/// whatever follows; a line of ASCII white space only is blank; a line
/// that starts inside a string is a source line.
pub proof fn lemma_c_line_kinds(ws: Seq<u8>, c: u8, rest: Seq<u8>, st: CStateView)
    requires
        forall|k: int| 0 <= k < ws.len() ==> ascii_white(#[trigger] ws[k]),
    ensures
        st.string is None && st.depth == 0 && !ascii_white(c) && c != 47 ==> c_scan(ws + seq![c] + rest, 0, st, false, false).0
            == LineKind::Source,
        st.string is None && st.depth == 0 ==> c_scan(ws, 0, st, false, false) == (LineKind::Blank, st),
        st.string is Some ==> c_scan(ws + seq![c] + rest, 0, st, true, st.depth > 0).0 == LineKind::Source,
{
    let line = ws + seq![c] + rest;
    lemma_c_source_sticks(line, 0, st, st.depth > 0);
    if st.string is None && st.depth == 0 {
        assert forall|k: int| 0 <= k < ws.len() implies ascii_white(#[trigger] line[k]) by {
            assert(line[k] == ws[k]);
        }
        lemma_c_white_run(line, ws.len() as int, st, 0);
        lemma_c_white_run(ws, ws.len() as int, st, 0);
        if !ascii_white(c) && c != 47 {
            let i = ws.len() as int;
            assert(line[i] == c);
            assert(!occurs_at(line, i, slash_slash()));
            assert(!occurs_at(line, i, slash_star()));
            match raw_start(line.subrange(i, line.len() as int)) {
                Some((t, n)) => {
                    lemma_raw_start_bounds(line.subrange(i, line.len() as int));
                    lemma_c_source_sticks(line, i + n, CStateView { depth: st.depth, string: Some(CStringView::Raw(t)), escaped: st.escaped }, false);
                },
                None => if c == 34 || c == 39 {
                    lemma_c_source_sticks(line, i + 1, CStateView { depth: st.depth, string: Some(CStringView::Quoted(c)), escaped: false }, false);
                } else {
                    lemma_c_source_sticks(line, i + 1, st, false);
                },
            }
        }
    }
}

} // verus!
