use vstd::prelude::*;

use crate::text::{lemma_chars_dv, lemma_dv_index, sorted_dedup, strictly_sorted, to_char_vec, chars_to_string};

verus! {

// ---------------------------------------------------------------------------
// Character classes
// ---------------------------------------------------------------------------
/// ASCII whitespace, as the extraction patterns understand it.
pub open spec fn is_ws(c: char) -> bool {
    c == ' ' || c == '\t' || c == '\n' || c == '\r' || c == '\u{000B}' || c == '\u{000C}'
}

/// A word character: a letter, a digit or an underscore. Word boundaries of
/// the extraction patterns are defined against this class.
pub open spec fn is_word(c: char) -> bool {
    ('0' <= c && c <= '9') || ('A' <= c && c <= 'Z') || ('a' <= c && c <= 'z') || c == '_'
}

/// A quote character that may delimit a module specifier.
pub open spec fn is_quote(c: char) -> bool {
    c == '\'' || c == '"' || c == '`'
}

fn is_ws_exec(c: char) -> (r: bool)
    ensures
        r == is_ws(c),
{
    c == ' ' || c == '\t' || c == '\n' || c == '\r' || c == '\u{000B}' || c == '\u{000C}'
}

fn is_word_exec(c: char) -> (r: bool)
    ensures
        r == is_word(c),
{
    ('0' <= c && c <= '9') || ('A' <= c && c <= 'Z') || ('a' <= c && c <= 'z') || c == '_'
}

fn is_quote_exec(c: char) -> (r: bool)
    ensures
        r == is_quote(c),
{
    c == '\'' || c == '"' || c == '`'
}

// ---------------------------------------------------------------------------
// Stripping line comments: text from `//` to the end of its line is removed.
// ---------------------------------------------------------------------------
/// One left-to-right pass over the text. While `in_comment` holds, characters
/// up to (but not including) the next newline are dropped.
pub open spec fn line_strip(s: Seq<char>, in_comment: bool) -> Seq<char>
    decreases s.len(),
{
    if s.len() == 0 {
        Seq::empty()
    } else if in_comment {
        if s[0] == '\n' {
            seq!['\n'] + line_strip(s.drop_first(), false)
        } else {
            line_strip(s.drop_first(), true)
        }
    } else if s.len() >= 2 && s[0] == '/' && s[1] == '/' {
        line_strip(s.skip(2), true)
    } else {
        seq![s[0]] + line_strip(s.drop_first(), false)
    }
}

/// The text with every line comment removed.
pub open spec fn strip_line_comments(s: Seq<char>) -> Seq<char> {
    line_strip(s, false)
}

fn strip_line_comments_exec(s: &Vec<char>) -> (out: Vec<char>)
    ensures
        out@ == strip_line_comments(s@),
{
    let mut out: Vec<char> = Vec::new();
    let mut i: usize = 0;
    let mut in_comment: bool = false;
    proof {
        assert(s@.skip(0) =~= s@);
    }
    while i < s.len()
        invariant
            i <= s@.len(),
            line_strip(s@, false) == out@ + line_strip(s@.skip(i as int), in_comment),
        decreases s@.len() - i,
    {
        let ghost rem = s@.skip(i as int);
        proof {
            assert(rem[0] == s@[i as int]);
            if i + 1 < s@.len() {
                assert(rem[1] == s@[i as int + 1]);
            }
            assert(rem.drop_first() =~= s@.skip(i as int + 1));
            if i + 2 <= s@.len() {
                assert(rem.skip(2) =~= s@.skip(i as int + 2));
            }
        }
        let c = s[i];
        if in_comment {
            if c == '\n' {
                out.push('\n');
                proof {
                    assert(out@.drop_last() + (seq!['\n'] + line_strip(
                        s@.skip(i as int + 1),
                        false,
                    )) =~= out@ + line_strip(s@.skip(i as int + 1), false));
                }
                in_comment = false;
            }
            i += 1;
        } else if c == '/' && i + 1 < s.len() && s[i + 1] == '/' {
            i += 2;
            in_comment = true;
        } else {
            out.push(c);
            proof {
                assert(out@.drop_last() + (seq![c] + line_strip(s@.skip(i as int + 1), false))
                    =~= out@ + line_strip(s@.skip(i as int + 1), false));
            }
            i += 1;
        }
    }
    proof {
        assert(s@.skip(i as int) =~= Seq::<char>::empty());
        assert(out@ + line_strip(Seq::<char>::empty(), in_comment) =~= out@);
    }
    out
}

// ---------------------------------------------------------------------------
// Stripping block comments: each `/*`, together with everything up to and
// including the next `*/`, is removed. A `/*` with no later `*/` stays.
// ---------------------------------------------------------------------------
/// The first index at or after `j` where `*/` starts, or -1 if there is none.
pub open spec fn find_close(s: Seq<char>, j: int) -> int
    decreases s.len() - j,
{
    if j < 0 || j + 2 > s.len() {
        -1
    } else if s[j] == '*' && s[j + 1] == '/' {
        j
    } else {
        find_close(s, j + 1)
    }
}

pub proof fn lemma_find_close(s: Seq<char>, j: int)
    requires
        0 <= j,
    ensures
        find_close(s, j) == -1 ==> forall|k: int|
            j <= k && k + 2 <= s.len() ==> !((#[trigger] s[k]) == '*' && s[k + 1] == '/'),
        find_close(s, j) != -1 ==> {
            &&& j <= find_close(s, j)
            &&& find_close(s, j) + 2 <= s.len()
            &&& s[find_close(s, j)] == '*'
            &&& s[find_close(s, j) + 1] == '/'
            &&& forall|k: int|
                j <= k < find_close(s, j) ==> !((#[trigger] s[k]) == '*' && s[k + 1] == '/')
        },
    decreases s.len() - j,
{
    if j + 2 > s.len() {
    } else if s[j] == '*' && s[j + 1] == '/' {
    } else {
        lemma_find_close(s, j + 1);
    }
}

/// One pass removing every closed block comment.
pub open spec fn block_strip(s: Seq<char>) -> Seq<char>
    decreases s.len(),
    via block_strip_decreases
{
    if s.len() == 0 {
        Seq::empty()
    } else if s.len() >= 2 && s[0] == '/' && s[1] == '*' && find_close(s, 2) >= 0 {
        block_strip(s.skip(find_close(s, 2) + 2))
    } else {
        seq![s[0]] + block_strip(s.drop_first())
    }
}

#[via_fn]
proof fn block_strip_decreases(s: Seq<char>) {
    if s.len() >= 2 && s[0] == '/' && s[1] == '*' && find_close(s, 2) >= 0 {
        lemma_find_close(s, 2);
    }
}

/// The text with every line comment, then every closed block comment, removed.
pub open spec fn strip_comments(s: Seq<char>) -> Seq<char> {
    block_strip(strip_line_comments(s))
}

/// The first index at or after `j` holding `*/`, if any.
fn find_close_exec(s: &Vec<char>, j: usize) -> (r: Option<usize>)
    requires
        j <= s@.len(),
    ensures
        match r {
            Some(k) => find_close(s@, j as int) == k as int,
            None => find_close(s@, j as int) == -1,
        },
{
    let mut k: usize = j;
    while s.len() >= 2 && k <= s.len() - 2
        invariant
            j <= k,
            k <= s@.len(),
            find_close(s@, j as int) == find_close(s@, k as int),
        decreases s@.len() - k,
    {
        if s[k] == '*' && s[k + 1] == '/' {
            return Some(k);
        }
        k += 1;
    }
    None
}

fn block_strip_exec(s: &Vec<char>) -> (out: Vec<char>)
    ensures
        out@ == block_strip(s@),
{
    let mut out: Vec<char> = Vec::new();
    let mut i: usize = 0;
    proof {
        assert(s@.skip(0) =~= s@);
    }
    while i < s.len()
        invariant
            i <= s@.len(),
            block_strip(s@) == out@ + block_strip(s@.skip(i as int)),
        decreases s@.len() - i,
    {
        let ghost rem = s@.skip(i as int);
        proof {
            assert(rem[0] == s@[i as int]);
            if i + 1 < s@.len() {
                assert(rem[1] == s@[i as int + 1]);
            }
            assert(rem.drop_first() =~= s@.skip(i as int + 1));
        }
        let c = s[i];
        if c == '/' && i + 1 < s.len() && s[i + 1] == '*' {
            // a block comment starts here if it is closed later
            proof {
                lemma_close_offset(s@, i as int, 2);
            }
            match find_close_exec(s, i + 2) {
                Some(k) => {
                    proof {
                        lemma_find_close(s@, i as int + 2);
                        assert(rem.skip(find_close(rem, 2) + 2) =~= s@.skip(k as int + 2));
                    }
                    i = k + 2;
                },
                None => {
                    out.push(c);
                    proof {
                        assert(out@.drop_last() + (seq![c] + block_strip(s@.skip(i as int + 1)))
                            =~= out@ + block_strip(s@.skip(i as int + 1)));
                    }
                    i += 1;
                },
            }
        } else {
            out.push(c);
            proof {
                assert(out@.drop_last() + (seq![c] + block_strip(s@.skip(i as int + 1))) =~= out@
                    + block_strip(s@.skip(i as int + 1)));
            }
            i += 1;
        }
    }
    proof {
        assert(s@.skip(i as int) =~= Seq::<char>::empty());
        assert(out@ + block_strip(Seq::<char>::empty()) =~= out@);
    }
    out
}

/// Searching for `*/` in the tail starting at `i` agrees with searching the
/// whole text from `i + d` on.
proof fn lemma_close_offset(s: Seq<char>, i: int, d: int)
    requires
        0 <= i,
        0 <= d,
        i + d <= s.len(),
    ensures
        find_close(s.skip(i), d) == if find_close(s, i + d) == -1 {
            -1
        } else {
            find_close(s, i + d) - i
        },
    decreases s.len() - i - d,
{
    let rem = s.skip(i);
    if d + 2 > rem.len() {
    } else {
        assert(rem[d] == s[i + d]);
        assert(rem[d + 1] == s[i + d + 1]);
        if rem[d] == '*' && rem[d + 1] == '/' {
        } else {
            lemma_close_offset(s, i, d + 1);
        }
    }
}

// ---------------------------------------------------------------------------
// The five extraction patterns, over the comment-stripped text
// ---------------------------------------------------------------------------
/// The pattern `pat` occurs in `s` starting at `i`.
pub open spec fn matches_at(s: Seq<char>, i: int, pat: Seq<char>) -> bool {
    0 <= i && i + pat.len() <= s.len() && forall|k: int|
        0 <= k < pat.len() ==> s[i + k] == #[trigger] pat[k]
}

/// No word character directly before position `i`: a keyword may start here.
pub open spec fn word_boundary(s: Seq<char>, i: int) -> bool {
    i <= 0 || !is_word(s[i - 1])
}

/// The largest index below `i` holding a non-whitespace character, or -1.
pub open spec fn prev_non_ws(s: Seq<char>, i: int) -> int
    decreases i,
{
    if i <= 0 {
        -1
    } else if !is_ws(s[i - 1]) {
        i - 1
    } else {
        prev_non_ws(s, i - 1)
    }
}

/// The call-like patterns must not be member accesses: the last
/// non-whitespace character before the keyword must not be a dot.
pub open spec fn not_dot_guard(s: Seq<char>, i: int) -> bool {
    prev_non_ws(s, i) == -1 || s[prev_non_ws(s, i)] != '.'
}

/// The first index at or after `j` holding a non-whitespace character;
/// `s.len()` if the rest is all whitespace.
pub open spec fn skip_ws(s: Seq<char>, j: int) -> int
    decreases s.len() - j,
{
    if j < 0 || j >= s.len() {
        j
    } else if is_ws(s[j]) {
        skip_ws(s, j + 1)
    } else {
        j
    }
}

pub proof fn lemma_skip_ws(s: Seq<char>, j: int)
    requires
        0 <= j <= s.len(),
    ensures
        j <= skip_ws(s, j) <= s.len(),
    decreases s.len() - j,
{
    if j < s.len() && is_ws(s[j]) {
        lemma_skip_ws(s, j + 1);
    }
}

/// The first index at or after `j` holding a quote character, or -1.
pub open spec fn find_quote(s: Seq<char>, j: int) -> int
    decreases s.len() - j,
{
    if j < 0 || j >= s.len() {
        -1
    } else if is_quote(s[j]) {
        j
    } else {
        find_quote(s, j + 1)
    }
}

pub proof fn lemma_find_quote(s: Seq<char>, j: int)
    requires
        0 <= j,
    ensures
        find_quote(s, j) == -1 ==> forall|k: int| j <= k < s.len() ==> !is_quote(#[trigger] s[k]),
        find_quote(s, j) != -1 ==> {
            &&& j <= find_quote(s, j) < s.len()
            &&& is_quote(s[find_quote(s, j)])
            &&& forall|k: int| j <= k < find_quote(s, j) ==> !is_quote(#[trigger] s[k])
        },
    decreases s.len() - j,
{
    if j < s.len() && !is_quote(s[j]) {
        lemma_find_quote(s, j + 1);
    }
}

pub open spec fn kw_import() -> Seq<char> {
    seq!['i', 'm', 'p', 'o', 'r', 't']
}

pub open spec fn kw_export() -> Seq<char> {
    seq!['e', 'x', 'p', 'o', 'r', 't']
}

pub open spec fn kw_require() -> Seq<char> {
    seq!['r', 'e', 'q', 'u', 'i', 'r', 'e']
}

pub open spec fn kw_jest() -> Seq<char> {
    seq!['j', 'e', 's', 't']
}

pub open spec fn kw_from() -> Seq<char> {
    seq!['f', 'r', 'o', 'm']
}

/// The marker of a type-only import or export: `type` and one space.
pub open spec fn kw_type_marker() -> Seq<char> {
    seq!['t', 'y', 'p', 'e', ' ']
}

pub open spec fn kw_require_actual() -> Seq<char> {
    seq!['r', 'e', 'q', 'u', 'i', 'r', 'e', 'A', 'c', 't', 'u', 'a', 'l']
}

pub open spec fn kw_require_mock() -> Seq<char> {
    seq!['r', 'e', 'q', 'u', 'i', 'r', 'e', 'M', 'o', 'c', 'k']
}

pub open spec fn kw_gen_mock() -> Seq<char> {
    seq!['g', 'e', 'n', 'M', 'o', 'c', 'k', 'F', 'r', 'o', 'm', 'M', 'o', 'd', 'u', 'l', 'e']
}

/// A quoted module specifier starting at `p`: the specifier is the non-empty
/// run of non-quote characters after the opening quote, and the closing
/// quote must be the same character. Yields the specifier and the position
/// after the closing quote.
pub open spec fn quoted_at(s: Seq<char>, p: int) -> Option<(Seq<char>, int)> {
    if !(0 <= p < s.len() && is_quote(s[p])) {
        None
    } else {
        let q = find_quote(s, p + 1);
        if q < 0 || q == p + 1 {
            None
        } else if s[q] != s[p] {
            None
        } else {
            Some((s.subrange(p + 1, q), q + 1))
        }
    }
}

pub proof fn lemma_quoted_at(s: Seq<char>, p: int)
    ensures
        match quoted_at(s, p) {
            Some(r) => p + 3 <= r.1 <= s.len() && r.0.len() >= 1,
            None => true,
        },
{
    if 0 <= p < s.len() && is_quote(s[p]) {
        lemma_find_quote(s, p + 1);
    }
}

/// The region between `j` and the quote at `p` reads as an import clause
/// followed by `from`: at least one clause character, whitespace, the word
/// `from`, then whitespace running up to the quote.
pub open spec fn clause_ok(s: Seq<char>, j: int, p: int) -> bool {
    let a = prev_non_ws(s, p);
    &&& a >= j + 5
    &&& a <= p - 2
    &&& matches_at(s, a - 3, kw_from())
    &&& is_ws(s[a - 4])
}

/// An `import ... from "spec"` or `export ... from "spec"` statement
/// starting at `i` (`kw` picks the keyword), including the side-effect form
/// without a `from` clause. Yields the specifier, the position after the
/// closing quote, and whether the statement is a type-only one.
pub open spec fn match_ie_at(s: Seq<char>, i: int, kw: Seq<char>) -> Option<(Seq<char>, int, bool)> {
    if !(matches_at(s, i, kw) && word_boundary(s, i)) {
        None
    } else {
        let j0 = i + kw.len() as int;
        if !(j0 < s.len() && is_ws(s[j0])) {
            None
        } else {
            let j1 = skip_ws(s, j0);
            let is_type = matches_at(s, j1, kw_type_marker());
            let j = if is_type {
                j1 + 5
            } else {
                j1
            };
            let p = find_quote(s, j);
            if p < 0 {
                None
            } else if p == j || clause_ok(s, j, p) {
                match quoted_at(s, p) {
                    Some(r) => Some((r.0, r.1, is_type)),
                    None => None,
                }
            } else {
                None
            }
        }
    }
}

pub proof fn lemma_match_ie_at(s: Seq<char>, i: int, kw: Seq<char>)
    requires
        0 <= i,
    ensures
        match match_ie_at(s, i, kw) {
            Some(r) => i < r.1 <= s.len(),
            None => true,
        },
{
    if matches_at(s, i, kw) && word_boundary(s, i) {
        let j0 = i + kw.len() as int;
        if j0 < s.len() && is_ws(s[j0]) {
            let j1 = skip_ws(s, j0);
            lemma_skip_ws(s, j0);
            let j = if matches_at(s, j1, kw_type_marker()) {
                j1 + 5
            } else {
                j1
            };
            let p = find_quote(s, j);
            lemma_find_quote(s, if j < 0 {
                0
            } else {
                j
            });
            lemma_quoted_at(s, p);
        }
    }
}

/// The tail of a call-like pattern starting at `k` (just after the callee):
/// optional whitespace, `(`, optional whitespace, then a quoted specifier
/// whose closing quote is followed directly by `)`. Yields the specifier and
/// the position after the `)`.
pub open spec fn call_tail(s: Seq<char>, k: int) -> Option<(Seq<char>, int)> {
    let j = skip_ws(s, k);
    if !(0 <= j < s.len() && s[j] == '(') {
        None
    } else {
        let p = skip_ws(s, j + 1);
        match quoted_at(s, p) {
            Some(r) => {
                if r.1 < s.len() && s[r.1] == ')' {
                    Some((r.0, r.1 + 1))
                } else {
                    None
                }
            },
            None => None,
        }
    }
}

pub proof fn lemma_call_tail(s: Seq<char>, k: int)
    requires
        0 <= k,
    ensures
        match call_tail(s, k) {
            Some(r) => k < r.1 <= s.len(),
            None => true,
        },
{
    if k <= s.len() {
        lemma_skip_ws(s, k);
        let j = skip_ws(s, k);
        if 0 <= j < s.len() && s[j] == '(' {
            lemma_skip_ws(s, j + 1);
            let p = skip_ws(s, j + 1);
            lemma_quoted_at(s, p);
        }
    } else {
        assert(skip_ws(s, k) == k);
    }
}

/// A dynamic `import(...)` or a `require(...)` call starting at `i`, guarded
/// so that a member access such as `x.require(...)` does not match.
pub open spec fn match_call_at(s: Seq<char>, i: int, kw: Seq<char>) -> Option<(Seq<char>, int)> {
    if !(matches_at(s, i, kw) && word_boundary(s, i) && not_dot_guard(s, i)) {
        None
    } else {
        call_tail(s, i + kw.len() as int)
    }
}

pub proof fn lemma_match_call_at(s: Seq<char>, i: int, kw: Seq<char>)
    requires
        0 <= i,
    ensures
        match match_call_at(s, i, kw) {
            Some(r) => i < r.1 <= s.len(),
            None => true,
        },
{
    if matches_at(s, i, kw) && word_boundary(s, i) && not_dot_guard(s, i) {
        lemma_call_tail(s, i + kw.len() as int);
    }
}

/// The test-framework patterns: `require.requireActual`, `require.requireMock`,
/// `jest.requireActual`, `jest.requireMock` and `jest.genMockFromModule`,
/// each applied to a quoted specifier.
pub open spec fn jest_tail(s: Seq<char>, k: int, allow_gen: bool) -> Option<(Seq<char>, int)> {
    let d = skip_ws(s, k);
    if !(0 <= d < s.len() && s[d] == '.') {
        None
    } else {
        let m = skip_ws(s, d + 1);
        if matches_at(s, m, kw_require_actual()) {
            call_tail(s, m + 13)
        } else if matches_at(s, m, kw_require_mock()) {
            call_tail(s, m + 11)
        } else if allow_gen && matches_at(s, m, kw_gen_mock()) {
            call_tail(s, m + 17)
        } else {
            None
        }
    }
}

pub open spec fn match_jest_at(s: Seq<char>, i: int) -> Option<(Seq<char>, int)> {
    if !(word_boundary(s, i) && not_dot_guard(s, i)) {
        None
    } else if matches_at(s, i, kw_require()) {
        jest_tail(s, i + 7, false)
    } else if matches_at(s, i, kw_jest()) {
        jest_tail(s, i + 4, true)
    } else {
        None
    }
}

pub proof fn lemma_jest_tail(s: Seq<char>, k: int, allow_gen: bool)
    requires
        0 <= k,
    ensures
        match jest_tail(s, k, allow_gen) {
            Some(r) => k < r.1 <= s.len(),
            None => true,
        },
{
    if k <= s.len() {
        lemma_skip_ws(s, k);
        let d = skip_ws(s, k);
        if 0 <= d < s.len() && s[d] == '.' {
            lemma_skip_ws(s, d + 1);
            let m = skip_ws(s, d + 1);
            lemma_call_tail(s, m + 13);
            lemma_call_tail(s, m + 11);
            lemma_call_tail(s, m + 17);
        }
    } else {
        assert(skip_ws(s, k) == k);
    }
}

pub proof fn lemma_match_jest_at(s: Seq<char>, i: int)
    requires
        0 <= i,
    ensures
        match match_jest_at(s, i) {
            Some(r) => i < r.1 <= s.len(),
            None => true,
        },
{
    lemma_jest_tail(s, i + 7, false);
    lemma_jest_tail(s, i + 4, true);
}

// ---------------------------------------------------------------------------
// Scanning a whole text with one pattern
// ---------------------------------------------------------------------------
/// All specifiers of `import`/`export` statements from position `i` on,
/// left to right; type-only matches are skipped.
pub open spec fn scan_ie(s: Seq<char>, i: int, kw: Seq<char>) -> Seq<Seq<char>>
    decreases s.len() - i,
    via scan_ie_decreases
{
    if i < 0 || i >= s.len() {
        Seq::empty()
    } else {
        match match_ie_at(s, i, kw) {
            Some(r) => (if r.2 {
                Seq::<Seq<char>>::empty()
            } else {
                seq![r.0]
            }) + scan_ie(s, r.1, kw),
            None => scan_ie(s, i + 1, kw),
        }
    }
}

#[via_fn]
proof fn scan_ie_decreases(s: Seq<char>, i: int, kw: Seq<char>) {
    if 0 <= i < s.len() {
        lemma_match_ie_at(s, i, kw);
    }
}

/// All specifiers of call-like matches (`import(...)`, `require(...)`) from
/// position `i` on.
pub open spec fn scan_call(s: Seq<char>, i: int, kw: Seq<char>) -> Seq<Seq<char>>
    decreases s.len() - i,
    via scan_call_decreases
{
    if i < 0 || i >= s.len() {
        Seq::empty()
    } else {
        match match_call_at(s, i, kw) {
            Some(r) => seq![r.0] + scan_call(s, r.1, kw),
            None => scan_call(s, i + 1, kw),
        }
    }
}

#[via_fn]
proof fn scan_call_decreases(s: Seq<char>, i: int, kw: Seq<char>) {
    if 0 <= i < s.len() {
        lemma_match_call_at(s, i, kw);
    }
}

/// All specifiers of test-framework matches from position `i` on.
pub open spec fn scan_jest(s: Seq<char>, i: int) -> Seq<Seq<char>>
    decreases s.len() - i,
    via scan_jest_decreases
{
    if i < 0 || i >= s.len() {
        Seq::empty()
    } else {
        match match_jest_at(s, i) {
            Some(r) => seq![r.0] + scan_jest(s, r.1),
            None => scan_jest(s, i + 1),
        }
    }
}

#[via_fn]
proof fn scan_jest_decreases(s: Seq<char>, i: int) {
    if 0 <= i < s.len() {
        lemma_match_jest_at(s, i);
    }
}

/// Every specifier matched in the text `t` by the five patterns, in pattern
/// order: import-from, export-from, dynamic import, require, test-framework.
pub open spec fn pattern_matches(t: Seq<char>) -> Seq<Seq<char>> {
    scan_ie(t, 0, kw_import()) + scan_ie(t, 0, kw_export()) + scan_call(t, 0, kw_import())
        + scan_call(t, 0, kw_require()) + scan_jest(t, 0)
}

/// The extractor's result as a set: every specifier matched in the
/// comment-stripped text.
pub open spec fn dep_set(s: Seq<char>) -> Set<Seq<char>> {
    pattern_matches(strip_comments(s)).to_set()
}

// ---------------------------------------------------------------------------
// Executable counterparts
// ---------------------------------------------------------------------------
fn matches_at_exec(s: &Vec<char>, i: usize, pat: &Vec<char>) -> (r: bool)
    ensures
        r == matches_at(s@, i as int, pat@),
{
    let n = s.len();
    if pat.len() > n || i > n - pat.len() {
        return false;
    }
    let mut k: usize = 0;
    while k < pat.len()
        invariant
            n == s@.len(),
            i + pat@.len() <= s@.len(),
            k <= pat@.len(),
            forall|t: int| 0 <= t < k ==> s@[i + t] == #[trigger] pat@[t],
        decreases pat@.len() - k,
    {
        if s[i + k] != pat[k] {
            return false;
        }
        k += 1;
    }
    true
}

fn word_boundary_exec(s: &Vec<char>, i: usize) -> (r: bool)
    requires
        i <= s@.len(),
    ensures
        r == word_boundary(s@, i as int),
{
    if i == 0 {
        true
    } else {
        !is_word_exec(s[i - 1])
    }
}

fn prev_non_ws_exec(s: &Vec<char>, i: usize) -> (r: Option<usize>)
    requires
        i <= s@.len(),
    ensures
        match r {
            Some(k) => prev_non_ws(s@, i as int) == k as int && k < i,
            None => prev_non_ws(s@, i as int) == -1,
        },
{
    let mut k: usize = i;
    while k > 0
        invariant
            k <= i <= s@.len(),
            prev_non_ws(s@, i as int) == prev_non_ws(s@, k as int),
        decreases k,
    {
        if !is_ws_exec(s[k - 1]) {
            return Some(k - 1);
        }
        k -= 1;
    }
    None
}

fn not_dot_guard_exec(s: &Vec<char>, i: usize) -> (r: bool)
    requires
        i <= s@.len(),
    ensures
        r == not_dot_guard(s@, i as int),
{
    match prev_non_ws_exec(s, i) {
        None => true,
        Some(k) => s[k] != '.',
    }
}

fn skip_ws_exec(s: &Vec<char>, j: usize) -> (r: usize)
    requires
        j <= s@.len(),
    ensures
        r as int == skip_ws(s@, j as int),
        j <= r <= s@.len(),
{
    let mut k: usize = j;
    while k < s.len()
        invariant
            j <= k <= s@.len(),
            skip_ws(s@, j as int) == skip_ws(s@, k as int),
        decreases s@.len() - k,
    {
        if !is_ws_exec(s[k]) {
            return k;
        }
        k += 1;
    }
    k
}

fn find_quote_exec(s: &Vec<char>, j: usize) -> (r: Option<usize>)
    requires
        j <= s@.len(),
    ensures
        match r {
            Some(k) => find_quote(s@, j as int) == k as int && j <= k < s@.len(),
            None => find_quote(s@, j as int) == -1,
        },
{
    let mut k: usize = j;
    while k < s.len()
        invariant
            j <= k <= s@.len(),
            find_quote(s@, j as int) == find_quote(s@, k as int),
        decreases s@.len() - k,
    {
        if is_quote_exec(s[k]) {
            return Some(k);
        }
        k += 1;
    }
    None
}

/// Copies `s[from..to]` into a fresh vector.
fn copy_range(s: &Vec<char>, from: usize, to: usize) -> (v: Vec<char>)
    requires
        from <= to <= s@.len(),
    ensures
        v@ == s@.subrange(from as int, to as int),
{
    let mut v: Vec<char> = Vec::new();
    let mut k: usize = from;
    while k < to
        invariant
            from <= k <= to <= s@.len(),
            v@ == s@.subrange(from as int, k as int),
        decreases to - k,
    {
        v.push(s[k]);
        proof {
            assert(v@ =~= s@.subrange(from as int, k as int + 1));
        }
        k += 1;
    }
    v
}

fn quoted_at_exec(s: &Vec<char>, p: usize) -> (r: Option<(Vec<char>, usize)>)
    requires
        p <= s@.len(),
    ensures
        ({
            let m = quoted_at(s@, p as int);
            match r {
                Some(t) => m == Some((t.0@, t.1 as int)),
                None => m is None,
            }
        }),
{
    if p == s.len() || !is_quote_exec(s[p]) {
        return None;
    }
    match find_quote_exec(s, p + 1) {
        None => None,
        Some(q) => {
            if q == p + 1 {
                return None;
            }
            if s[q] != s[p] {
                return None;
            }
            let m = copy_range(s, p + 1, q);
            Some((m, q + 1))
        },
    }
}

fn clause_ok_exec(s: &Vec<char>, j: usize, p: usize) -> (r: bool)
    requires
        p <= s@.len(),
    ensures
        r == clause_ok(s@, j as int, p as int),
{
    let from_kw: Vec<char> = vec!['f', 'r', 'o', 'm'];
    proof {
        assert(from_kw@ =~= kw_from());
    }
    match prev_non_ws_exec(s, p) {
        None => false,
        Some(a) => {
            if !(a >= 5 && a - 5 >= j) {
                return false;
            }
            if !(p >= 2 && a <= p - 2) {
                return false;
            }
            if !matches_at_exec(s, a - 3, &from_kw) {
                return false;
            }
            is_ws_exec(s[a - 4])
        },
    }
}

fn match_ie_exec(s: &Vec<char>, i: usize, kw: &Vec<char>) -> (r: Option<(Vec<char>, usize, bool)>)
    requires
        i < s@.len(),
    ensures
        ({
            let m = match_ie_at(s@, i as int, kw@);
            match r {
                Some(t) => m == Some((t.0@, t.1 as int, t.2)),
                None => m is None,
            }
        }),
{
    let type_marker: Vec<char> = vec!['t', 'y', 'p', 'e', ' '];
    proof {
        assert(type_marker@ =~= kw_type_marker());
    }
    let n = s.len();
    if !matches_at_exec(s, i, kw) {
        return None;
    }
    if !word_boundary_exec(s, i) {
        return None;
    }
    let j0 = i + kw.len();
    if j0 == s.len() || !is_ws_exec(s[j0]) {
        return None;
    }
    let j1 = skip_ws_exec(s, j0);
    let is_type = matches_at_exec(s, j1, &type_marker);
    let j = if is_type {
        j1 + 5
    } else {
        j1
    };
    match find_quote_exec(s, j) {
        None => None,
        Some(p) => {
            let ok = if p == j {
                true
            } else {
                clause_ok_exec(s, j, p)
            };
            if !ok {
                return None;
            }
            match quoted_at_exec(s, p) {
                None => None,
                Some(t) => Some((t.0, t.1, is_type)),
            }
        },
    }
}

fn call_tail_exec(s: &Vec<char>, k: usize) -> (r: Option<(Vec<char>, usize)>)
    requires
        k <= s@.len(),
    ensures
        ({
            let m = call_tail(s@, k as int);
            match r {
                Some(t) => m == Some((t.0@, t.1 as int)),
                None => m is None,
            }
        }),
{
    let j = skip_ws_exec(s, k);
    if j == s.len() || s[j] != '(' {
        return None;
    }
    let p = skip_ws_exec(s, j + 1);
    match quoted_at_exec(s, p) {
        None => None,
        Some(t) => {
            if t.1 < s.len() && s[t.1] == ')' {
                Some((t.0, t.1 + 1))
            } else {
                None
            }
        },
    }
}

fn match_call_exec(s: &Vec<char>, i: usize, kw: &Vec<char>) -> (r: Option<(Vec<char>, usize)>)
    requires
        i < s@.len(),
    ensures
        ({
            let m = match_call_at(s@, i as int, kw@);
            match r {
                Some(t) => m == Some((t.0@, t.1 as int)),
                None => m is None,
            }
        }),
{
    let n = s.len();
    if !matches_at_exec(s, i, kw) {
        return None;
    }
    if !word_boundary_exec(s, i) {
        return None;
    }
    if !not_dot_guard_exec(s, i) {
        return None;
    }
    call_tail_exec(s, i + kw.len())
}

fn jest_tail_exec(s: &Vec<char>, k: usize, allow_gen: bool) -> (r: Option<(Vec<char>, usize)>)
    requires
        k <= s@.len(),
    ensures
        ({
            let m = jest_tail(s@, k as int, allow_gen);
            match r {
                Some(t) => m == Some((t.0@, t.1 as int)),
                None => m is None,
            }
        }),
{
    let actual_kw: Vec<char> = vec![
        'r',
        'e',
        'q',
        'u',
        'i',
        'r',
        'e',
        'A',
        'c',
        't',
        'u',
        'a',
        'l',
    ];
    let mock_kw: Vec<char> = vec!['r', 'e', 'q', 'u', 'i', 'r', 'e', 'M', 'o', 'c', 'k'];
    let gen_kw: Vec<char> = vec![
        'g',
        'e',
        'n',
        'M',
        'o',
        'c',
        'k',
        'F',
        'r',
        'o',
        'm',
        'M',
        'o',
        'd',
        'u',
        'l',
        'e',
    ];
    proof {
        assert(actual_kw@ =~= kw_require_actual());
        assert(mock_kw@ =~= kw_require_mock());
        assert(gen_kw@ =~= kw_gen_mock());
    }
    let d = skip_ws_exec(s, k);
    if d == s.len() || s[d] != '.' {
        return None;
    }
    let m = skip_ws_exec(s, d + 1);
    if matches_at_exec(s, m, &actual_kw) {
        call_tail_exec(s, m + 13)
    } else if matches_at_exec(s, m, &mock_kw) {
        call_tail_exec(s, m + 11)
    } else if allow_gen && matches_at_exec(s, m, &gen_kw) {
        call_tail_exec(s, m + 17)
    } else {
        None
    }
}

fn match_jest_exec(s: &Vec<char>, i: usize) -> (r: Option<(Vec<char>, usize)>)
    requires
        i < s@.len(),
    ensures
        ({
            let m = match_jest_at(s@, i as int);
            match r {
                Some(t) => m == Some((t.0@, t.1 as int)),
                None => m is None,
            }
        }),
{
    let req_kw: Vec<char> = vec!['r', 'e', 'q', 'u', 'i', 'r', 'e'];
    let jest_kw: Vec<char> = vec!['j', 'e', 's', 't'];
    proof {
        assert(req_kw@ =~= kw_require());
        assert(jest_kw@ =~= kw_jest());
    }
    if !word_boundary_exec(s, i) {
        return None;
    }
    if !not_dot_guard_exec(s, i) {
        return None;
    }
    let n = s.len();
    if matches_at_exec(s, i, &req_kw) {
        jest_tail_exec(s, i + 7, false)
    } else if matches_at_exec(s, i, &jest_kw) {
        jest_tail_exec(s, i + 4, true)
    } else {
        None
    }
}

// ---------------------------------------------------------------------------
// Scanning loops and the extractor itself
// ---------------------------------------------------------------------------
fn scan_ie_exec(s: &Vec<char>, kw: &Vec<char>) -> (out: Vec<Vec<char>>)
    ensures
        out.deep_view() == scan_ie(s@, 0, kw@),
{
    let mut out: Vec<Vec<char>> = Vec::new();
    let mut i: usize = 0;
    proof {
        assert(out.deep_view() =~= Seq::<Seq<char>>::empty());
        assert(Seq::<Seq<char>>::empty() + scan_ie(s@, 0, kw@) =~= scan_ie(s@, 0, kw@));
    }
    while i < s.len()
        invariant
            i <= s@.len(),
            scan_ie(s@, 0, kw@) == out.deep_view() + scan_ie(s@, i as int, kw@),
        decreases s@.len() - i,
    {
        match match_ie_exec(s, i, kw) {
            None => {
                i += 1;
            },
            Some(t) => {
                let (m, next, is_type) = t;
                proof {
                    lemma_match_ie_at(s@, i as int, kw@);
                }
                if !is_type {
                    let ghost out0 = out;
                    let ghost mv = m@;
                    out.push(m);
                    proof {
                        lemma_chars_dv(out@[out@.len() - 1]);
                        assert forall|t: int| 0 <= t < out.deep_view().len() implies
                            out.deep_view()[t] == out0.deep_view().push(mv)[t] by {
                            lemma_dv_index(out, t);
                            if t < out0.deep_view().len() {
                                lemma_dv_index(out0, t);
                            }
                        }
                        assert(out.deep_view() =~= out0.deep_view().push(mv));
                        assert(out0.deep_view().push(mv) + scan_ie(s@, next as int, kw@)
                            =~= out0.deep_view() + (seq![mv] + scan_ie(s@, next as int, kw@)));
                    }
                } else {
                    proof {
                        assert(Seq::<Seq<char>>::empty() + scan_ie(s@, next as int, kw@)
                            =~= scan_ie(s@, next as int, kw@));
                    }
                }
                i = next;
            },
        }
    }
    proof {
        assert(out.deep_view() + scan_ie(s@, i as int, kw@) =~= out.deep_view());
    }
    out
}

fn scan_call_exec(s: &Vec<char>, kw: &Vec<char>) -> (out: Vec<Vec<char>>)
    ensures
        out.deep_view() == scan_call(s@, 0, kw@),
{
    let mut out: Vec<Vec<char>> = Vec::new();
    let mut i: usize = 0;
    proof {
        assert(out.deep_view() =~= Seq::<Seq<char>>::empty());
        assert(Seq::<Seq<char>>::empty() + scan_call(s@, 0, kw@) =~= scan_call(s@, 0, kw@));
    }
    while i < s.len()
        invariant
            i <= s@.len(),
            scan_call(s@, 0, kw@) == out.deep_view() + scan_call(s@, i as int, kw@),
        decreases s@.len() - i,
    {
        match match_call_exec(s, i, kw) {
            None => {
                i += 1;
            },
            Some(t) => {
                let (m, next) = t;
                proof {
                    lemma_match_call_at(s@, i as int, kw@);
                }
                let ghost out0 = out;
                let ghost mv = m@;
                out.push(m);
                proof {
                    lemma_chars_dv(out@[out@.len() - 1]);
                    assert forall|t: int| 0 <= t < out.deep_view().len() implies
                        out.deep_view()[t] == out0.deep_view().push(mv)[t] by {
                        lemma_dv_index(out, t);
                        if t < out0.deep_view().len() {
                            lemma_dv_index(out0, t);
                        }
                    }
                    assert(out.deep_view() =~= out0.deep_view().push(mv));
                    assert(out0.deep_view().push(mv) + scan_call(s@, next as int, kw@)
                        =~= out0.deep_view() + (seq![mv] + scan_call(s@, next as int, kw@)));
                }
                i = next;
            },
        }
    }
    proof {
        assert(out.deep_view() + scan_call(s@, i as int, kw@) =~= out.deep_view());
    }
    out
}

fn scan_jest_exec(s: &Vec<char>) -> (out: Vec<Vec<char>>)
    ensures
        out.deep_view() == scan_jest(s@, 0),
{
    let mut out: Vec<Vec<char>> = Vec::new();
    let mut i: usize = 0;
    proof {
        assert(out.deep_view() =~= Seq::<Seq<char>>::empty());
        assert(Seq::<Seq<char>>::empty() + scan_jest(s@, 0) =~= scan_jest(s@, 0));
    }
    while i < s.len()
        invariant
            i <= s@.len(),
            scan_jest(s@, 0) == out.deep_view() + scan_jest(s@, i as int),
        decreases s@.len() - i,
    {
        match match_jest_exec(s, i) {
            None => {
                i += 1;
            },
            Some(t) => {
                let (m, next) = t;
                proof {
                    lemma_match_jest_at(s@, i as int);
                }
                let ghost out0 = out;
                let ghost mv = m@;
                out.push(m);
                proof {
                    lemma_chars_dv(out@[out@.len() - 1]);
                    assert forall|t: int| 0 <= t < out.deep_view().len() implies
                        out.deep_view()[t] == out0.deep_view().push(mv)[t] by {
                        lemma_dv_index(out, t);
                        if t < out0.deep_view().len() {
                            lemma_dv_index(out0, t);
                        }
                    }
                    assert(out.deep_view() =~= out0.deep_view().push(mv));
                    assert(out0.deep_view().push(mv) + scan_jest(s@, next as int)
                        =~= out0.deep_view() + (seq![mv] + scan_jest(s@, next as int)));
                }
                i = next;
            },
        }
    }
    proof {
        assert(out.deep_view() + scan_jest(s@, i as int) =~= out.deep_view());
    }
    out
}

/// Appending two vectors concatenates their deep views.
proof fn lemma_append_dv(a: Vec<Vec<char>>, b: Seq<Vec<char>>, c: Seq<Vec<char>>)
    requires
        a@ == b + c,
    ensures
        a.deep_view() == Seq::new(b.len(), |i: int| b[i].deep_view()) + Seq::new(
            c.len(),
            |i: int| c[i].deep_view(),
        ),
{
    let bd = Seq::new(b.len(), |i: int| b[i].deep_view());
    let cd = Seq::new(c.len(), |i: int| c[i].deep_view());
    assert forall|t: int| 0 <= t < a.deep_view().len() implies a.deep_view()[t] == (bd + cd)[t] by {
        lemma_dv_index(a, t);
    }
    assert(a.deep_view() =~= bd + cd);
}

/// Extracts the module specifiers of `content`: strips comments, applies the
/// five patterns, and returns the surviving specifiers sorted, without
/// duplicates.
pub fn parse(content: &String) -> (deps: Vec<String>)
    ensures
        strictly_sorted(deps.deep_view()),
        deps.deep_view().to_set() == dep_set(content@),
{
    let chars = to_char_vec(content.as_str());
    let no_line = strip_line_comments_exec(&chars);
    let t = block_strip_exec(&no_line);
    let kw_imp: Vec<char> = vec!['i', 'm', 'p', 'o', 'r', 't'];
    let kw_exp: Vec<char> = vec!['e', 'x', 'p', 'o', 'r', 't'];
    let kw_req: Vec<char> = vec!['r', 'e', 'q', 'u', 'i', 'r', 'e'];
    proof {
        assert(kw_imp@ =~= kw_import());
        assert(kw_exp@ =~= kw_export());
        assert(kw_req@ =~= kw_require());
    }
    let mut all = scan_ie_exec(&t, &kw_imp);
    let ghost d1 = all.deep_view();
    let mut part = scan_ie_exec(&t, &kw_exp);
    let ghost d2 = part.deep_view();
    let ghost a1 = all@;
    let ghost p1 = part@;
    all.append(&mut part);
    proof {
        lemma_append_dv(all, a1, p1);
        assert(all.deep_view() =~= d1 + d2);
    }
    let ghost d12 = all.deep_view();
    let mut part = scan_call_exec(&t, &kw_imp);
    let ghost d3 = part.deep_view();
    let ghost a2 = all@;
    let ghost p2 = part@;
    all.append(&mut part);
    proof {
        lemma_append_dv(all, a2, p2);
        assert(all.deep_view() =~= d12 + d3);
    }
    let ghost d123 = all.deep_view();
    let mut part = scan_call_exec(&t, &kw_req);
    let ghost d4 = part.deep_view();
    let ghost a3 = all@;
    let ghost p3 = part@;
    all.append(&mut part);
    proof {
        lemma_append_dv(all, a3, p3);
        assert(all.deep_view() =~= d123 + d4);
    }
    let ghost d1234 = all.deep_view();
    let mut part = scan_jest_exec(&t);
    let ghost d5 = part.deep_view();
    let ghost a4 = all@;
    let ghost p4 = part@;
    all.append(&mut part);
    proof {
        lemma_append_dv(all, a4, p4);
        assert(all.deep_view() =~= d1234 + d5);
        assert(all.deep_view() =~= pattern_matches(t@));
    }
    let sorted = sorted_dedup(all);
    let mut deps: Vec<String> = Vec::new();
    let mut idx: usize = 0;
    while idx < sorted.len()
        invariant
            idx <= sorted@.len(),
            deps.deep_view() == sorted.deep_view().subrange(0, idx as int),
        decreases sorted@.len() - idx,
    {
        let entry = chars_to_string(&sorted[idx]);
        let ghost deps0 = deps;
        let ghost ev = entry@;
        deps.push(entry);
        proof {
            lemma_dv_index(sorted, idx as int);
            assert(deps@.len() == deps0@.len() + 1);
            assert(deps0.deep_view().len() == idx as int);
            assert(deps0@.len() == idx as int);
            assert(deps.deep_view().len() == idx as int + 1);
            assert forall|t: int| 0 <= t < deps.deep_view().len() implies deps.deep_view()[t]
                == sorted.deep_view().subrange(0, idx as int + 1)[t] by {
                crate::text::lemma_dv_index_str(deps, t);
                if t < idx as int {
                    assert(deps@[t] == deps0@[t]);
                    crate::text::lemma_dv_index_str(deps0, t);
                } else {
                    assert(deps@[t]@ == ev);
                }
            }
            assert(deps.deep_view() =~= sorted.deep_view().subrange(0, idx as int + 1));
        }
        idx += 1;
    }
    proof {
        assert(sorted.deep_view().subrange(0, idx as int) =~= sorted.deep_view());
    }
    deps
}

} // verus!
