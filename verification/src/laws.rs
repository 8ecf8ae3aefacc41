use vstd::prelude::*;

use crate::text::{lemma_strict_index_pub, strictly_sorted};
use crate::js_parser::{block_strip, clause_ok, dep_set, find_quote, is_quote, kw_export, kw_from,
    kw_import, kw_jest, kw_require, kw_type_marker, line_strip, match_call_at, match_ie_at,
    match_jest_at, matches_at, pattern_matches, prev_non_ws, quoted_at, scan_call, scan_ie,
    scan_jest, skip_ws, strip_comments, strip_line_comments, word_boundary};

verus! {

/// Law: a strictly sorted dependency list — what the extractor returns —
/// holds no specifier twice, however often it was imported or required.
pub proof fn lemma_extractor_no_duplicates(deps: Seq<Seq<char>>)
    requires
        strictly_sorted(deps),
    ensures
        deps.no_duplicates(),
{
    assert forall|i: int, j: int|
        0 <= i < deps.len() && 0 <= j < deps.len() && i != j implies deps[i] != deps[j] by {
        if i < j {
            lemma_strict_index_pub(deps, i, j);
        } else {
            lemma_strict_index_pub(deps, j, i);
        }
    }
}

// ---------------------------------------------------------------------------
// How the line-comment pass walks a concatenation
// ---------------------------------------------------------------------------
/// The comment state after one line-comment pass over `s`, starting in `c0`.
pub open spec fn ls_state(s: Seq<char>, c0: bool) -> bool
    decreases s.len(),
{
    if s.len() == 0 {
        c0
    } else if c0 {
        if s[0] == '\n' {
            ls_state(s.drop_first(), false)
        } else {
            ls_state(s.drop_first(), true)
        }
    } else if s.len() >= 2 && s[0] == '/' && s[1] == '/' {
        ls_state(s.skip(2), true)
    } else {
        ls_state(s.drop_first(), false)
    }
}

/// The pass distributes over concatenation, provided the boundary cannot
/// hold half of a `//` token.
proof fn lemma_line_strip_concat(x: Seq<char>, y: Seq<char>, c0: bool)
    requires
        x.len() > 0 ==> x.last() != '/',
    ensures
        line_strip(x + y, c0) == line_strip(x, c0) + line_strip(y, ls_state(x, c0)),
    decreases x.len(),
{
    let s = x + y;
    if x.len() == 0 {
        assert(s =~= y);
        assert(line_strip(x, c0) =~= Seq::<char>::empty());
        assert(ls_state(x, c0) == c0);
        assert(Seq::<char>::empty() + line_strip(y, c0) =~= line_strip(y, c0));
    } else {
        assert(s[0] == x[0]);
        assert(s.drop_first() =~= x.drop_first() + y);
        if x.len() > 1 {
            assert(x.drop_first().last() == x.last());
        }
        if c0 {
            lemma_line_strip_concat(x.drop_first(), y, x[0] != '\n');
            if x[0] == '\n' {
                assert(seq!['\n'] + (line_strip(x.drop_first(), false) + line_strip(
                    y,
                    ls_state(x.drop_first(), false),
                )) =~= (seq!['\n'] + line_strip(x.drop_first(), false)) + line_strip(
                    y,
                    ls_state(x.drop_first(), false),
                ));
            }
        } else if x.len() >= 2 && x[0] == '/' && x[1] == '/' {
            assert(s.len() >= 2 && s[0] == '/' && s[1] == '/');
            assert(s.skip(2) =~= x.skip(2) + y);
            if x.len() > 2 {
                assert(x.skip(2).last() == x.last());
            }
            lemma_line_strip_concat(x.skip(2), y, true);
            assert(ls_state(x, false) == ls_state(x.skip(2), true));
        } else {
            // x[0] begins no `//`: either x has a second character and it is
            // not a slash pair, or x is the single char x[0] != '/'
            if x.len() == 1 {
                assert(x[0] != '/');
                assert(!(s.len() >= 2 && s[0] == '/' && s[1] == '/'));
            } else {
                assert(s[1] == x[1]);
                assert(!(s.len() >= 2 && s[0] == '/' && s[1] == '/'));
            }
            lemma_line_strip_concat(x.drop_first(), y, false);
            assert(seq![x[0]] + (line_strip(x.drop_first(), false) + line_strip(
                y,
                ls_state(x.drop_first(), false),
            )) =~= (seq![x[0]] + line_strip(x.drop_first(), false)) + line_strip(
                y,
                ls_state(x.drop_first(), false),
            ));
        }
    }
}

/// Text without `//` passes the line-comment pass unchanged.
proof fn lemma_line_strip_clean(x: Seq<char>)
    requires
        forall|k: int|
            0 <= k && k + 2 <= x.len() ==> !((#[trigger] x[k]) == '/' && x[k + 1] == '/'),
    ensures
        line_strip(x, false) == x,
        ls_state(x, false) == false,
    decreases x.len(),
{
    if x.len() > 0 {
        assert(!(x.len() >= 2 && x[0] == '/' && x[1] == '/'));
        assert forall|k: int|
            0 <= k && k + 2 <= x.drop_first().len() implies !((#[trigger] x.drop_first()[k]) == '/'
            && x.drop_first()[k + 1] == '/') by {
            assert(x.drop_first()[k] == x[k + 1]);
            assert(x.drop_first()[k + 1] == x[k + 2]);
        }
        lemma_line_strip_clean(x.drop_first());
        assert(seq![x[0]] + x.drop_first() =~= x);
    }
}

/// While inside a line comment, text without a newline is dropped whole.
proof fn lemma_line_strip_skip(x: Seq<char>, y: Seq<char>)
    requires
        forall|k: int| 0 <= k < x.len() ==> (#[trigger] x[k]) != '\n',
    ensures
        line_strip(x + y, true) == line_strip(y, true),
    decreases x.len(),
{
    if x.len() == 0 {
        assert(x + y =~= y);
    } else {
        assert((x + y)[0] == x[0]);
        assert((x + y).drop_first() =~= x.drop_first() + y);
        assert forall|k: int| 0 <= k < x.drop_first().len() implies (#[trigger] x.drop_first()[k])
            != '\n' by {
            assert(x.drop_first()[k] == x[k + 1]);
        }
        lemma_line_strip_skip(x.drop_first(), y);
    }
}

/// The line-comment pass treats a newline-free comment body as if it were
/// not there, whatever precedes the `//` and in whatever state the pass
/// arrives.
proof fn lemma_line_hidden_rec(a: Seq<char>, body: Seq<char>, b: Seq<char>, c0: bool)
    requires
        forall|k: int| 0 <= k < body.len() ==> (#[trigger] body[k]) != '\n',
    ensures
        line_strip(a + (seq!['/', '/'] + body + seq!['\n'] + b), c0) == line_strip(
            a + (seq!['/', '/'] + seq!['\n'] + b),
            c0,
        ),
    decreases a.len(),
{
    let rest1 = seq!['/', '/'] + body + seq!['\n'] + b;
    let rest2 = seq!['/', '/'] + seq!['\n'] + b;
    let s1 = a + rest1;
    let s2 = a + rest2;
    let tail = seq!['\n'] + b;
    if a.len() == 0 {
        assert(s1 =~= rest1);
        assert(s2 =~= rest2);
        if c0 {
            let x1 = seq!['/', '/'] + body;
            assert forall|k: int| 0 <= k < x1.len() implies (#[trigger] x1[k]) != '\n' by {
                if k >= 2 {
                    assert(x1[k] == body[k - 2]);
                }
            }
            assert(rest1 =~= x1 + tail);
            lemma_line_strip_skip(x1, tail);
            let x2 = seq!['/', '/'];
            assert forall|k: int| 0 <= k < x2.len() implies (#[trigger] x2[k]) != '\n' by {}
            assert(rest2 =~= x2 + tail);
            lemma_line_strip_skip(x2, tail);
        } else {
            assert(rest1[0] == '/' && rest1[1] == '/');
            assert(rest2[0] == '/' && rest2[1] == '/');
            assert(rest1.skip(2) =~= body + tail);
            assert(rest2.skip(2) =~= tail);
            lemma_line_strip_skip(body, tail);
        }
    } else {
        assert(s1[0] == a[0] && s2[0] == a[0]);
        assert(s1.drop_first() =~= a.drop_first() + rest1);
        assert(s2.drop_first() =~= a.drop_first() + rest2);
        if c0 {
            lemma_line_hidden_rec(a.drop_first(), body, b, a[0] != '\n');
        } else {
            // the `//` check reads the same two characters in both texts:
            // the second is a[1], or the first slash of the comment marker
            if a.len() >= 2 {
                assert(s1[1] == a[1] && s2[1] == a[1]);
            } else {
                assert(s1[1] == rest1[0] && s2[1] == rest2[0]);
                assert(s1[1] == '/' && s2[1] == '/');
            }
            if s1[0] == '/' && s1[1] == '/' {
                if a.len() >= 2 {
                    assert(s1.skip(2) =~= a.skip(2) + rest1);
                    assert(s2.skip(2) =~= a.skip(2) + rest2);
                    lemma_line_hidden_rec(a.skip(2), body, b, true);
                } else {
                    // one slash from `a`, one from the marker: the pass is in
                    // a comment and drops the rest of the line either way
                    assert(s1.skip(2) =~= (seq!['/'] + body) + tail);
                    assert(s2.skip(2) =~= seq!['/'] + tail);
                    let x1 = seq!['/'] + body;
                    assert forall|k: int| 0 <= k < x1.len() implies (#[trigger] x1[k]) != '\n' by {
                        if k >= 1 {
                            assert(x1[k] == body[k - 1]);
                        }
                    }
                    lemma_line_strip_skip(x1, tail);
                    let x2 = seq!['/'];
                    assert forall|k: int| 0 <= k < x2.len() implies (#[trigger] x2[k]) != '\n' by {}
                    assert(seq!['/'] + tail =~= x2 + tail);
                    lemma_line_strip_skip(x2, tail);
                }
            } else {
                lemma_line_hidden_rec(a.drop_first(), body, b, false);
            }
        }
    }
}

/// Law: a line comment hides its text. Whatever stands between `//` and the
/// end of the line may be replaced by nothing without changing the
/// extractor's result.
pub proof fn lemma_line_comment_hidden(a: Seq<char>, body: Seq<char>, b: Seq<char>)
    requires
        forall|k: int| 0 <= k < body.len() ==> (#[trigger] body[k]) != '\n',
    ensures
        dep_set(a + seq!['/', '/'] + body + seq!['\n'] + b) == dep_set(
            a + seq!['/', '/'] + seq!['\n'] + b,
        ),
{
    let s1 = a + seq!['/', '/'] + body + seq!['\n'] + b;
    let s2 = a + seq!['/', '/'] + seq!['\n'] + b;
    assert(s1 =~= a + (seq!['/', '/'] + body + seq!['\n'] + b));
    assert(s2 =~= a + (seq!['/', '/'] + seq!['\n'] + b));
    lemma_line_hidden_rec(a, body, b, false);
    assert(strip_line_comments(s1) == strip_line_comments(s2));
    assert(strip_comments(s1) == strip_comments(s2));
}

// ---------------------------------------------------------------------------
// How the block-comment pass walks a concatenation
// ---------------------------------------------------------------------------
/// Text without `/*` passes through the block-comment pass unchanged, and
/// what follows it is handled on its own, provided the boundary cannot hold
/// half of a `/*` token.
proof fn lemma_block_strip_concat(x: Seq<char>, y: Seq<char>)
    requires
        forall|k: int|
            0 <= k && k + 2 <= x.len() ==> !((#[trigger] x[k]) == '/' && x[k + 1] == '*'),
        !(x.len() > 0 && y.len() > 0 && x.last() == '/' && y[0] == '*'),
    ensures
        block_strip(x + y) == x + block_strip(y),
    decreases x.len(),
{
    let s = x + y;
    if x.len() == 0 {
        assert(s =~= y);
        assert(Seq::<char>::empty() + block_strip(y) =~= block_strip(y));
    } else {
        assert(s[0] == x[0]);
        if x.len() >= 2 {
            assert(s[1] == x[1]);
            assert(!(s[0] == '/' && s[1] == '*'));
        } else if y.len() > 0 {
            assert(s[1] == y[0]);
            assert(!(s[0] == '/' && s[1] == '*'));
        }
        assert(s.drop_first() =~= x.drop_first() + y);
        assert forall|k: int|
            0 <= k && k + 2 <= x.drop_first().len() implies !((#[trigger] x.drop_first()[k]) == '/'
            && x.drop_first()[k + 1] == '*') by {
            assert(x.drop_first()[k] == x[k + 1]);
            assert(x.drop_first()[k + 1] == x[k + 2]);
        }
        if x.len() > 1 {
            assert(x.drop_first().last() == x.last());
        }
        lemma_block_strip_concat(x.drop_first(), y);
        assert(seq![x[0]] + (x.drop_first() + block_strip(y)) =~= (seq![x[0]] + x.drop_first())
            + block_strip(y));
        assert(seq![x[0]] + x.drop_first() =~= x);
    }
}

/// A closed block comment is removed whole: its body, free of `*/`, is gone
/// together with its markers.
proof fn lemma_block_strip_removes(m: Seq<char>, rest: Seq<char>)
    requires
        forall|k: int|
            0 <= k && k + 2 <= m.len() ==> !((#[trigger] m[k]) == '*' && m[k + 1] == '/'),
    ensures
        block_strip(seq!['/', '*'] + m + seq!['*', '/'] + rest) == block_strip(rest),
{
    let s = seq!['/', '*'] + m + seq!['*', '/'] + rest;
    let c = 2 + m.len() as int;
    assert(s[0] == '/' && s[1] == '*');
    assert(s[c] == '*' && s[c + 1] == '/');
    assert forall|k: int| 2 <= k < c implies !((#[trigger] s[k]) == '*' && s[k + 1] == '/') by {
        assert(s[k] == m[k - 2]);
        if k + 1 < c {
            assert(s[k + 1] == m[k - 1]);
        } else {
            assert(s[k + 1] == '*');
        }
    }
    crate::js_parser::lemma_find_close(s, 2);
    let r = crate::js_parser::find_close(s, 2);
    assert(r == c) by {
        if r == -1 {
            assert(!(s[c] == '*' && s[c + 1] == '/'));
            assert(false);
        } else if r < c {
            assert(!(s[r] == '*' && s[r + 1] == '/'));
            assert(false);
        } else if r > c {
            assert(!(s[c] == '*' && s[c + 1] == '/'));
            assert(false);
        }
    }
    assert(s.len() >= 2 && s[0] == '/' && s[1] == '*' && crate::js_parser::find_close(s, 2) >= 0);
    assert(block_strip(s) == block_strip(s.skip(c + 2)));
    assert(s.skip(c + 2) =~= rest);
}

/// Law: a closed block comment hides its text. Whatever stands between `/*`
/// and the matching `*/` may be replaced by nothing without changing the
/// extractor's result. The text before the comment must be free of comment
/// markers, the body free of `*/` and `//`, and the text after the closing
/// marker must not begin with a slash (a slash right after `*/` forms a `//`
/// whose line-comment stripping can swallow the closing marker, and the
/// comment then leaks — in that case the two texts genuinely differ).
pub proof fn lemma_block_comment_hidden(a: Seq<char>, body: Seq<char>, b: Seq<char>)
    requires
        forall|k: int|
            0 <= k && k + 2 <= a.len() ==> !((#[trigger] a[k]) == '/' && (a[k + 1] == '/' || a[k
                + 1] == '*')),
        a.len() > 0 ==> a.last() != '/',
        forall|k: int|
            0 <= k && k + 2 <= body.len() ==> !(((#[trigger] body[k]) == '*' && body[k + 1] == '/')
                || (body[k] == '/' && body[k + 1] == '/')),
        b.len() > 0 ==> b[0] != '/',
    ensures
        dep_set(a + seq!['/', '*'] + body + seq!['*', '/'] + b) == dep_set(
            a + seq!['/', '*'] + seq!['*', '/'] + b,
        ),
{
    let s1 = a + seq!['/', '*'] + body + seq!['*', '/'] + b;
    let s2 = a + seq!['/', '*'] + seq!['*', '/'] + b;
    let x1 = a + seq!['/', '*'] + body + seq!['*'];
    let x2 = a + seq!['/', '*'] + seq!['*'];
    let y = seq!['/'] + b;
    assert(s1 =~= x1 + y);
    assert(s2 =~= x2 + y);
    assert forall|k: int|
        0 <= k && k + 2 <= x1.len() implies !((#[trigger] x1[k]) == '/' && x1[k + 1] == '/') by {
        let al = a.len() as int;
        if k + 2 <= al {
            assert(x1[k] == a[k] && x1[k + 1] == a[k + 1]);
        } else if k + 1 == al {
            assert(x1[k] == a.last() && x1[k + 1] == '/');
        } else if k == al {
            assert(x1[k + 1] == '*');
        } else if k == al + 1 {
            assert(x1[k] == '*');
        } else if k + 2 <= al + 2 + body.len() {
            assert(x1[k] == body[k - al - 2] && x1[k + 1] == body[k - al - 1]);
        } else {
            assert(x1[k + 1] == '*');
        }
    }
    assert forall|k: int|
        0 <= k && k + 2 <= x2.len() implies !((#[trigger] x2[k]) == '/' && x2[k + 1] == '/') by {
        let al = a.len() as int;
        if k + 2 <= al {
            assert(x2[k] == a[k] && x2[k + 1] == a[k + 1]);
        } else if k + 1 == al {
            assert(x2[k] == a.last() && x2[k + 1] == '/');
        } else if k == al {
            assert(x2[k + 1] == '*');
        } else {
            assert(x2[k + 1] == '*');
        }
    }
    lemma_line_strip_clean(x1);
    lemma_line_strip_clean(x2);
    assert(x1.last() == '*');
    assert(x2.last() == '*');
    lemma_line_strip_concat(x1, y, false);
    lemma_line_strip_concat(x2, y, false);
    let bb = line_strip(b, false);
    assert(line_strip(y, false) == seq!['/'] + bb) by {
        if y.len() >= 2 {
            assert(y[1] == b[0]);
        }
        assert(!(y.len() >= 2 && y[0] == '/' && y[1] == '/'));
        assert(y.drop_first() =~= b);
    }
    let t1 = strip_line_comments(s1);
    let t2 = strip_line_comments(s2);
    let mid1 = seq!['/', '*'] + body + seq!['*', '/'] + bb;
    let mid2 = seq!['/', '*'] + seq!['*', '/'] + bb;
    assert(t1 =~= a + mid1);
    assert(t2 =~= a + mid2);
    assert forall|k: int|
        0 <= k && k + 2 <= a.len() implies !((#[trigger] a[k]) == '/' && a[k + 1] == '*') by {}
    lemma_block_strip_concat(a, mid1);
    lemma_block_strip_concat(a, mid2);
    lemma_block_strip_removes(body, bb);
    assert(mid2 =~= seq!['/', '*'] + Seq::<char>::empty() + seq!['*', '/'] + bb);
    lemma_block_strip_removes(Seq::<char>::empty(), bb);
    assert(strip_comments(s1) == strip_comments(s2));
}

// ---------------------------------------------------------------------------
// Type-only imports and exports are never reported
// ---------------------------------------------------------------------------
proof fn lemma_scan_ie_none(s: Seq<char>, i: int, kw: Seq<char>)
    requires
        0 <= i,
        forall|j: int| 0 <= j < s.len() ==> match_ie_at(s, j, kw) is None,
    ensures
        scan_ie(s, i, kw) == Seq::<Seq<char>>::empty(),
    decreases s.len() - i,
{
    if 0 <= i < s.len() {
        lemma_scan_ie_none(s, i + 1, kw);
    }
}

proof fn lemma_scan_call_none(s: Seq<char>, i: int, kw: Seq<char>)
    requires
        0 <= i,
        forall|j: int| 0 <= j < s.len() ==> match_call_at(s, j, kw) is None,
    ensures
        scan_call(s, i, kw) == Seq::<Seq<char>>::empty(),
    decreases s.len() - i,
{
    if 0 <= i < s.len() {
        lemma_scan_call_none(s, i + 1, kw);
    }
}

proof fn lemma_scan_jest_none(s: Seq<char>, i: int)
    requires
        0 <= i,
        forall|j: int| 0 <= j < s.len() ==> match_jest_at(s, j) is None,
    ensures
        scan_jest(s, i) == Seq::<Seq<char>>::empty(),
    decreases s.len() - i,
{
    if 0 <= i < s.len() {
        lemma_scan_jest_none(s, i + 1);
    }
}

proof fn lemma_find_quote_at(s: Seq<char>, j: int, p: int)
    requires
        0 <= j <= p < s.len(),
        is_quote(s[p]),
        forall|k: int| j <= k < p ==> !is_quote(#[trigger] s[k]),
    ensures
        find_quote(s, j) == p,
{
    crate::js_parser::lemma_find_quote(s, j);
    let r = find_quote(s, j);
    if r == -1 {
        assert(!is_quote(s[p]));
        assert(false);
    } else if r < p {
        assert(!is_quote(s[r]));
        assert(false);
    } else if r > p {
        assert(!is_quote(s[p]));
        assert(false);
    }
}

/// A character that can stand inside an import clause or a module specifier
/// without touching the extraction patterns: no quote, no slash, no star.
pub open spec fn plain_char(c: char) -> bool {
    !is_quote(c) && c != '/' && c != '*'
}

/// A whole type-only statement: the keyword (`import` or `export`), the
/// `type` marker, a clause, `from`, and a quoted specifier.
pub open spec fn type_statement(kw: Seq<char>, clause: Seq<char>, q: char, m: Seq<char>) -> Seq<
    char,
> {
    kw + seq![' ', 't', 'y', 'p', 'e', ' '] + clause + seq![' ', 'f', 'r', 'o', 'm', ' '] + seq![q]
        + m + seq![q]
}


/// Where each character of a type-only statement sits.
proof fn lemma_ts_layout(kw: Seq<char>, clause: Seq<char>, q: char, m: Seq<char>)
    requires
        kw.len() == 6,
    ensures
        type_statement(kw, clause, q, m).len() == 20 + clause.len() + m.len(),
        forall|k: int|
            0 <= k < 6 ==> type_statement(kw, clause, q, m)[k] == kw[k],
        type_statement(kw, clause, q, m)[6] == ' ',
        type_statement(kw, clause, q, m)[7] == 't',
        type_statement(kw, clause, q, m)[8] == 'y',
        type_statement(kw, clause, q, m)[9] == 'p',
        type_statement(kw, clause, q, m)[10] == 'e',
        type_statement(kw, clause, q, m)[11] == ' ',
        forall|k: int|
            12 <= k < 12 + clause.len() ==> type_statement(kw, clause, q, m)[k] == clause[k - 12],
        type_statement(kw, clause, q, m)[12 + clause.len() as int] == ' ',
        type_statement(kw, clause, q, m)[13 + clause.len() as int] == 'f',
        type_statement(kw, clause, q, m)[14 + clause.len() as int] == 'r',
        type_statement(kw, clause, q, m)[15 + clause.len() as int] == 'o',
        type_statement(kw, clause, q, m)[16 + clause.len() as int] == 'm',
        type_statement(kw, clause, q, m)[17 + clause.len() as int] == ' ',
        type_statement(kw, clause, q, m)[18 + clause.len() as int] == q,
        forall|k: int|
            19 + clause.len() <= k < 19 + clause.len() + m.len()
                ==> type_statement(kw, clause, q, m)[k] == m[k - 19 - clause.len()],
        type_statement(kw, clause, q, m)[19 + clause.len() as int + m.len() as int] == q,
{
}

/// A type-only statement holds no slash and no star, so comment stripping
/// leaves it unchanged.
proof fn lemma_ts_strip(kw: Seq<char>, clause: Seq<char>, q: char, m: Seq<char>)
    requires
        kw == kw_import() || kw == kw_export(),
        is_quote(q),
        forall|k: int| 0 <= k < clause.len() ==> plain_char(#[trigger] clause[k]),
        forall|k: int| 0 <= k < m.len() ==> plain_char(#[trigger] m[k]),
    ensures
        strip_comments(type_statement(kw, clause, q, m)) == type_statement(kw, clause, q, m),
{
    let t = type_statement(kw, clause, q, m);
    let li = clause.len() as int;
    let mi = m.len() as int;
    lemma_ts_layout(kw, clause, q, m);
    assert forall|k: int| 0 <= k < t.len() implies t[k] != '/' && t[k] != '*' by {
        if k < 6 {
            assert(kw_import()[k] != '/' && kw_import()[k] != '*');
            assert(kw_export()[k] != '/' && kw_export()[k] != '*');
        } else if k < 12 {
        } else if k < 12 + li {
            assert(plain_char(clause[k - 12]));
        } else if k < 18 + li {
        } else if k == 18 + li || k == 19 + li + mi {
            assert(t[k] == q);
        } else {
            assert(plain_char(m[k - 19 - li]));
        }
    }
    assert forall|k: int|
        0 <= k && k + 2 <= t.len() implies !((#[trigger] t[k]) == '/' && t[k + 1] == '/') by {}
    lemma_line_strip_clean(t);
    assert forall|k: int|
        0 <= k && k + 2 <= t.len() implies !((#[trigger] t[k]) == '/' && t[k + 1] == '*') by {}
    lemma_block_strip_concat(t, Seq::<char>::empty());
    assert(t + Seq::<char>::empty() =~= t);
    assert(t + block_strip(Seq::<char>::empty()) =~= t);
}

/// At the head of a type-only statement the keyword pattern matches, is
/// marked as type-only, and consumes the whole statement.
proof fn lemma_ts_match(kw: Seq<char>, clause: Seq<char>, q: char, m: Seq<char>)
    requires
        kw == kw_import() || kw == kw_export(),
        is_quote(q),
        clause.len() >= 1,
        m.len() >= 1,
        forall|k: int| 0 <= k < clause.len() ==> plain_char(#[trigger] clause[k]),
        forall|k: int| 0 <= k < m.len() ==> plain_char(#[trigger] m[k]),
    ensures
        match_ie_at(type_statement(kw, clause, q, m), 0, kw) == Some(
            (m, type_statement(kw, clause, q, m).len() as int, true),
        ),
{
    let t = type_statement(kw, clause, q, m);
    let li = clause.len() as int;
    let mi = m.len() as int;
    lemma_ts_layout(kw, clause, q, m);
    assert(matches_at(t, 0, kw));
    assert(word_boundary(t, 0));
    assert(skip_ws(t, 7) == 7);
    assert(skip_ws(t, 6) == 7);
    assert(matches_at(t, 7, kw_type_marker()));
    assert forall|k: int| 12 <= k < 18 + li implies !is_quote(#[trigger] t[k]) by {
        if k < 12 + li {
            assert(plain_char(clause[k - 12]));
        } else {
            assert(!is_quote(' ') && !is_quote('f') && !is_quote('r') && !is_quote('o') && !is_quote(
                'm',
            ));
        }
    }
    lemma_find_quote_at(t, 12, 18 + li);
    assert(prev_non_ws(t, 17 + li) == 16 + li);
    assert(prev_non_ws(t, 18 + li) == 16 + li);
    assert(matches_at(t, 13 + li, kw_from()));
    assert(clause_ok(t, 12, 18 + li));
    assert forall|k: int| 19 + li <= k < 19 + li + mi implies !is_quote(#[trigger] t[k]) by {
        assert(plain_char(m[k - 19 - li]));
    }
    lemma_find_quote_at(t, 19 + li, 19 + li + mi);
    assert(t.subrange(19 + li, 19 + li + mi) =~= m);
    assert(quoted_at(t, 18 + li) == Some((m, 20 + li + mi)));
}

/// The statement's own pattern scan collects nothing: its one match is
/// type-only.
proof fn lemma_ts_own_scan(kw: Seq<char>, clause: Seq<char>, q: char, m: Seq<char>)
    requires
        kw == kw_import() || kw == kw_export(),
        is_quote(q),
        clause.len() >= 1,
        m.len() >= 1,
        forall|k: int| 0 <= k < clause.len() ==> plain_char(#[trigger] clause[k]),
        forall|k: int| 0 <= k < m.len() ==> plain_char(#[trigger] m[k]),
    ensures
        scan_ie(type_statement(kw, clause, q, m), 0, kw) == Seq::<Seq<char>>::empty(),
{
    let t = type_statement(kw, clause, q, m);
    lemma_ts_match(kw, clause, q, m);
    assert(scan_ie(t, t.len() as int, kw) == Seq::<Seq<char>>::empty());
    assert(scan_ie(t, 0, kw) =~= Seq::<Seq<char>>::empty() + scan_ie(t, t.len() as int, kw));
    assert(scan_ie(t, 0, kw) =~= Seq::<Seq<char>>::empty());
}

/// The opposite statement keyword never matches in the statement.
proof fn lemma_ts_other_scan(kw: Seq<char>, clause: Seq<char>, q: char, m: Seq<char>, other: Seq<char>)
    requires
        kw == kw_import() || kw == kw_export(),
        other == kw_import() || other == kw_export(),
        other != kw,
        forall|i: int| i != 0 ==> !matches_at(type_statement(kw, clause, q, m), i, other),
    ensures
        scan_ie(type_statement(kw, clause, q, m), 0, other) == Seq::<Seq<char>>::empty(),
{
    let t = type_statement(kw, clause, q, m);
    lemma_ts_layout(kw, clause, q, m);
    assert forall|j: int| 0 <= j < t.len() implies match_ie_at(t, j, other) is None by {
        if j == 0 {
            assert(t[0] == kw[0]);
            assert(kw_import()[0] == 'i' && kw_export()[0] == 'e');
            assert(!matches_at(t, 0, other));
        }
    }
    lemma_scan_ie_none(t, 0, other);
}

/// The dynamic-import pattern never matches in the statement: at the head
/// the keyword is followed by the type marker, not by a parenthesis.
proof fn lemma_ts_dynamic_scan(kw: Seq<char>, clause: Seq<char>, q: char, m: Seq<char>)
    requires
        kw == kw_import() || kw == kw_export(),
        forall|i: int| i != 0 ==> !matches_at(type_statement(kw, clause, q, m), i, kw_import()),
    ensures
        scan_call(type_statement(kw, clause, q, m), 0, kw_import()) == Seq::<Seq<char>>::empty(),
{
    let t = type_statement(kw, clause, q, m);
    lemma_ts_layout(kw, clause, q, m);
    assert forall|j: int| 0 <= j < t.len() implies match_call_at(t, j, kw_import()) is None by {
        if j == 0 {
            if kw == kw_import() {
                assert(skip_ws(t, 7) == 7);
                assert(skip_ws(t, 6) == 7);
                assert(t[7] != '(');
            } else {
                assert(t[0] == 'e');
                assert(kw_import()[0] == 'i');
                assert(!matches_at(t, 0, kw_import()));
            }
        }
    }
    lemma_scan_call_none(t, 0, kw_import());
}

/// Neither `require` nor the test-framework helpers occur in the statement.
proof fn lemma_ts_call_scans(kw: Seq<char>, clause: Seq<char>, q: char, m: Seq<char>)
    requires
        forall|i: int| !matches_at(type_statement(kw, clause, q, m), i, kw_require()),
        forall|i: int| !matches_at(type_statement(kw, clause, q, m), i, kw_jest()),
    ensures
        scan_call(type_statement(kw, clause, q, m), 0, kw_require()) == Seq::<Seq<char>>::empty(),
        scan_jest(type_statement(kw, clause, q, m), 0) == Seq::<Seq<char>>::empty(),
{
    let t = type_statement(kw, clause, q, m);
    assert forall|j: int| 0 <= j < t.len() implies match_call_at(t, j, kw_require()) is None by {
        assert(!matches_at(t, j, kw_require()));
    }
    lemma_scan_call_none(t, 0, kw_require());
    assert forall|j: int| 0 <= j < t.len() implies match_jest_at(t, j) is None by {
        assert(!matches_at(t, j, kw_require()));
        assert(!matches_at(t, j, kw_jest()));
    }
    lemma_scan_jest_none(t, 0);
}

/// Law: a type-only import or export reports no dependency. A text that
/// consists of one such statement — with any clause, any specifier and any
/// quote style, and no other occurrence of the pattern keywords — extracts
/// nothing.
pub proof fn lemma_type_statement_not_reported(
    kw: Seq<char>,
    clause: Seq<char>,
    q: char,
    m: Seq<char>,
)
    requires
        kw == kw_import() || kw == kw_export(),
        is_quote(q),
        clause.len() >= 1,
        m.len() >= 1,
        forall|k: int| 0 <= k < clause.len() ==> plain_char(#[trigger] clause[k]),
        forall|k: int| 0 <= k < m.len() ==> plain_char(#[trigger] m[k]),
        forall|i: int| i != 0 ==> !matches_at(type_statement(kw, clause, q, m), i, kw_import()),
        forall|i: int| i != 0 ==> !matches_at(type_statement(kw, clause, q, m), i, kw_export()),
        forall|i: int| !matches_at(type_statement(kw, clause, q, m), i, kw_require()),
        forall|i: int| !matches_at(type_statement(kw, clause, q, m), i, kw_jest()),
    ensures
        dep_set(type_statement(kw, clause, q, m)) == Set::<Seq<char>>::empty(),
{
    let t = type_statement(kw, clause, q, m);
    lemma_ts_strip(kw, clause, q, m);
    lemma_ts_own_scan(kw, clause, q, m);
    let other = if kw == kw_import() {
        kw_export()
    } else {
        kw_import()
    };
    lemma_ts_other_scan(kw, clause, q, m, other);
    lemma_ts_dynamic_scan(kw, clause, q, m);
    lemma_ts_call_scans(kw, clause, q, m);
    assert(scan_ie(t, 0, kw_import()) == Seq::<Seq<char>>::empty());
    assert(scan_ie(t, 0, kw_export()) == Seq::<Seq<char>>::empty());
    assert(pattern_matches(t) =~= Seq::<Seq<char>>::empty());
    assert forall|x: Seq<char>| !(#[trigger] Seq::<Seq<char>>::empty().to_set().contains(x)) by {
        assert(!Seq::<Seq<char>>::empty().contains(x));
    }
    assert(dep_set(t) =~= Set::<Seq<char>>::empty());
}

} // verus!
