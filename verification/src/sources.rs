//! What holds of the texts of bindings as a whole: comments are gone after
//! being stripped once, and texts can be read one after the other or joined.

use vstd::prelude::*;

use crate::bindings;
use crate::bindings::{BindingsV, BroClassV};
use crate::table;
use crate::text;

verus! {

// ---------------------------------------------------------------------------
// Behind other text.

proof fn line_end_shift(p: Seq<char>, s: Seq<char>, k: int)
    requires
        0 <= k,
    ensures
        bindings::line_end(p + s, p.len() + k) == p.len() + bindings::line_end(s, k),
    decreases s.len() - k,
{
    if k < s.len() {
        assert((p + s)[p.len() + k] == s[k]);
        line_end_shift(p, s, k + 1);
    }
}

proof fn block_end_shift(p: Seq<char>, s: Seq<char>, k: int)
    requires
        0 <= k,
    ensures
        bindings::block_end(p + s, p.len() + k) == p.len() + bindings::block_end(s, k),
    decreases s.len() - k,
{
    if k + 1 < s.len() {
        assert((p + s)[p.len() + k] == s[k]);
        assert((p + s)[p.len() + k + 1] == s[k + 1]);
        block_end_shift(p, s, k + 1);
    }
}

proof fn quote_end_shift(p: Seq<char>, s: Seq<char>, k: int)
    requires
        0 <= k,
    ensures
        bindings::quote_end(p + s, p.len() + k) == p.len() + bindings::quote_end(s, k),
    decreases s.len() - k,
{
    if k < s.len() {
        assert((p + s)[p.len() + k] == s[k]);
        quote_end_shift(p, s, k + 1);
        if k + 2 <= s.len() {
            quote_end_shift(p, s, k + 2);
        }
    }
}

proof fn piece_end_shift(p: Seq<char>, s: Seq<char>, k: int)
    requires
        0 <= k < s.len(),
    ensures
        bindings::is_line_comment(p + s, p.len() + k) == bindings::is_line_comment(s, k),
        bindings::is_block_comment(p + s, p.len() + k) == bindings::is_block_comment(s, k),
        bindings::char_is(p + s, p.len() + k, '"') == bindings::char_is(s, k, '"'),
        bindings::piece_end(p + s, p.len() + k) == p.len() + bindings::piece_end(s, k),
        bindings::piece_text(p + s, p.len() + k) == bindings::piece_text(s, k),
        (p + s)[p.len() + k] == s[k],
{
    assert((p + s)[p.len() + k] == s[k]);
    if k + 1 < s.len() {
        assert((p + s)[p.len() + k + 1] == s[k + 1]);
    }
    line_end_shift(p, s, k);
    block_end_shift(p, s, k + 2);
    quote_end_shift(p, s, k + 1);
    bindings::pieces_advance(s, k);
    let e = bindings::piece_end(s, k);
    assert((p + s).subrange(p.len() + k, p.len() + e) =~= s.subrange(k, e));
}

proof fn uncommented_shift(p: Seq<char>, s: Seq<char>, k: int)
    requires
        0 <= k <= s.len(),
    ensures
        bindings::uncommented(p + s, p.len() + k) == bindings::uncommented(s, k),
    decreases s.len() - k,
{
    if k < s.len() {
        piece_end_shift(p, s, k);
        bindings::pieces_advance(s, k);
        let e = bindings::piece_end(s, k);
        uncommented_shift(p, s, e);
    }
}

/// A literal that is closed inside `w` ends there whatever follows.
proof fn quote_end_inside(w: Seq<char>, x: Seq<char>, y: Seq<char>, k: int)
    requires
        0 <= k,
        bindings::quote_end(w + x, k) < w.len(),
    ensures
        bindings::quote_end(w + y, k) == bindings::quote_end(w + x, k),
    decreases w.len() - k,
{
    let a = w + x;
    let b = w + y;
    if k <= a.len() {
        bindings::ends_ahead(a, k);
    }
    if k < w.len() {
        assert(a[k] == w[k] && b[k] == w[k]);
        if w[k] == '\\' && k + 2 <= a.len() {
            bindings::ends_ahead(a, k + 2);
            quote_end_inside(w, x, y, k + 2);
        } else if w[k] != '"' && w[k] != '\\' {
            quote_end_inside(w, x, y, k + 1);
        }
    }
}

// ---------------------------------------------------------------------------
// Stripping twice.

/// A comment starts at or behind `i`, outside literals.
pub open spec fn has_comment(s: Seq<char>, i: int) -> bool
    decreases s.len() - i,
{
    if i < 0 || i >= s.len() {
        false
    } else {
        proof {
            bindings::pieces_advance(s, i);
        }
        bindings::is_line_comment(s, i) || bindings::is_block_comment(s, i) || has_comment(s, bindings::piece_end(s, i))
    }
}

/// The line feeds at or behind `i`, outside block comments and literals.
pub open spec fn line_feeds(s: Seq<char>, i: int) -> nat
    decreases s.len() - i,
{
    if i < 0 || i >= s.len() {
        0
    } else {
        proof {
            bindings::pieces_advance(s, i);
        }
        line_feeds(s, bindings::piece_end(s, i)) + if s[i] == '\n' {
            1nat
        } else {
            0nat
        }
    }
}

/// From `i` on, every character outside comments and literals is ASCII.
pub open spec fn ascii_outside(s: Seq<char>, i: int) -> bool
    decreases s.len() - i,
{
    if i < 0 || i >= s.len() {
        true
    } else {
        proof {
            bindings::pieces_advance(s, i);
        }
        (bindings::is_line_comment(s, i) || bindings::is_block_comment(s, i) || s[i] <= '\u{7f}') && ascii_outside(
            s,
            bindings::piece_end(s, i),
        )
    }
}

proof fn has_comment_shift(p: Seq<char>, s: Seq<char>, k: int)
    requires
        0 <= k <= s.len(),
    ensures
        has_comment(p + s, p.len() + k) == has_comment(s, k),
        line_feeds(p + s, p.len() + k) == line_feeds(s, k),
    decreases s.len() - k,
{
    if k < s.len() {
        piece_end_shift(p, s, k);
        bindings::pieces_advance(s, k);
        has_comment_shift(p, s, bindings::piece_end(s, k));
    }
}

/// What is left of a text starts with the same piece and holds no comment.
proof fn stripped_again(s: Seq<char>, i: int)
    requires
        0 <= i <= s.len(),
        ascii_outside(s, i),
    ensures
        ({
            let u = bindings::uncommented(s, i);
            &&& bindings::uncommented(u, 0) == u
            &&& !has_comment(u, 0)
            &&& line_feeds(u, 0) == line_feeds(s, i)
            &&& i < s.len() && !bindings::is_line_comment(s, i) && !bindings::is_block_comment(s, i) ==> u.len() > 0 && u[0]
                == s[i]
            &&& i == s.len() ==> u.len() == 0
        }),
    decreases s.len() - i,
{
    if i < s.len() {
        bindings::pieces_advance(s, i);
        let e = bindings::piece_end(s, i);
        stripped_again(s, e);
        let u = bindings::uncommented(s, i);
        let rest = bindings::uncommented(s, e);
        if bindings::is_line_comment(s, i) || bindings::is_block_comment(s, i) {
            assert(u =~= rest);
        } else {
            let w = bindings::piece_text(s, i);
            assert(u == w + rest);
            if s[i] == '"' {
                let whole = s.skip(i);
                assert(s =~= s.take(i) + whole);
                assert(w + s.skip(e) =~= whole);
                quote_end_shift(s.take(i), whole, 1);
                let q = bindings::quote_end(whole, 1);
                if bindings::quote_end(s, i + 1) < s.len() {
                    assert(q < w.len());
                    quote_end_inside(w, s.skip(e), rest, 1);
                } else {
                    assert(e == s.len());
                    assert(u =~= whole);
                }
                assert(u[0] == s[i]);
                assert(bindings::piece_end(u, 0) == w.len());
                assert(bindings::piece_text(u, 0) =~= w);
            } else {
                bindings::ascii_is_itself(s[i]);
                assert(w == seq![s[i]]);
                assert(u[0] == s[i]);
                if s[i] == '/' && i + 1 < s.len() {
                    assert(!bindings::char_is(s, i + 1, '/'));
                    assert(rest[0] == s[i + 1]);
                    assert(u[1] == rest[0]);
                }
                assert(bindings::piece_end(u, 0) == 1);
                assert(bindings::piece_text(u, 0) == w);
            }
            uncommented_shift(w, rest, 0);
            has_comment_shift(w, rest, 0);
        }
    }
}

/// Stripping the comments of a text twice is stripping them once: no comment is
/// left outside literals, and every line feed outside block comments and
/// literals stays. Outside literals each byte of a character that is not ASCII
/// becomes a character of its own, so that such characters stand in comments
/// and literals alone.
pub proof fn stripping_is_done_once(src: Seq<char>)
    requires
        ascii_outside(src, 0),
    ensures
        ({
            let once = bindings::uncommented(src, 0);
            &&& bindings::uncommented(once, 0) == once
            &&& !has_comment(once, 0)
            &&& line_feeds(once, 0) == line_feeds(src, 0)
        }),
{
    stripped_again(src, 0);
}

// ---------------------------------------------------------------------------
// Joined texts: comments.

/// Every block comment and every literal from `i` on is closed.
pub open spec fn is_closed(b: Seq<char>, i: int) -> bool
    decreases b.len() - i,
{
    if i < 0 || i >= b.len() {
        true
    } else {
        proof {
            bindings::pieces_advance(b, i);
        }
        (if bindings::is_line_comment(b, i) {
            true
        } else if bindings::is_block_comment(b, i) {
            bindings::block_end(b, i + 2) + 1 < b.len()
        } else if b[i] == '"' {
            bindings::quote_end(b, i + 1) < b.len()
        } else {
            true
        }) && is_closed(b, bindings::piece_end(b, i))
    }
}

proof fn line_end_joined(a: Seq<char>, b: Seq<char>, i: int)
    requires
        0 <= i <= a.len(),
    ensures
        bindings::line_end(a + seq!['\n'] + b, i) == bindings::line_end(a, i),
    decreases a.len() - i,
{
    let t = a + seq!['\n'] + b;
    if i < a.len() {
        assert(t[i] == a[i]);
        line_end_joined(a, b, i + 1);
    } else {
        assert(t[i] == '\n');
    }
}

proof fn block_end_joined(a: Seq<char>, b: Seq<char>, i: int)
    requires
        0 <= i,
        bindings::block_end(a, i) + 1 < a.len(),
    ensures
        bindings::block_end(a + b, i) == bindings::block_end(a, i),
    decreases a.len() - i,
{
    if i + 1 < a.len() {
        assert((a + b)[i] == a[i] && (a + b)[i + 1] == a[i + 1]);
        if !(a[i] == '*' && a[i + 1] == '/') {
            block_end_joined(a, b, i + 1);
        }
    }
}

proof fn uncommented_joined(a: Seq<char>, b: Seq<char>, i: int)
    requires
        0 <= i <= a.len(),
        is_closed(a, i),
    ensures
        bindings::uncommented(a + seq!['\n'] + b, i) == bindings::uncommented(a, i) + seq!['\n'] + bindings::uncommented(
            b,
            0,
        ),
    decreases a.len() - i,
{
    let t = a + seq!['\n'] + b;
    let end = seq!['\n'] + bindings::uncommented(b, 0);
    let p = a + seq!['\n'];
    if i == a.len() {
        assert(t[i] == '\n');
        assert(bindings::piece_end(t, i) == i + 1);
        bindings::ascii_is_itself('\n');
        uncommented_shift(p, b, 0);
        assert(bindings::uncommented(a, i) =~= Seq::empty());
        assert(Seq::<char>::empty() + seq!['\n'] + bindings::uncommented(b, 0) =~= end);
    } else {
        bindings::pieces_advance(a, i);
        let e = bindings::piece_end(a, i);
        assert(t[i] == a[i]);
        if i + 1 < a.len() {
            assert(t[i + 1] == a[i + 1]);
        } else {
            assert(t[i + 1] == '\n');
        }
        uncommented_joined(a, b, e);
        let rest = bindings::uncommented(a, e);
        assert(bindings::is_line_comment(t, i) == bindings::is_line_comment(a, i));
        assert(bindings::is_block_comment(t, i) == bindings::is_block_comment(a, i));
        assert(bindings::piece_end(t, i) == e) by {
            if bindings::is_line_comment(a, i) {
                line_end_joined(a, b, i);
            } else if bindings::is_block_comment(a, i) {
                block_end_joined(a, seq!['\n'] + b, i + 2);
                assert(t =~= a + (seq!['\n'] + b));
            } else if a[i] == '"' {
                assert(a + Seq::<char>::empty() =~= a);
                quote_end_inside(a, Seq::empty(), seq!['\n'] + b, i + 1);
                assert(t =~= a + (seq!['\n'] + b));
            }
        }
        assert(bindings::piece_text(t, i) == bindings::piece_text(a, i)) by {
            assert(t.subrange(i, e) =~= a.subrange(i, e));
        }
        let piece = bindings::piece_text(a, i);
        let last = bindings::uncommented(b, 0);
        assert(piece + (rest + seq!['\n'] + last) =~= piece + rest + seq!['\n'] + last);
    }
}

// ---------------------------------------------------------------------------
// Joined texts: attributes.

/// A text without line feeds.
pub open spec fn on_one_line(s: Seq<char>) -> bool {
    s.len() > 0 && forall|i: int| 0 <= i < s.len() ==> #[trigger] s[i] != '\n'
}

proof fn at_shift(p: Seq<char>, s: Seq<char>, pat: Seq<char>, k: int)
    requires
        0 <= k,
    ensures
        text::at(p + s, pat, p.len() + k) == text::at(s, pat, k),
{
    if k + pat.len() <= s.len() {
        assert((p + s).subrange(p.len() + k, p.len() + k + pat.len()) =~= s.subrange(k, k + pat.len()));
    }
}

proof fn sub_from_shift(p: Seq<char>, s: Seq<char>, pat: Seq<char>, k: int)
    requires
        0 <= k,
    ensures
        text::sub_from(p + s, pat, p.len() + k) == match text::sub_from(s, pat, k) {
            Some(i) => Some(p.len() + i),
            None => None,
        },
    decreases s.len() + 1 - k,
{
    if k <= s.len() {
        at_shift(p, s, pat, k);
        sub_from_shift(p, s, pat, k + 1);
    }
}

/// What stands on one line stands before a line feed or behind it.
proof fn sub_from_joined(a: Seq<char>, b: Seq<char>, pat: Seq<char>, from: int)
    requires
        0 <= from <= a.len(),
        on_one_line(pat),
    ensures
        text::sub_from(a + seq!['\n'] + b, pat, from) == match text::sub_from(a, pat, from) {
            Some(i) => Some(i),
            None => text::sub_from(a + seq!['\n'] + b, pat, a.len() as int + 1),
        },
    decreases a.len() + 1 - from,
{
    let t = a + seq!['\n'] + b;
    let n = pat.len() as int;
    assert(t[a.len() as int] == '\n');
    if from + n <= a.len() {
        assert(t.subrange(from, from + n) =~= a.subrange(from, from + n));
    } else if text::at(t, pat, from) {
        let k = a.len() - from;
        assert(t.subrange(from, from + n)[k] == '\n');
        assert(pat[k] != '\n');
    }
    assert(text::at(t, pat, from) == text::at(a, pat, from));
    if !text::at(a, pat, from) {
        if from < a.len() {
            sub_from_joined(a, b, pat, from + 1);
        } else {
            assert(text::sub_from(a, pat, from + 1) is None);
        }
    }
}

/// Every attribute from `from` on is closed.
pub open spec fn attributes_closed(s: Seq<char>, from: int) -> bool
    decreases s.len() - from,
    via attributes_closed_decreases
{
    match text::sub_from(s, "[["@, from) {
        None => true,
        Some(i) => match text::sub_from(s, "]]"@, i) {
            Some(j) => attributes_closed(s, j + 2),
            None => false,
        },
    }
}

#[via_fn]
proof fn attributes_closed_decreases(s: Seq<char>, from: int) {
    text::sub_from_bounds(s, "[["@, from);
    if let Some(i) = text::sub_from(s, "[["@, from) {
        text::sub_from_bounds(s, "]]"@, i);
        reveal_strlit("]]");
    }
}

proof fn unattributed_shift(p: Seq<char>, s: Seq<char>, k: int)
    requires
        0 <= k <= s.len(),
    ensures
        bindings::unattributed(p + s, p.len() + k) == bindings::unattributed(s, k),
    decreases s.len() - k,
{
    sub_from_shift(p, s, "[["@, k);
    text::sub_from_bounds(s, "[["@, k);
    reveal_strlit("[[");
    reveal_strlit("]]");
    match text::sub_from(s, "[["@, k) {
        None => {
            assert((p + s).skip(p.len() + k) =~= s.skip(k));
        },
        Some(i) => {
            assert((p + s).subrange(p.len() + k, p.len() + i) =~= s.subrange(k, i));
            sub_from_shift(p, s, "]]"@, i);
            text::sub_from_bounds(s, "]]"@, i);
            if let Some(j) = text::sub_from(s, "]]"@, i) {
                unattributed_shift(p, s, j + 2);
            }
        },
    }
}

/// A text without attributes from `from` to `to` keeps that part.
proof fn unattributed_front(t: Seq<char>, from: int, to: int)
    requires
        0 <= from <= to <= t.len(),
        text::sub_from(t, "[["@, from) == text::sub_from(t, "[["@, to),
    ensures
        bindings::unattributed(t, from) == t.subrange(from, to) + bindings::unattributed(t, to),
{
    text::sub_from_bounds(t, "[["@, to);
    match text::sub_from(t, "[["@, to) {
        None => {
            assert(t.skip(from) =~= t.subrange(from, to) + t.skip(to));
        },
        Some(i) => {
            let rest = match text::sub_from(t, "]]"@, i) {
                Some(j) => bindings::unattributed(t, j + 2),
                None => Seq::empty(),
            };
            assert(t.subrange(from, i) + rest =~= t.subrange(from, to) + (t.subrange(to, i) + rest));
        },
    }
}

proof fn unattributed_joined(a: Seq<char>, b: Seq<char>, from: int)
    requires
        0 <= from <= a.len(),
        attributes_closed(a, from),
    ensures
        bindings::unattributed(a + seq!['\n'] + b, from) == bindings::unattributed(a, from) + seq!['\n']
            + bindings::unattributed(b, 0),
    decreases a.len() - from,
{
    let t = a + seq!['\n'] + b;
    let p = a + seq!['\n'];
    reveal_strlit("[[");
    reveal_strlit("]]");
    sub_from_joined(a, b, "[["@, from);
    text::sub_from_bounds(a, "[["@, from);
    let last = bindings::unattributed(b, 0);
    match text::sub_from(a, "[["@, from) {
        None => {
            unattributed_front(t, from, a.len() as int + 1);
            unattributed_shift(p, b, 0);
            assert(t.subrange(from, a.len() as int + 1) =~= a.skip(from) + seq!['\n']);
        },
        Some(i) => {
            sub_from_joined(a, b, "]]"@, i);
            text::sub_from_bounds(a, "]]"@, i);
            if let Some(j) = text::sub_from(a, "]]"@, i) {
                unattributed_joined(a, b, j + 2);
                assert(t.subrange(from, i) =~= a.subrange(from, i));
                let head = a.subrange(from, i);
                let rest = bindings::unattributed(a, j + 2);
                assert(head + (rest + seq!['\n'] + last) =~= head + rest + seq!['\n'] + last);
            }
        },
    }
}

// ---------------------------------------------------------------------------
// Joined texts: classes.

/// Every class that a text declares from `from` on has its body.
pub open spec fn is_complete(s: Seq<char>, from: int) -> bool
    decreases s.len() - from,
    via is_complete_decreases
{
    match text::sub_from(s, "class "@, from) {
        None => true,
        Some(i) => match text::index_from(s, '{', i + 6) {
            None => false,
            Some(open) => if !(i == from || !bindings::is_word_char(s[i - 1])) || text::index_from(
                s.subrange(i + 6, open),
                ';',
                0,
            ) is Some {
                is_complete(s, i + 6)
            } else {
                match bindings::close_brace(s, open, 0) {
                    None => false,
                    Some(close) => open < close < s.len() && is_complete(s, close + 1),
                }
            },
        },
    }
}

#[via_fn]
proof fn is_complete_decreases(s: Seq<char>, from: int) {
    text::sub_from_bounds(s, "class "@, from);
    if let Some(i) = text::sub_from(s, "class "@, from) {
        reveal_strlit("class ");
        text::index_from_bounds(s, '{', i + 6);
    }
}

proof fn index_from_shift(p: Seq<char>, s: Seq<char>, c: char, k: int)
    requires
        0 <= k,
    ensures
        text::index_from(p + s, c, p.len() + k) == match text::index_from(s, c, k) {
            Some(i) => Some(p.len() + i),
            None => None,
        },
    decreases s.len() - k,
{
    if k < s.len() {
        assert((p + s)[p.len() + k] == s[k]);
        index_from_shift(p, s, c, k + 1);
    }
}

proof fn close_brace_shift(p: Seq<char>, s: Seq<char>, k: int, depth: int)
    requires
        0 <= k,
    ensures
        bindings::close_brace(p + s, p.len() + k, depth) == match bindings::close_brace(s, k, depth) {
            Some(i) => Some(p.len() + i),
            None => None,
        },
    decreases s.len() - k,
{
    if k < s.len() {
        assert((p + s)[p.len() + k] == s[k]);
        close_brace_shift(p, s, k + 1, depth + 1);
        close_brace_shift(p, s, k + 1, depth - 1);
        close_brace_shift(p, s, k + 1, depth);
    }
}

proof fn index_from_joined(a: Seq<char>, b: Seq<char>, c: char, k: int)
    requires
        0 <= k,
        text::index_from(a, c, k) is Some,
    ensures
        text::index_from(a + b, c, k) == text::index_from(a, c, k),
    decreases a.len() - k,
{
    if k < a.len() {
        assert((a + b)[k] == a[k]);
        if a[k] != c {
            index_from_joined(a, b, c, k + 1);
        }
    }
}

proof fn close_brace_joined(a: Seq<char>, b: Seq<char>, k: int, depth: int)
    requires
        0 <= k,
        bindings::close_brace(a, k, depth) is Some,
    ensures
        bindings::close_brace(a + b, k, depth) == bindings::close_brace(a, k, depth),
    decreases a.len() - k,
{
    if k < a.len() {
        assert((a + b)[k] == a[k]);
        if a[k] == '{' {
            close_brace_joined(a, b, k + 1, depth + 1);
        } else if a[k] == '}' {
            if depth - 1 != 0 {
                close_brace_joined(a, b, k + 1, depth - 1);
            }
        } else {
            close_brace_joined(a, b, k + 1, depth);
        }
    }
}

proof fn classes_shift(cs: Seq<(Seq<char>, BroClassV)>, p: Seq<char>, s: Seq<char>, k: int)
    requires
        0 <= k <= s.len(),
    ensures
        bindings::classes_from(cs, p + s, p.len() + k) == bindings::classes_from(cs, s, k),
    decreases s.len() - k,
{
    let t = p + s;
    let n = p.len() as int;
    sub_from_shift(p, s, "class "@, k);
    text::sub_from_bounds(s, "class "@, k);
    reveal_strlit("class ");
    if let Some(i) = text::sub_from(s, "class "@, k) {
        index_from_shift(p, s, '{', i + 6);
        text::index_from_bounds(s, '{', i + 6);
        if let Some(open) = text::index_from(s, '{', i + 6) {
            assert(t.subrange(n + i + 6, n + open) =~= s.subrange(i + 6, open));
            if i > k {
                assert(t[n + i - 1] == s[i - 1]);
            }
            close_brace_shift(p, s, open, 0);
            let header = s.subrange(i + 6, open);
            let at_word = i == k || !bindings::is_word_char(s[i - 1]);
            if !at_word || text::index_from(header, ';', 0) is Some {
                classes_shift(cs, p, s, i + 6);
            } else if let Some(close) = bindings::close_brace(s, open, 0) {
                if open < close < s.len() {
                    assert(t.subrange(n + open + 1, n + close) =~= s.subrange(open + 1, close));
                    let c = bindings::class_of(header, s.subrange(open + 1, close));
                    classes_shift(table::put(cs, c.name, c), p, s, close + 1);
                }
            }
        }
    }
}

proof fn classes_joined(cs: Seq<(Seq<char>, BroClassV)>, a: Seq<char>, b: Seq<char>, from: int)
    requires
        0 <= from <= a.len(),
        is_complete(a, from),
    ensures
        bindings::classes_from(cs, a + seq!['\n'] + b, from) == bindings::classes_from(
            bindings::classes_from(cs, a, from),
            b,
            0,
        ),
    decreases a.len() - from,
{
    let t = a + seq!['\n'] + b;
    let p = a + seq!['\n'];
    let more = seq!['\n'] + b;
    assert(t =~= a + more);
    reveal_strlit("class ");
    sub_from_joined(a, b, "class "@, from);
    text::sub_from_bounds(a, "class "@, from);
    match text::sub_from(a, "class "@, from) {
        None => {
            let n = a.len() as int + 1;
            classes_shift(cs, p, b, 0);
            text::sub_from_bounds(t, "class "@, n);
            if let Some(i) = text::sub_from(t, "class "@, n) {
                if i == n {
                    assert(t[i - 1] == '\n');
                }
            }
            assert(bindings::classes_from(cs, t, from) == bindings::classes_from(cs, t, n));
        },
        Some(i) => {
            text::index_from_bounds(a, '{', i + 6);
            index_from_joined(a, more, '{', i + 6);
            let open = text::index_from(a, '{', i + 6).unwrap();
            assert(t.subrange(i + 6, open) =~= a.subrange(i + 6, open));
            if i > 0 {
                assert(t[i - 1] == a[i - 1]);
            }
            let header = a.subrange(i + 6, open);
            let at_word = i == from || !bindings::is_word_char(a[i - 1]);
            if !at_word || text::index_from(header, ';', 0) is Some {
                classes_joined(cs, a, b, i + 6);
            } else {
                close_brace_joined(a, more, open, 0);
                let close = bindings::close_brace(a, open, 0).unwrap();
                assert(t.subrange(open + 1, close) =~= a.subrange(open + 1, close));
                let c = bindings::class_of(header, a.subrange(open + 1, close));
                classes_joined(table::put(cs, c.name, c), a, b, close + 1);
            }
        },
    }
}

/// The text that classes are read from.
pub open spec fn plain_text(src: Seq<char>) -> Seq<char> {
    bindings::unattributed(bindings::uncommented(src, 0), 0)
}

/// Reading two texts one after the other is reading them joined by a line feed,
/// where the first closes its comments, literals and attributes and gives each
/// of its classes a body.
pub proof fn texts_are_read_in_turn(b: BindingsV, x: Seq<char>, y: Seq<char>)
    requires
        is_closed(x, 0),
        attributes_closed(bindings::uncommented(x, 0), 0),
        is_complete(plain_text(x), 0),
    ensures
        b.with_bro(x).with_bro(y) == b.with_bro(x + seq!['\n'] + y),
{
    uncommented_joined(x, y, 0);
    unattributed_joined(bindings::uncommented(x, 0), bindings::uncommented(y, 0), 0);
    classes_joined(b.classes, plain_text(x), plain_text(y), 0);
}

} // verus!
