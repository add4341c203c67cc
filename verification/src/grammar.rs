//! What holds of the texts that are read: words and numbers, the statements of
//! bindings and the tokens of signatures.

use vstd::prelude::*;

use crate::bindings;
use crate::bindings::{BroClassV, BroFunctionV, BroMemberV};
use crate::num;
use crate::sigs;
use crate::sigs::{Cap, FaultV, Kind, LineV, PatternV, SigV};
use crate::text;

verus! {

// ---------------------------------------------------------------------------
// Words and pieces.

/// A trimmed text is the part between the first and the last character that is
/// no white space.
pub proof fn trimming_keeps_the_middle(s: Seq<char>, a: int, b: int)
    requires
        0 <= a < b <= s.len(),
        forall|k: int| 0 <= k < a ==> text::space(#[trigger] s[k]),
        forall|k: int| b <= k < s.len() ==> text::space(#[trigger] s[k]),
        !text::space(s[a]),
        !text::space(s[b - 1]),
    ensures
        text::trimmed(s) == s.subrange(a, b),
{
    first_is(s, 0, a);
    last_is(s, s.len() as int, b);
}

proof fn first_is(s: Seq<char>, from: int, a: int)
    requires
        0 <= from <= a < s.len(),
        forall|k: int| from <= k < a ==> text::space(#[trigger] s[k]),
        !text::space(s[a]),
    ensures
        text::first_word(s, from) == a,
    decreases a - from,
{
    if from < a {
        first_is(s, from + 1, a);
    }
}

proof fn last_is(s: Seq<char>, to: int, b: int)
    requires
        0 < b <= to <= s.len(),
        forall|k: int| b <= k < to ==> text::space(#[trigger] s[k]),
        !text::space(s[b - 1]),
    ensures
        text::last_word(s, to) == b,
    decreases to - b,
{
    if b < to {
        last_is(s, to - 1, b);
    }
}

proof fn end_is(s: Seq<char>, from: int, b: int)
    requires
        0 <= from <= b <= s.len(),
        forall|k: int| from <= k < b ==> !text::space(#[trigger] s[k]),
        b < s.len() ==> text::space(s[b]),
    ensures
        text::word_end(s, from) == b,
    decreases b - from,
{
    if from < b {
        end_is(s, from + 1, b);
    }
}

/// A word stands from `a` to `b` where white space does not, and what comes
/// before it are the words of what comes before.
pub proof fn first_words_stand_first(s: Seq<char>, from: int, a: int, b: int)
    requires
        0 <= from <= a < b <= s.len(),
        forall|k: int| from <= k < a ==> text::space(#[trigger] s[k]),
        forall|k: int| a <= k < b ==> !text::space(#[trigger] s[k]),
        b < s.len() ==> text::space(s[b]),
    ensures
        text::words_from(s, from) == seq![s.subrange(a, b)] + text::words_from(s, b),
{
    first_is(s, from, a);
    end_is(s, a, b);
}

/// Two words with one blank between them are read as those two.
pub proof fn two_words_are_two(a: Seq<char>, b: Seq<char>)
    requires
        a.len() > 0,
        b.len() > 0,
        forall|k: int| 0 <= k < a.len() ==> !text::space(#[trigger] a[k]),
        forall|k: int| 0 <= k < b.len() ==> !text::space(#[trigger] b[k]),
    ensures
        text::words(a + seq![' '] + b) == seq![a, b],
{
    let s = a + seq![' '] + b;
    let n = a.len() as int;
    let m = s.len() as int;
    assert forall|k: int| 0 <= k < n implies !text::space(#[trigger] s[k]) by {
        assert(s[k] == a[k]);
    }
    assert forall|k: int| n + 1 <= k < m implies !text::space(#[trigger] s[k]) by {
        assert(s[k] == b[k - n - 1]);
    }
    assert(s[n] == ' ');
    first_words_stand_first(s, 0, 0, n);
    first_words_stand_first(s, n, n + 1, m);
    assert(text::words_from(s, m) =~= Seq::empty());
    assert(s.subrange(0, n) =~= a);
    assert(s.subrange(n + 1, m) =~= b);
    assert(text::words(s) =~= seq![a, b]);
}

/// The pieces of a text hold no separator, and are the text again with one
/// separator between them.
pub proof fn pieces_rejoin(s: Seq<char>, c: char, from: int)
    requires
        0 <= from <= s.len(),
    ensures
        ({
            let p = text::split_from(s, c, from);
            &&& p.len() > 0
            &&& text::joined(p, seq![c], p.len()) == s.skip(from)
            &&& forall|i: int, k: int| 0 <= i < p.len() && 0 <= k < p[i].len() ==> (#[trigger] p[i][k]) != c
        }),
    decreases s.len() - from,
{
    let p = text::split_from(s, c, from);
    text::index_from_bounds(s, c, from);
    match text::index_from(s, c, from) {
        Some(i) => {
            pieces_rejoin(s, c, i + 1);
            let q = text::split_from(s, c, i + 1);
            let head = s.subrange(from, i);
            no_such(s, c, from, i);
            joined_front(head, q, seq![c], q.len());
            assert(p == seq![head] + q);
            assert(s.skip(from) =~= head + seq![c] + s.skip(i + 1));
            assert forall|a: int, k: int| 0 <= a < p.len() && 0 <= k < p[a].len() implies (#[trigger] p[a][k]) != c by {
                if a == 0 {
                    assert(p[a][k] == s[from + k]);
                } else {
                    assert(p[a] == q[a - 1]);
                    assert(q[a - 1][k] != c);
                }
            }
        },
        None => {
            assert(p[0] == s.skip(from));
            none_such(s, c, from);
            assert forall|a: int, k: int| 0 <= a < p.len() && 0 <= k < p[a].len() implies (#[trigger] p[a][k]) != c by {
                assert(p[a][k] == s[from + k]);
            }
        },
    }
}

proof fn no_such(s: Seq<char>, c: char, from: int, i: int)
    requires
        0 <= from,
        text::index_from(s, c, from) == Some(i),
    ensures
        from <= i < s.len() && s[i] == c,
        forall|k: int| from <= k < i ==> #[trigger] s[k] != c,
    decreases s.len() - from,
{
    if from < s.len() && s[from] != c {
        no_such(s, c, from + 1, i);
    }
}

proof fn none_such(s: Seq<char>, c: char, from: int)
    requires
        0 <= from,
        text::index_from(s, c, from) is None,
    ensures
        forall|k: int| from <= k < s.len() ==> #[trigger] s[k] != c,
    decreases s.len() - from,
{
    if from < s.len() {
        none_such(s, c, from + 1);
    }
}

proof fn joined_front(head: Seq<char>, q: Seq<Seq<char>>, sep: Seq<char>, n: nat)
    requires
        0 < n <= q.len(),
    ensures
        text::joined(seq![head] + q, sep, n + 1) == head + sep + text::joined(q, sep, n),
    decreases n,
{
    let p = seq![head] + q;
    if n == 1 {
        assert(p[0] == head && p[1] == q[0]);
        assert(text::joined(p, sep, 1) == head);
    } else {
        joined_front(head, q, sep, (n - 1) as nat);
        assert(p[n as int] == q[n - 1]);
        let x = text::joined(q, sep, (n - 1) as nat);
        assert((head + sep + x) + sep + q[n - 1] =~= head + sep + (x + sep + q[n - 1]));
    }
}

// ---------------------------------------------------------------------------
// Numbers.

/// A number that is written in hexadecimal behind `0x` is read as that number.
pub proof fn hexadecimal_is_read(n: int)
    requires
        0 <= n <= u64::MAX,
    ensures
        bindings::hex_number(num::hex(n)) == Some(n),
        n <= i64::MAX ==> num::number(num::hex(n)) == Some(n),
{
    let d = num::digits(n, 16);
    let t = num::hex(n);
    num::digits_value(n, 16);
    reveal_strlit("0x");
    reveal_strlit("0X");
    assert(t.len() == d.len() + 2);
    assert(t.skip(2) =~= d);
    assert(t.subrange(0, 2) =~= "0x"@);
    assert(num::digit(d[0], 16) is Some);
    assert(d[0] != '+' && d[0] != '-');
    let last = d[d.len() - 1];
    assert(num::digit(last, 16) is Some);
    assert(t[0] == '0' && t[t.len() - 1] == last);
    trimming_keeps_the_middle(t, 0, t.len() as int);
    assert(t.subrange(0, t.len() as int) =~= t);
}

/// A number that is written in decimal is read as that number.
pub proof fn decimal_is_read(n: int)
    requires
        0 <= n <= i64::MAX,
    ensures
        num::number(num::dec(n)) == Some(n),
        num::unsigned(num::dec(n), 10, i64::MAX as int) == Some(n),
{
    let d = num::dec(n);
    num::digits_value(n, 10);
    reveal_strlit("0x");
    reveal_strlit("0X");
    assert(num::digit(d[0], 10) is Some);
    assert(d[0] != '+' && d[0] != '-');
    if d.len() >= 2 {
        assert(num::digit(d[1], 10) is Some);
        assert(d.subrange(0, 2)[1] == d[1]);
        assert("0x"@[1] == 'x' && "0X"@[1] == 'X');
    }
}

/// Two hexadecimal digits are one byte.
pub proof fn two_digits_are_a_byte(a: char, b: char, x: int, y: int)
    requires
        num::digit(a, 16) == Some(x),
        num::digit(b, 16) == Some(y),
    ensures
        num::unsigned(seq![a, b], 16, 255) == Some(16 * x + y),
        0 <= x < 16 && 0 <= y < 16,
{
    let s = seq![a, b];
    assert(s[0] == a && s[1] == b && s.len() == 2);
    reveal_with_fuel(num::value, 3);
    assert(a != '+');
}

/// The digits of hexadecimal, in either case.
pub proof fn digits_have_their_values(c: char)
    ensures
        '0' <= c <= '9' ==> num::digit(c, 16) == Some(c as int - '0' as int),
        'a' <= c <= 'f' ==> num::digit(c, 16) == Some(c as int - 'a' as int + 10),
        'A' <= c <= 'F' ==> num::digit(c, 16) == Some(c as int - 'A' as int + 10),
        !('0' <= c <= '9') && !('a' <= c <= 'f') && !('A' <= c <= 'F') ==> num::digit(c, 16) is None,
{
}

// ---------------------------------------------------------------------------
// Tokens of a pattern.

/// A token of two hexadecimal digits fixes one more byte of a pattern.
pub proof fn byte_tokens_fix_bytes(p: PatternV, a: char, b: char, x: int, y: int)
    requires
        num::digit(a, 16) == Some(x),
        num::digit(b, 16) == Some(y),
    ensures
        sigs::with_token(p, seq![a, b]) == Ok::<PatternV, FaultV>(
            PatternV { bytes: p.bytes.push(Some((16 * x + y) as u8)), ..p },
        ),
{
    let tok = seq![a, b];
    two_digits_are_a_byte(a, b, x, y);
    assert(tok[0] == a && tok[1] == b);
    no_capture(tok);
    reveal_strlit("?");
    reveal_strlit("??");
    reveal_strlit("+");
    reveal_strlit("-");
    assert(a != '?' && a != '+' && a != '-');
    assert("??"@[0] == '?');
    if text::prefixed(tok, "+"@) {
        assert(tok.subrange(0, 1)[0] == a);
    }
    if text::prefixed(tok, "-"@) {
        assert(tok.subrange(0, 1)[0] == a);
    }
    assert(vstd::utf8::is_ascii_chars(tok)) by {
        assert forall|i: int| 0 <= i < tok.len() implies '\0' <= #[trigger] tok[i] <= '\u{7f}' by {
            assert(i == 0 || i == 1);
        }
    }
    vstd::utf8::is_ascii_chars_encode_utf8(tok);
}

/// What does not start with a bracket is no capture.
proof fn no_capture(tok: Seq<char>)
    requires
        tok.len() == 2,
    ensures
        Cap::named(text::lowered(tok)) is None,
{
    reveal_strlit("[rel32]");
    reveal_strlit("[rip]");
    reveal_strlit("[u32]");
    reveal_strlit("[4]");
    reveal_strlit("[i32]");
    reveal_strlit("[u16]");
    reveal_strlit("[2]");
    reveal_strlit("[u8]");
    reveal_strlit("[1]");
    reveal_strlit("[i8]");
    assert(text::lowered(tok).len() == 2);
}

/// A capture stands for as many bytes as it reads, whatever they are, from
/// where the pattern has come to; a second one is refused.
pub proof fn captures_leave_bytes_open(p: PatternV, c: Cap)
    requires
        p.bytes.len() <= usize::MAX,
    ensures
        ({
            let n: nat = match c {
                Cap::Rel32 => 4,
                Cap::U32 => 4,
                Cap::I32 => 4,
                Cap::U16 => 2,
                Cap::U8 => 1,
                Cap::I8 => 1,
            };
            match sigs::with_token(p, c.text()) {
                Ok(q) => p.capture is None && q.capture == Some((p.bytes.len() as usize, c)) && q.bytes.len() == p.bytes.len() + n
                    && q.adjust == p.adjust && (forall|i: int|
                    0 <= i < q.bytes.len() ==> #[trigger] q.bytes[i] == if i < p.bytes.len() {
                        p.bytes[i]
                    } else {
                        None
                    }),
                Err(e) => p.capture is Some && e == FaultV::SecondCapture,
            }
        }),
{
    reveal_strlit("[rel32]");
    reveal_strlit("[u32]");
    reveal_strlit("[i32]");
    reveal_strlit("[u16]");
    reveal_strlit("[u8]");
    reveal_strlit("[i8]");
    let t = c.text();
    assert(text::lowered(t) =~= t);
    reveal_strlit("[rip]");
    reveal_strlit("[4]");
    reveal_strlit("[2]");
    reveal_strlit("[1]");
    assert("[u32]"@[1] == 'u' && "[i32]"@[1] == 'i' && "[rel32]"@[1] == 'r');
    assert("[u16]"@[2] == '1' && "[u32]"@[2] == '3');
    assert("[u8]"@[1] == 'u' && "[i8]"@[1] == 'i');
}

/// A question mark leaves one byte open.
pub proof fn question_marks_leave_bytes_open(p: PatternV)
    ensures
        sigs::with_token(p, "??"@) == Ok::<PatternV, FaultV>(PatternV { bytes: p.bytes.push(None), ..p }),
{
    reveal_strlit("??");
    no_capture("??"@);
}

// ---------------------------------------------------------------------------
// Statements of bindings.

/// No character from `a` to `b` is one of these.
pub open spec fn free_of(s: Seq<char>, a: int, b: int, c: char) -> bool {
    forall|k: int| a <= k < b ==> #[trigger] s[k] != c
}

proof fn opens_at(s: Seq<char>, from: int, p: int)
    requires
        0 <= from <= p < s.len(),
        free_of(s, from, p, '('),
        free_of(s, from, p, '<'),
        free_of(s, from, p, '>'),
        s[p] == '(',
    ensures
        bindings::top_level(s, '(', from, 0) == Some(p),
    decreases p - from,
{
    if from < p {
        assert(s[from] != '(' && s[from] != '<' && s[from] != '>');
        opens_at(s, from + 1, p);
    }
}

proof fn closes_at(s: Seq<char>, from: int, q: int)
    requires
        0 <= from <= q < s.len(),
        free_of(s, from, q, '('),
        free_of(s, from, q, ')'),
        s[q] == ')',
    ensures
        bindings::paren_end(s, from, 1) == Some(q + 1),
    decreases q - from,
{
    if from < q {
        assert(s[from] != '(' && s[from] != ')');
        closes_at(s, from + 1, q);
    }
}

proof fn value_is(parts: Seq<Seq<char>>, platform: Seq<char>, from: int, i: int, h: Seq<char>)
    requires
        0 <= from <= i < parts.len(),
        text::words(parts[i]) == seq![platform, h],
        forall|j: int| from <= j < i ==> text::words(#[trigger] parts[j]).len() == 0 || text::words(parts[j])[0] != platform,
    ensures
        bindings::value_in(parts, platform, from) == bindings::hex_number(h),
    decreases i - from,
{
    if from < i {
        value_is(parts, platform, from + 1, i, h);
    } else {
        assert(seq![platform, h][0] == platform && seq![platform, h][1] == h);
    }
}

proof fn last_sign(s: Seq<char>, e: int)
    requires
        0 <= e < s.len(),
        s[e] == '=',
        free_of(s, e + 1, s.len() as int, '='),
    ensures
        text::tail_of(s, "="@) == s.skip(e + 1),
        text::index_from(s, '=', 0) is Some,
{
    reveal_strlit("=");
    assert(s.subrange(e, e + 1) =~= "="@);
    assert forall|k: int| e < k <= s.len() implies !#[trigger] text::at(s, "="@, k) by {
        if text::at(s, "="@, k) {
            assert(s.subrange(k, k + 1)[0] == s[k]);
            assert("="@[0] == '=');
        }
    }
    text::last_sub_is(s, "="@, e, s.len() as int);
    if text::index_from(s, '=', 0) is None {
        none_such(s, '=', 0);
        assert(s[e] != '=');
    }
}

/// A statement with parameters declares a function. Its address is the one that
/// the list behind the last equals sign gives for Windows: the number behind
/// the word `win`, in the first part of the list that starts with it.
pub proof fn windows_addresses_are_read(
    cls: BroClassV,
    st: Seq<char>,
    p: int,
    q: int,
    e: int,
    i: int,
    h: Seq<char>,
)
    requires
        text::after(st, "PAD"@) is None,
        0 <= p < q < e < st.len(),
        free_of(st, 0, p, '('),
        free_of(st, 0, p, '<'),
        free_of(st, 0, p, '>'),
        st[p] == '(',
        free_of(st, p + 1, q, '('),
        free_of(st, p + 1, q, ')'),
        st[q] == ')',
        st[e] == '=',
        free_of(st, e + 1, st.len() as int, '='),
        ({
            let parts = text::split(st.skip(e + 1), ',');
            &&& 0 <= i < parts.len() && text::words(parts[i]) == seq!["win"@, h]
            &&& forall|j: int|
                0 <= j < i ==> text::words(#[trigger] parts[j]).len() == 0 || text::words(parts[j])[0] != "win"@
        }),
    ensures
        ({
            let r = bindings::with_statement(cls, st);
            let f = r.functions.last();
            &&& r.functions.len() == cls.functions.len() + 1 && r.members == cls.members
            &&& f.class == cls.name
            &&& bindings::hex_number(h) matches Some(v) ==> (0 <= v <= u32::MAX ==> f.win == Some(v as u32))
            &&& bindings::hex_number(h) is None ==> f.win is None
        }),
{
    opens_at(st, 0, p);
    closes_at(st, p + 1, q);
    assert(bindings::paren_end(st, p, 0) == Some(q + 1));
    let tail = st.skip(q + 1);
    assert(tail[e - q - 1] == '=');
    assert forall|k: int| e - q <= k < tail.len() implies #[trigger] tail[k] != '=' by {
        assert(tail[k] == st[q + 1 + k]);
    }
    last_sign(tail, e - q - 1);
    assert(tail.skip(e - q) =~= st.skip(e + 1));
    let parts = text::split(st.skip(e + 1), ',');
    value_is(parts, "win"@, 0, i, h);
}

/// The name of a function is what stands behind the last blank, star or
/// ampersand before its parameters; the words `static` and `virtual` before it
/// say what it is.
pub proof fn function_names_are_read(class: Seq<char>, st: Seq<char>, p: int, b: int)
    requires
        0 <= b < p <= st.len(),
        !text::space(st[0]),
        !text::space(st[p - 1]),
        st[b] == ' ' || st[b] == '*' || st[b] == '&',
        free_of(st, b + 1, p, ' '),
        free_of(st, b + 1, p, '*'),
        free_of(st, b + 1, p, '&'),
    ensures
        bindings::function_of(class, st, p).name == st.subrange(b + 1, p),
        text::prefixed(st.take(p), "static "@) ==> bindings::function_of(class, st, p).is_static,
        text::prefixed(st.take(p), "virtual "@) ==> bindings::function_of(class, st, p).is_virtual,
{
    let head = st.take(p);
    assert(head[0] == st[0] && head[p - 1] == st[p - 1]);
    trimming_keeps_the_middle(head, 0, p);
    assert(head.subrange(0, p) =~= head);
    assert forall|k: int| b < k < p implies !bindings::is_break(#[trigger] head[k]) by {
        assert(head[k] == st[k]);
    }
    assert(head[b] == st[b]);
    break_is(head, p, b);
    assert(head.skip(b + 1) =~= st.subrange(b + 1, p));
}

proof fn break_is(s: Seq<char>, n: int, b: int)
    requires
        0 <= b < n <= s.len(),
        bindings::is_break(s[b]),
        forall|k: int| b < k < n ==> !bindings::is_break(#[trigger] s[k]),
    ensures
        bindings::last_break(s, n) == Some(b),
    decreases n - b,
{
    if n - 1 > b {
        assert(!bindings::is_break(s[n - 1]));
        break_is(s, n - 1, b);
    }
}

/// A statement without parameters declares a member: its type is what stands up
/// to the last blank, star or ampersand, its name what stands behind. A number
/// in brackets at the end says how many there are.
pub proof fn members_are_read(st: Seq<char>, b: int, e: int)
    requires
        0 < b < e - 1,
        e <= st.len(),
        !text::space(st[0]),
        !text::space(st[b + 1]),
        !text::space(st[e - 1]),
        !text::space(st[st.len() - 1]),
        st[b] == ' ',
        !text::space(st[b - 1]),
        free_of(st, b + 1, e, ' '),
        free_of(st, b + 1, e, '*'),
        free_of(st, b + 1, e, '&'),
        free_of(st, 0, b, '='),
        free_of(st, 0, e, '['),
        e == st.len() || (st[e] == '[' && st[st.len() - 1] == ']' && e + 1 < st.len()),
    ensures
        bindings::field_of(st) matches Some(BroMemberV::Field { ty, name, count }) && ty == st.take(b) && name == st.subrange(
            b + 1,
            e,
        ) && (e == st.len() ==> count == 1) && (e < st.len() ==> count == bindings::bound_of(
            text::trimmed(st.subrange(e + 1, st.len() - 1)),
        )),
{
    let n = st.len() as int;
    trimming_keeps_the_middle(st, 0, n);
    assert(st.subrange(0, n) =~= st);
    declarator_is(st, e);
    let decl = st.take(e);
    declared_is(st, decl, b, e);
    let name = decl.skip(b + 1);
    let ty = decl.take(b + 1);
    assert(text::trimmed(name) == st.subrange(b + 1, e));
    assert(text::trimmed(ty) == st.take(b));
}

proof fn declarator_is(st: Seq<char>, e: int)
    requires
        0 < e <= st.len(),
        free_of(st, 0, e, '['),
        e == st.len() || (st[e] == '[' && st[st.len() - 1] == ']' && e + 1 < st.len()),
    ensures
        bindings::declarator(st).0 == st.take(e),
        e == st.len() ==> bindings::declarator(st).1 == 1,
        e < st.len() ==> bindings::declarator(st).1 == bindings::bound_of(text::trimmed(st.subrange(e + 1, st.len() - 1))),
{
    let n = st.len() as int;
    reveal_strlit("]");
    if e < n {
        text::index_from_is(st, '[', 0, e);
        assert(st.subrange(n - 1, n) =~= "]"@);
    } else {
        if let Some(i) = text::index_from(st, '[', 0) {
            no_such(st, '[', 0, i);
            assert(st[i] != '[');
        }
        assert(st.take(e) =~= st);
    }
}

proof fn declared_is(st: Seq<char>, decl: Seq<char>, b: int, e: int)
    requires
        0 < b < e - 1,
        e <= st.len(),
        decl == st.take(e),
        !text::space(st[0]),
        !text::space(st[b + 1]),
        !text::space(st[e - 1]),
        st[b] == ' ',
        !text::space(st[b - 1]),
        free_of(st, b + 1, e, ' '),
        free_of(st, b + 1, e, '*'),
        free_of(st, b + 1, e, '&'),
        free_of(st, 0, b, '='),
    ensures
        bindings::last_break(decl, e) == Some(b),
        text::trimmed(decl.skip(b + 1)) == st.subrange(b + 1, e),
        text::trimmed(decl.take(b + 1)) == st.take(b),
        text::index_from(st.take(b), '=', 0) is None,
{
    assert forall|k: int| b < k < e implies !bindings::is_break(#[trigger] decl[k]) by {
        assert(decl[k] == st[k]);
    }
    assert(decl[b] == ' ');
    break_is(decl, e, b);
    let name = decl.skip(b + 1);
    assert(name[0] == st[b + 1] && name[e - b - 2] == st[e - 1]);
    trimming_keeps_the_middle(name, 0, e - b - 1);
    assert(name.subrange(0, e - b - 1) =~= st.subrange(b + 1, e));
    let ty = decl.take(b + 1);
    assert(ty[0] == st[0] && ty[b - 1] == st[b - 1] && ty[b] == ' ');
    trimming_keeps_the_middle(ty, 0, b);
    assert(ty.subrange(0, b) =~= st.take(b));
    let t = st.take(b);
    if let Some(i) = text::index_from(t, '=', 0) {
        no_such(t, '=', 0, i);
        assert(st[i] != '=');
    }
}

/// The bound of an array is the number that it writes, in decimal or behind
/// `0x`; one that is no number counts as one.
pub proof fn bounds_are_read(n: int)
    requires
        0 <= n <= u64::MAX,
    ensures
        bindings::bound_of(num::dec(n)) == n,
        bindings::bound_of(num::hex(n)) == n,
{
    hexadecimal_is_read(n);
    let d = num::dec(n);
    num::digits_value(n, 10);
    assert(num::digit(d[0], 10) is Some);
    assert(d[0] != '+' && d[0] != '-');
    let t = num::hex(n);
    reveal_strlit("0x");
    assert(t[1] == 'x');
    assert(t[0] == '0');
    assert(num::digit(t[1], 10) is None);
    bad_digit(t, 10, 1, t.len() as int);
}

proof fn bad_digit(s: Seq<char>, radix: int, k: int, n: int)
    requires
        0 <= k < n <= s.len(),
        num::digit(s[k], radix) is None,
    ensures
        num::value(s, radix, n) is None,
    decreases n,
{
    if k < n - 1 {
        bad_digit(s, radix, k, n - 1);
    }
}

/// Padding takes the number of bytes that is given for Windows.
pub proof fn padding_is_read(cls: BroClassV, n: int)
    requires
        0 <= n <= u64::MAX,
    ensures
        bindings::with_statement(cls, "PAD = win "@ + num::hex(n)).members == cls.members.push(BroMemberV::Pad(n as u64)),
{
    let h = num::hex(n);
    let st = "PAD = win "@ + h;
    reveal_strlit("PAD = win ");
    reveal_strlit("PAD");
    reveal_strlit("win");
    reveal_strlit("0x");
    num::digits_value(n, 16);
    let d = num::digits(n, 16);
    assert(h.len() == d.len() + 2);
    assert(h[0] == '0' && h[1] == 'x');
    assert forall|k: int| 0 <= k < h.len() implies !text::space(#[trigger] h[k]) && h[k] != ',' && h[k] != '=' by {
        if k >= 2 {
            assert(h[k] == d[k - 2]);
            assert(num::digit(d[k - 2], 16) is Some);
        }
    }
    assert(st.subrange(0, 3) =~= "PAD"@);
    let rest = st.skip(3);
    let m = rest.len() as int;
    assert(rest =~= seq![' ', '=', ' ', 'w', 'i', 'n', ' '] + h);
    assert(rest[m - 1] == h[h.len() - 1]);
    trimming_keeps_the_middle(rest, 1, m);
    let a = rest.subrange(1, m);
    let b = seq![' ', 'w', 'i', 'n', ' '] + h;
    assert(a =~= seq!['='] + b);
    assert(text::trimmed_start(a, '=') == b) by {
        reveal_with_fuel(text::trimmed_start, 3);
        assert(a[0] == '=');
        assert(a.skip(1) =~= b);
        assert(b[0] == ' ');
    }
    assert forall|k: int| 0 <= k < b.len() implies #[trigger] b[k] != ',' by {
        if k >= 5 {
            assert(b[k] == h[k - 5]);
        }
    }
    if text::index_from(b, ',', 0) is Some {
        no_such(b, ',', 0, text::index_from(b, ',', 0).unwrap());
    }
    let parts = text::split(b, ',');
    assert(b.skip(0) =~= b);
    assert(parts =~= seq![b]);
    let k = b.len() as int;
    assert(b[0] == ' ' && b[1] == 'w' && b[2] == 'i' && b[3] == 'n' && b[4] == ' ');
    assert forall|j: int| 5 <= j < k implies !text::space(#[trigger] b[j]) by {
        assert(b[j] == h[j - 5]);
    }
    first_words_stand_first(b, 0, 1, 4);
    first_words_stand_first(b, 4, 5, k);
    assert(text::words_from(b, k) =~= Seq::empty());
    assert(b.subrange(1, 4) =~= "win"@);
    assert(b.subrange(5, k) =~= h);
    assert(text::words(b) =~= seq!["win"@, h]);
    assert(parts[0] == b);
    value_is(parts, "win"@, 0, 0, h);
    hexadecimal_is_read(n);
}

} // verus!
