//! Geode "broma" bindings (.bro) parser.

use vstd::prelude::*;
use vstd::string::StringExecFns;

use crate::num;
use crate::table;
use crate::table::Table;
use crate::text;

verus! {

#[derive(Debug)]
pub struct BroFunction {
    pub class: String,
    pub name: String,
    pub signature: String,
    pub is_static: bool,
    pub is_virtual: bool,
    pub win: Option<u32>,
}

/// Model of a declared function.
pub ghost struct BroFunctionV {
    pub class: Seq<char>,
    pub name: Seq<char>,
    pub signature: Seq<char>,
    pub is_static: bool,
    pub is_virtual: bool,
    pub win: Option<u32>,
}

impl DeepView for BroFunction {
    type V = BroFunctionV;

    open spec fn deep_view(&self) -> BroFunctionV {
        BroFunctionV {
            class: self.class@,
            name: self.name@,
            signature: self.signature@,
            is_static: self.is_static,
            is_virtual: self.is_virtual,
            win: self.win,
        }
    }
}

#[derive(Debug)]
pub enum BroMember {
    Field { ty: String, name: String, count: u64 },
    Pad(u64),
}

/// Model of a declared member.
pub ghost enum BroMemberV {
    Field { ty: Seq<char>, name: Seq<char>, count: u64 },
    Pad(u64),
}

impl DeepView for BroMember {
    type V = BroMemberV;

    open spec fn deep_view(&self) -> BroMemberV {
        match self {
            BroMember::Field { ty, name, count } => BroMemberV::Field { ty: ty@, name: name@, count: *count },
            BroMember::Pad(n) => BroMemberV::Pad(*n),
        }
    }
}

#[derive(Debug)]
pub struct BroClass {
    pub name: String,
    pub bases: Vec<String>,
    pub members: Vec<BroMember>,
    pub functions: Vec<BroFunction>,
    pub has_virtuals: bool,
}

/// Model of a declared class.
pub ghost struct BroClassV {
    pub name: Seq<char>,
    pub bases: Seq<Seq<char>>,
    pub members: Seq<BroMemberV>,
    pub functions: Seq<BroFunctionV>,
    pub has_virtuals: bool,
}

impl DeepView for BroClass {
    type V = BroClassV;

    open spec fn deep_view(&self) -> BroClassV {
        BroClassV {
            name: self.name@,
            bases: self.bases.deep_view(),
            members: self.members.deep_view(),
            functions: self.functions.deep_view(),
            has_virtuals: self.has_virtuals,
        }
    }
}

pub struct Bindings {
    /// Paths of the files the bindings come from.
    pub source: Vec<String>,
    pub classes: Table<String, BroClass>,
    /// enum name -> underlying size
    pub enums: Table<String, u64>,
}

/// Model of bindings.
pub ghost struct BindingsV {
    pub source: Seq<Seq<char>>,
    pub classes: Seq<(Seq<char>, BroClassV)>,
    pub enums: Seq<(Seq<char>, u64)>,
}

impl DeepView for Bindings {
    type V = BindingsV;

    open spec fn deep_view(&self) -> BindingsV {
        BindingsV {
            source: self.source.deep_view(),
            classes: self.classes.deep_view(),
            enums: self.enums.deep_view(),
        }
    }
}

impl BindingsV {
    pub open spec fn blank() -> BindingsV {
        BindingsV { source: Seq::empty(), classes: Seq::empty(), enums: Seq::empty() }
    }
}

// ---------------------------------------------------------------------------
// Comments and attributes.

/// The first line feed at or after `i`, or the end.
pub open spec fn line_end(s: Seq<char>, i: int) -> int
    decreases s.len() - i,
{
    if 0 <= i < s.len() && s[i] != '\n' {
        line_end(s, i + 1)
    } else {
        i
    }
}

/// Where a block comment whose text starts at `i` is closed, or where nothing
/// can close it any more.
pub open spec fn block_end(s: Seq<char>, i: int) -> int
    decreases s.len() - i,
{
    if 0 <= i && i + 1 < s.len() && !(s[i] == '*' && s[i + 1] == '/') {
        block_end(s, i + 1)
    } else {
        i
    }
}

/// The quote that ends a literal whose text starts at `i`, or the end; a
/// backslash takes the character behind it along.
pub open spec fn quote_end(s: Seq<char>, i: int) -> int
    decreases s.len() - i,
{
    if i < 0 || i >= s.len() || s[i] == '"' {
        i
    } else if s[i] == '\\' {
        if i + 2 <= s.len() {
            quote_end(s, i + 2)
        } else {
            s.len() as int
        }
    } else {
        quote_end(s, i + 1)
    }
}

pub open spec fn char_is(s: Seq<char>, i: int, c: char) -> bool {
    0 <= i < s.len() && s[i] == c
}

/// The bytes of a character, each as a character of its own.
pub open spec fn spread(c: char) -> Seq<char> {
    let b = vstd::utf8::encode_scalar(c as u32);
    Seq::new(b.len(), |i: int| b[i] as char)
}

/// End of the literal that starts at `i`, its closing quote included.
pub open spec fn literal_end(s: Seq<char>, i: int) -> int {
    let e = quote_end(s, i + 1);
    if e < s.len() {
        e + 1
    } else {
        s.len() as int
    }
}

/// A line comment starts at `i`.
pub open spec fn is_line_comment(s: Seq<char>, i: int) -> bool {
    char_is(s, i, '/') && char_is(s, i + 1, '/')
}

/// A block comment starts at `i`.
pub open spec fn is_block_comment(s: Seq<char>, i: int) -> bool {
    char_is(s, i, '/') && char_is(s, i + 1, '*')
}

/// Where what starts at `i` ends: a comment, a literal or a single character.
pub open spec fn piece_end(s: Seq<char>, i: int) -> int {
    if is_line_comment(s, i) {
        line_end(s, i)
    } else if is_block_comment(s, i) {
        let e = block_end(s, i + 2) + 2;
        if e < s.len() {
            e
        } else {
            s.len() as int
        }
    } else if char_is(s, i, '"') {
        literal_end(s, i)
    } else {
        i + 1
    }
}

/// What is left of the comment, literal or character that starts at `i`: a
/// literal stays as it is.
pub open spec fn piece_text(s: Seq<char>, i: int) -> Seq<char> {
    if is_line_comment(s, i) || is_block_comment(s, i) {
        Seq::empty()
    } else if char_is(s, i, '"') {
        s.subrange(i, piece_end(s, i))
    } else {
        spread(s[i])
    }
}

pub proof fn pieces_advance(s: Seq<char>, i: int)
    requires
        0 <= i < s.len(),
    ensures
        i < piece_end(s, i) <= s.len(),
{
    ends_ahead(s, i);
    ends_ahead(s, i + 1);
    if i + 2 <= s.len() + 1 {
        ends_ahead(s, i + 2);
    }
}

/// The text from `i` on without comments. Literals stay as they are; outside
/// them each byte of the text is one character.
pub open spec fn uncommented(s: Seq<char>, i: int) -> Seq<char>
    decreases s.len() - i,
{
    if i < 0 || i >= s.len() {
        Seq::empty()
    } else {
        proof {
            pieces_advance(s, i);
        }
        piece_text(s, i) + uncommented(s, piece_end(s, i))
    }
}

pub proof fn ends_ahead(s: Seq<char>, i: int)
    requires
        0 <= i <= s.len() + 1,
    ensures
        i <= line_end(s, i),
        i <= s.len() ==> line_end(s, i) <= s.len(),
        i <= block_end(s, i),
        i <= s.len() ==> i <= quote_end(s, i),
        i <= s.len() ==> block_end(s, i) <= s.len(),
        i <= s.len() ==> quote_end(s, i) <= s.len(),
    decreases s.len() + 1 - i,
{
    if i < s.len() {
        ends_ahead(s, i + 1);
        if i + 2 <= s.len() {
            ends_ahead(s, i + 2);
        }
    }
}

/// An ASCII character is its one byte.
pub proof fn ascii_is_itself(c: char)
    requires
        c <= '\u{7f}',
    ensures
        spread(c) == seq![c],
{
    let one = seq![c];
    assert(vstd::utf8::is_ascii_chars(one));
    vstd::utf8::is_ascii_chars_encode_utf8(one);
    assert(one.drop_first() =~= Seq::empty());
    assert(vstd::utf8::encode_utf8(one) =~= vstd::utf8::encode_scalar(c as u32));
    assert(one[0] as u8 == vstd::utf8::encode_utf8(one)[0]);
    assert(spread(c) =~= seq![c]);
}

fn push_spread(out: &mut String, c: char)
    ensures
        final(out)@ == old(out)@ + spread(c),
{
    if c <= '\u{7f}' {
        proof {
            ascii_is_itself(c);
            assert(out@.push(c) =~= out@ + seq![c]);
        }
        out.push(c);
        return;
    }
    let mut one = text::empty_text();
    one.push(c);
    let b = one.as_str().as_bytes();
    let len = b.len();
    let ghost all = spread(c);
    proof {
        assert(one@ =~= seq![c]);
        reveal_with_fuel(vstd::utf8::encode_utf8, 2);
        assert(seq![c].drop_first() =~= Seq::empty());
        assert(b@ =~= vstd::utf8::encode_scalar(c as u32));
        assert(all.take(0) =~= Seq::empty());
        assert(out@ =~= old(out)@ + all.take(0));
    }
    let mut i: usize = 0;
    while i < len
        invariant
            len == b@.len(),
            b@.len() == b.len(),
            all.len() == len,
            forall|k: int| 0 <= k < len ==> #[trigger] all[k] == b@[k] as char,
            i <= len,
            out@ == old(out)@ + all.take(i as int),
        decreases len - i,
    {
        out.push(b[i] as char);
        i += 1;
        assert(all.take(i as int) =~= all.take(i - 1).push(all[i - 1]));
        assert(out@ =~= old(out)@ + all.take(i as int));
    }
    assert(all.take(len as int) =~= all);
}

pub fn strip_comments(src: &str) -> (r: String)
    ensures
        r@ == uncommented(src@, 0),
{
    let c = text::chars_of(src);
    let len = c.len();
    let ghost all = uncommented(c@, 0);
    let mut out = text::empty_text();
    let mut i: usize = 0;
    assert(out@ + all =~= all);
    while i < len
        invariant
            c@.len() == len,
            all == uncommented(c@, 0),
            i <= len,
            out@ + uncommented(c@, i as int) == all,
        decreases len - i,
    {
        let ghost pre = out@;
        let ghost from = i as int;
        let ghost e = piece_end(c@, from);
        let ghost rest = uncommented(c@, e);
        proof {
            pieces_advance(c@, from);
            ends_ahead(c@, from);
            ends_ahead(c@, from + 1);
            if from + 2 <= len + 1 {
                ends_ahead(c@, from + 2);
            }
            assert(pre + (piece_text(c@, from) + rest) =~= (pre + piece_text(c@, from)) + rest);
        }
        if c[i] == '/' && i + 1 < len && c[i + 1] == '/' {
            while i < len && c[i] != '\n'
                invariant
                    c@.len() == len,
                    i <= len,
                    e == line_end(c@, i as int),
                decreases len - i,
            {
                i += 1;
            }
            assert(pre + Seq::<char>::empty() =~= pre);
        } else if c[i] == '/' && i + 1 < len && c[i + 1] == '*' {
            let ghost q = block_end(c@, i + 2);
            let mut k: usize = i + 2;
            while k < len - 1 && !(c[k] == '*' && c[k + 1] == '/')
                invariant
                    c@.len() == len,
                    0 < len,
                    k <= len,
                    q == block_end(c@, k as int),
                decreases len - k,
            {
                k += 1;
            }
            assert(k == q);
            i = if len - k > 2 { k + 2 } else { len };
            assert(pre + Seq::<char>::empty() =~= pre);
        } else if c[i] == '"' {
            let ghost q = quote_end(c@, i + 1);
            let mut k: usize = i + 1;
            while k < len && c[k] != '"'
                invariant
                    c@.len() == len,
                    k <= len,
                    q == quote_end(c@, k as int),
                decreases len - k,
            {
                if c[k] == '\\' {
                    k = if len - k >= 2 { k + 2 } else { len };
                } else {
                    k += 1;
                }
            }
            assert(k == q);
            let end = if k < len { k + 1 } else { len };
            let literal = text::string_of(c.as_slice(), i, end);
            out.append(literal.as_str());
            i = end;
        } else {
            push_spread(&mut out, c[i]);
            i += 1;
        }
    }
    assert(out@ + Seq::<char>::empty() =~= out@);
    out
}

/// `s` from `from` on without `[[...]]` attributes.
pub open spec fn unattributed(s: Seq<char>, from: int) -> Seq<char>
    decreases s.len() - from,
    via unattributed_decreases
{
    match text::sub_from(s, "[["@, from) {
        None => if 0 <= from <= s.len() {
            s.skip(from)
        } else {
            Seq::empty()
        },
        Some(i) => s.subrange(from, i) + match text::sub_from(s, "]]"@, i) {
            Some(j) => unattributed(s, j + 2),
            None => Seq::empty(),
        },
    }
}

#[via_fn]
proof fn unattributed_decreases(s: Seq<char>, from: int) {
    text::sub_from_bounds(s, "[["@, from);
    if let Some(i) = text::sub_from(s, "[["@, from) {
        text::sub_from_bounds(s, "]]"@, i);
        reveal_strlit("]]");
    }
}

pub fn strip_attrs(s: &str) -> (r: String)
    ensures
        r@ == unattributed(s@, 0),
{
    let c = text::chars_of(s);
    let open = text::chars_of("[[");
    let close = text::chars_of("]]");
    let ghost all = unattributed(s@, 0);
    let mut out = String::new();
    let mut from: usize = 0;
    assert(out@ + all =~= all);
    proof {
        reveal_strlit("[[");
        reveal_strlit("]]");
    }
    loop
        invariant
            c@ == s@,
            open@ == "[["@,
            close@ == "]]"@,
            "]]"@.len() == 2,
            all == unattributed(s@, 0),
            from <= c@.len(),
            out@ + unattributed(s@, from as int) == all,
        decreases c@.len() - from,
    {
        match text::find_sub(c.as_slice(), open.as_slice(), from) {
            None => {
                let rest = text::string_of(c.as_slice(), from, c.len());
                assert(rest@ =~= s@.skip(from as int));
                out.append(rest.as_str());
                return out;
            },
            Some(i) => {
                let ghost pre = out@;
                let part = text::string_of(c.as_slice(), from, i);
                out.append(part.as_str());
                match text::find_sub(c.as_slice(), close.as_slice(), i) {
                    None => {
                        assert(out@ =~= pre + (part@ + Seq::<char>::empty()));
                        return out;
                    },
                    Some(j) => {
                        let n = c.len();
                        proof {
                            text::sub_from_bounds(s@, "]]"@, i as int);
                            let rest = unattributed(s@, j + 2);
                            assert(pre + (part@ + rest) =~= out@ + rest);
                        }
                        from = j + 2;
                    },
                }
            },
        }
    }
}

// ---------------------------------------------------------------------------
// Statements.

/// The name of a platform.
pub open spec fn is_platform(s: Seq<char>) -> bool {
    s == "win"@ || s == "android"@ || s == "android32"@ || s == "android64"@ || s == "mac"@ || s == "imac"@ || s == "m1"@
        || s == "ios"@ || s == "windows"@
}

fn names_platform(s: &str) -> (r: bool)
    ensures
        r == is_platform(s@),
{
    text::same(s, "win") || text::same(s, "android") || text::same(s, "android32") || text::same(s, "android64")
        || text::same(s, "mac") || text::same(s, "imac") || text::same(s, "m1") || text::same(s, "ios") || text::same(
        s,
        "windows",
    )
}

pub open spec fn is_windows(s: Seq<char>) -> bool {
    s == "win"@ || s == "windows"@
}

/// Whether a list of platforms has Windows, nothing for what is no such list.
pub open spec fn platform_list(s: Seq<char>) -> Option<bool> {
    let parts = text::split(s, ',');
    if forall|i: int| 0 <= i < parts.len() ==> is_platform(text::trimmed(#[trigger] parts[i])) {
        Some(exists|i: int| 0 <= i < parts.len() && is_windows(text::trimmed(#[trigger] parts[i])))
    } else {
        None
    }
}

pub fn is_platform_list(s: &str) -> (r: Option<bool>)
    ensures
        r == platform_list(s@),
{
    let parts = text::split_on(s, ',');
    let ghost ps = parts.deep_view();
    let mut win = false;
    let mut i: usize = 0;
    while i < parts.len()
        invariant
            ps == parts.deep_view(),
            ps == text::split(s@, ','),
            i <= parts@.len(),
            forall|k: int| 0 <= k < i ==> is_platform(text::trimmed(#[trigger] ps[k])),
            win == (exists|k: int| 0 <= k < i && is_windows(text::trimmed(#[trigger] ps[k]))),
        decreases parts@.len() - i,
    {
        let p = text::trim(parts[i].as_str());
        assert(p@ == text::trimmed(ps[i as int]));
        if !names_platform(p.as_str()) {
            assert(!is_platform(text::trimmed(ps[i as int])));
            return None;
        }
        if text::same(p.as_str(), "win") || text::same(p.as_str(), "windows") {
            win = true;
        }
        i += 1;
    }
    Some(win)
}

/// A class body as far as it was split.
pub ghost struct Splitter {
    pub out: Seq<Seq<char>>,
    pub cur: Seq<char>,
    pub inner: Seq<char>,
    pub paren: int,
    pub brace: int,
}

/// The statements of `list` with single blanks, empty ones left out.
pub open spec fn normal_all(list: Seq<Seq<char>>, n: int) -> Seq<Seq<char>>
    decreases n,
{
    if n <= 0 {
        Seq::empty()
    } else {
        let s = text::normal(list[n - 1]);
        if s.len() == 0 {
            normal_all(list, n - 1)
        } else {
            normal_all(list, n - 1).push(s)
        }
    }
}

/// The first `n` characters of a class body split into statements.
pub open spec fn split_body(body: Seq<char>, n: int) -> Splitter
    decreases body.len(), 0int, n,
{
    if n <= 0 {
        Splitter { out: Seq::empty(), cur: Seq::empty(), inner: Seq::empty(), paren: 0, brace: 0 }
    } else {
        let s = split_body(body, n - 1);
        let ch = body[n - 1];
        if s.brace > 0 {
            if ch == '}' && s.brace == 1 {
                let head = text::normal(s.cur);
                let block = if s.inner.len() < body.len() {
                    statements_of(s.inner)
                } else {
                    Seq::empty()
                };
                Splitter {
                    out: match platform_list(head) {
                        Some(true) => s.out + block,
                        Some(false) => s.out,
                        None => s.out.push(head),
                    },
                    cur: Seq::empty(),
                    inner: Seq::empty(),
                    brace: 0,
                    ..s
                }
            } else {
                Splitter {
                    inner: s.inner.push(ch),
                    brace: if ch == '{' {
                        s.brace + 1
                    } else if ch == '}' {
                        s.brace - 1
                    } else {
                        s.brace
                    },
                    ..s
                }
            }
        } else if ch == '{' && s.paren == 0 {
            Splitter { brace: 1, ..s }
        } else if ch == ';' && s.paren == 0 {
            Splitter { out: s.out.push(s.cur), cur: Seq::empty(), ..s }
        } else {
            Splitter {
                cur: s.cur.push(ch),
                paren: if ch == '(' {
                    s.paren + 1
                } else if ch == ')' {
                    s.paren - 1
                } else {
                    s.paren
                },
                ..s
            }
        }
    }
}

/// The statements of a class body (`...;` or `... { body }`). Platform blocks
/// (`android, ios { ... }`) are expanded when they have Windows.
pub open spec fn statements_of(body: Seq<char>) -> Seq<Seq<char>>
    decreases body.len(), 1int, 0int,
{
    let s = split_body(body, body.len() as int);
    normal_all(s.out, s.out.len() as int)
}

proof fn inner_shorter(body: Seq<char>, n: int)
    requires
        0 <= n <= body.len(),
    ensures
        split_body(body, n).inner.len() <= n,
        split_body(body, n).brace > 0 ==> split_body(body, n).inner.len() < n,
        0 <= split_body(body, n).brace <= n,
        -n <= split_body(body, n).paren <= n,
    decreases n,
{
    if n > 0 {
        inner_shorter(body, n - 1);
    }
}

proof fn normal_nonempty(list: Seq<Seq<char>>, n: int)
    ensures
        forall|i: int| 0 <= i < normal_all(list, n).len() ==> (#[trigger] normal_all(list, n)[i]).len() > 0,
    decreases n,
{
    if n > 0 {
        normal_nonempty(list, n - 1);
        let before = normal_all(list, n - 1);
        let now = normal_all(list, n);
        assert forall|i: int| 0 <= i < now.len() implies (#[trigger] now[i]).len() > 0 by {
            if i < before.len() {
                assert(now[i] == before[i]);
            }
        }
    }
}

/// No statement of a class body is empty.
pub proof fn statements_say_something(body: Seq<char>)
    ensures
        forall|i: int| 0 <= i < statements_of(body).len() ==> (#[trigger] statements_of(body)[i]).len() > 0,
{
    let s = split_body(body, body.len() as int);
    normal_nonempty(s.out, s.out.len() as int);
}

fn push_all(out: &mut Vec<String>, more: Vec<String>)
    ensures
        final(out).deep_view() == old(out).deep_view() + more.deep_view(),
{
    let ghost before = out.deep_view();
    let ghost m = more.deep_view();
    let mut i: usize = 0;
    assert(before + m.take(0) =~= before);
    while i < more.len()
        invariant
            before == old(out).deep_view(),
            m == more.deep_view(),
            i <= more@.len(),
            out.deep_view() == before + m.take(i as int),
        decreases more@.len() - i,
    {
        let ghost pre = out.deep_view();
        out.push(more[i].clone());
        i += 1;
        assert(out.deep_view() =~= pre.push(m[i - 1]));
        assert(before + m.take(i as int) =~= pre.push(m[i - 1]));
    }
    assert(m.take(i as int) =~= m);
}

pub fn statements(body: &str) -> (r: Vec<String>)
    ensures
        r.deep_view() == statements_of(body@),
    decreases body@.len(),
{
    let c = text::chars_of(body);
    let mut out: Vec<String> = Vec::new();
    let mut cur = text::empty_text();
    let mut inner = text::empty_text();
    let mut paren: i128 = 0;
    let mut brace: i128 = 0;
    let mut i: usize = 0;
    assert(out.deep_view() =~= Seq::empty());
    while i < c.len()
        invariant
            c@ == body@,
            i <= c@.len(),
            split_body(body@, i as int) == (Splitter {
                out: out.deep_view(),
                cur: cur@,
                inner: inner@,
                paren: paren as int,
                brace: brace as int,
            }),
            -(i as int) <= paren <= i,
            0 <= brace <= i,
        decreases c@.len() - i,
    {
        proof {
            inner_shorter(body@, i as int);
        }
        let ch = c[i];
        if brace > 0 {
            if ch == '}' && brace == 1 {
                let head = text::normalize(cur.as_str());
                match is_platform_list(head.as_str()) {
                    Some(true) => {
                        let block = statements(inner.as_str());
                        push_all(&mut out, block);
                    },
                    Some(false) => {},
                    None => {
                        text::push_text(&mut out, head);
                    },
                }
                cur = text::empty_text();
                inner = text::empty_text();
                brace = 0;
            } else {
                if ch == '{' {
                    brace += 1;
                } else if ch == '}' {
                    brace -= 1;
                }
                inner.push(ch);
            }
        } else if ch == '{' && paren == 0 {
            brace = 1;
        } else if ch == ';' && paren == 0 {
            text::push_text(&mut out, cur);
            cur = text::empty_text();
        } else {
            if ch == '(' {
                paren += 1;
            } else if ch == ')' {
                paren -= 1;
            }
            cur.push(ch);
        }
        i += 1;
    }
    let ghost raw = out.deep_view();
    let mut list: Vec<String> = Vec::new();
    i = 0;
    assert(list.deep_view() =~= Seq::empty());
    while i < out.len()
        invariant
            raw == out.deep_view(),
            i <= out@.len(),
            list.deep_view() == normal_all(raw, i as int),
        decreases out@.len() - i,
    {
        assert(out@[i as int]@ == raw[i as int]);
        let s = text::normalize(out[i].as_str());
        if text::count(s.as_str()) > 0 {
            text::push_text(&mut list, s);
        }
        i += 1;
    }
    list
}

/// The first `needle` at or after `i` outside angle brackets, `angle` of which
/// are open at `i`.
pub open spec fn top_level(s: Seq<char>, needle: char, i: int, angle: int) -> Option<int>
    decreases s.len() - i,
{
    if i < 0 || i >= s.len() {
        None
    } else if s[i] == '<' {
        top_level(s, needle, i + 1, angle + 1)
    } else if s[i] == '>' {
        top_level(s, needle, i + 1, angle - 1)
    } else if s[i] == needle && angle == 0 {
        Some(i)
    } else {
        top_level(s, needle, i + 1, angle)
    }
}

/// Character index of the first `needle` outside angle brackets.
pub fn find_top_level(s: &str, needle: char) -> (r: Option<usize>)
    ensures
        match r {
            Some(i) => top_level(s@, needle, 0, 0) == Some(i as int) && i < s@.len(),
            None => top_level(s@, needle, 0, 0) is None,
        },
{
    let c = text::chars_of(s);
    let mut angle: i128 = 0;
    let mut i: usize = 0;
    while i < c.len()
        invariant
            c@ == s@,
            i <= c@.len(),
            -(i as int) <= angle <= i,
            top_level(s@, needle, 0, 0) == top_level(s@, needle, i as int, angle as int),
        decreases c@.len() - i,
    {
        if c[i] == '<' {
            angle += 1;
        } else if c[i] == '>' {
            angle -= 1;
        } else if c[i] == needle && angle == 0 {
            return Some(i);
        }
        i += 1;
    }
    None
}

/// A hexadecimal number behind `0x`.
pub open spec fn hex_number(s: Seq<char>) -> Option<int> {
    let t = text::trimmed(s);
    match text::after(t, "0x"@) {
        Some(h) => num::unsigned(h, 16, u64::MAX as int),
        None => match text::after(t, "0X"@) {
            Some(h) => num::unsigned(h, 16, u64::MAX as int),
            None => None,
        },
    }
}

pub fn parse_hex(s: &str) -> (r: Option<u64>)
    ensures
        r.is_some() == hex_number(s@).is_some(),
        r matches Some(v) ==> hex_number(s@) == Some(v as int),
{
    let t = text::trim(s);
    if let Some(h) = text::strip_prefix(t.as_str(), "0x") {
        return num::parse_unsigned(h.as_str(), 16, u64::MAX);
    }
    if let Some(h) = text::strip_prefix(t.as_str(), "0X") {
        return num::parse_unsigned(h.as_str(), 16, u64::MAX);
    }
    None
}

/// The value that the parts from `i` on give a platform.
pub open spec fn value_in(parts: Seq<Seq<char>>, platform: Seq<char>, i: int) -> Option<int>
    decreases parts.len() - i,
{
    if i < 0 || i >= parts.len() {
        None
    } else {
        let w = text::words(parts[i]);
        if w.len() > 0 && w[0] == platform {
            if w.len() > 1 {
                hex_number(w[1])
            } else {
                None
            }
        } else {
            value_in(parts, platform, i + 1)
        }
    }
}

/// `win 0x123, imac 0x456` -> value for `win`.
pub open spec fn value_for(spec_text: Seq<char>, platform: Seq<char>) -> Option<int> {
    value_in(text::split(spec_text, ','), platform, 0)
}

/// `win 0x123, imac 0x456` -> value for `win`.
pub fn platform_value(list: &str, platform: &str) -> (r: Option<u64>)
    ensures
        r.is_some() == value_for(list@, platform@).is_some(),
        r matches Some(v) ==> value_for(list@, platform@) == Some(v as int),
{
    let parts = text::split_on(list, ',');
    let ghost ps = parts.deep_view();
    let mut i: usize = 0;
    while i < parts.len()
        invariant
            ps == parts.deep_view(),
            i <= parts@.len(),
            value_for(list@, platform@) == value_in(ps, platform@, i as int),
        decreases parts@.len() - i,
    {
        assert(parts@[i as int]@ == ps[i as int]);
        let w = text::split_words(parts[i].as_str());
        let ghost wv = w.deep_view();
        if w.len() > 0 {
            assert(w@[0]@ == wv[0]);
            if text::same(w[0].as_str(), platform) {
                if w.len() > 1 {
                    assert(w@[1]@ == wv[1]);
                    return parse_hex(w[1].as_str());
                }
                return None;
            }
        }
        i += 1;
    }
    None
}

/// Index behind the parenthesis that closes those open, `depth` of them, at `i`.
pub open spec fn paren_end(s: Seq<char>, i: int, depth: int) -> Option<int>
    decreases s.len() - i,
{
    if i < 0 || i >= s.len() {
        None
    } else if s[i] == '(' {
        paren_end(s, i + 1, depth + 1)
    } else if s[i] == ')' {
        if depth - 1 == 0 {
            Some(i + 1)
        } else {
            paren_end(s, i + 1, depth - 1)
        }
    } else {
        paren_end(s, i + 1, depth)
    }
}

/// Character index behind the parenthesis that closes the one at `open`.
pub fn matching_paren(s: &str, open: usize) -> (r: Option<usize>)
    ensures
        match r {
            Some(i) => paren_end(s@, open as int, 0) == Some(i as int) && i <= s@.len(),
            None => paren_end(s@, open as int, 0) is None,
        },
{
    let c = text::chars_of(s);
    let mut depth: i128 = 0;
    let mut i: usize = open;
    while i < c.len()
        invariant
            c@ == s@,
            open <= i,
            -(i as int) <= depth <= i,
            paren_end(s@, open as int, 0) == paren_end(s@, i as int, depth as int),
        decreases c@.len() - i,
    {
        if c[i] == '(' {
            depth += 1;
        } else if c[i] == ')' {
            depth -= 1;
            if depth == 0 {
                return Some(i + 1);
            }
        }
        i += 1;
    }
    None
}

/// The first colon at or after `i` that is not part of `::`.
pub open spec fn lone_colon(s: Seq<char>, i: int) -> Option<int>
    decreases s.len() - i,
{
    if i < 0 || i >= s.len() {
        None
    } else if s[i] == ':' && !(i + 1 < s.len() && s[i + 1] == ':') && (i == 0 || s[i - 1] != ':') {
        Some(i)
    } else {
        lone_colon(s, i + 1)
    }
}

/// The first `n` parts trimmed, empty ones left out.
pub open spec fn trimmed_parts(parts: Seq<Seq<char>>, n: int) -> Seq<Seq<char>>
    decreases n,
{
    if n <= 0 {
        Seq::empty()
    } else {
        let t = text::trimmed(parts[n - 1]);
        if t.len() == 0 {
            trimmed_parts(parts, n - 1)
        } else {
            trimmed_parts(parts, n - 1).push(t)
        }
    }
}

/// Class name and bases of a header.
pub open spec fn header_parts(h: Seq<char>) -> (Seq<char>, Seq<Seq<char>>) {
    match lone_colon(h, 0) {
        Some(i) => {
            let parts = text::split(h.skip(i + 1), ',');
            (text::trimmed(h.take(i)), trimmed_parts(parts, parts.len() as int))
        },
        None => (text::trimmed(h), Seq::empty()),
    }
}

/// `cocos2d::CCNode : cocos2d::CCObject` -> name and bases.
pub fn split_header(header: &str) -> (r: (String, Vec<String>))
    ensures
        r.deep_view() == header_parts(header@),
{
    let c = text::chars_of(header);
    let mut i: usize = 0;
    let mut bases: Vec<String> = Vec::new();
    assert(bases.deep_view() =~= Seq::empty());
    while i < c.len()
        invariant
            c@ == header@,
            i <= c@.len(),
            bases.deep_view() == Seq::<Seq<char>>::empty(),
            lone_colon(header@, 0) == lone_colon(header@, i as int),
        decreases c@.len() - i,
    {
        if c[i] == ':' && !(i + 1 < c.len() && c[i + 1] == ':') && (i == 0 || c[i - 1] != ':') {
            let name = text::string_of(c.as_slice(), 0, i);
            assert(name@ =~= header@.take(i as int));
            let rest = text::string_of(c.as_slice(), i + 1, c.len());
            assert(rest@ =~= header@.skip(i + 1));
            let parts = text::split_on(rest.as_str(), ',');
            let ghost ps = parts.deep_view();
            let mut k: usize = 0;
            while k < parts.len()
                invariant
                    ps == parts.deep_view(),
                    k <= parts@.len(),
                    bases.deep_view() == trimmed_parts(ps, k as int),
                decreases parts@.len() - k,
            {
                assert(parts@[k as int]@ == ps[k as int]);
                let t = text::trim(parts[k].as_str());
                if text::count(t.as_str()) > 0 {
                    text::push_text(&mut bases, t);
                }
                k += 1;
            }
            return (text::trim(name.as_str()), bases);
        }
        i += 1;
    }
    (text::trim(header), bases)
}

// ---------------------------------------------------------------------------
// One statement.

/// A character that ends a type name.
pub open spec fn is_break(c: char) -> bool {
    c == ' ' || c == '*' || c == '&'
}

/// Index of the last break before `n`.
pub open spec fn last_break(s: Seq<char>, n: int) -> Option<int>
    decreases n,
{
    if n <= 0 {
        None
    } else if is_break(s[n - 1]) {
        Some(n - 1)
    } else {
        last_break(s, n - 1)
    }
}

fn find_last_break(s: &str) -> (r: Option<usize>)
    ensures
        match r {
            Some(i) => last_break(s@, s@.len() as int) == Some(i as int) && i < s@.len(),
            None => last_break(s@, s@.len() as int) is None,
        },
{
    let c = text::chars_of(s);
    let mut n: usize = c.len();
    while n > 0
        invariant
            c@ == s@,
            n <= c@.len(),
            last_break(s@, s@.len() as int) == last_break(s@, n as int),
        decreases n,
    {
        let x = c[n - 1];
        if x == ' ' || x == '*' || x == '&' {
            return Some(n - 1);
        }
        n -= 1;
    }
    None
}

/// The word `w` starts `head` or stands inside it.
pub open spec fn has_word(head: Seq<char>, at_start: Seq<char>, inside: Seq<char>) -> bool {
    text::prefixed(head, at_start) || text::includes(head, inside)
}

/// The function that a statement declares, whose parameters open at `p`; the
/// addresses follow the last equals sign.
pub open spec fn function_of(class: Seq<char>, st: Seq<char>, p: int) -> BroFunctionV {
    let head = text::trimmed(st.take(p));
    let close = match paren_end(st, p, 0) {
        Some(c) => c,
        None => st.len() as int,
    };
    let tail = st.skip(close);
    BroFunctionV {
        class,
        name: match last_break(head, head.len() as int) {
            Some(i) => head.skip(i + 1),
            None => head,
        },
        signature: text::trimmed(st.take(close)),
        is_static: has_word(head, "static "@, " static "@),
        is_virtual: has_word(head, "virtual "@, " virtual "@),
        win: if text::index_from(tail, '=', 0) is Some {
            match value_for(text::tail_of(tail, "="@), "win"@) {
                Some(v) => Some((v as u64) as u32),
                None => None,
            }
        } else {
            None
        },
    }
}

/// The number that an array bound writes, 1 where it writes none.
pub open spec fn bound_of(s: Seq<char>) -> u64 {
    match num::unsigned(s, 10, u64::MAX as int) {
        Some(v) => v as u64,
        None => match hex_number(s) {
            Some(v) => v as u64,
            None => 1,
        },
    }
}

/// A declaration without its array bound, and the bound.
pub open spec fn declarator(st: Seq<char>) -> (Seq<char>, u64) {
    match text::index_from(st, '[', 0) {
        Some(b) => if text::suffixed(st, "]"@) {
            (st.take(b), bound_of(text::trimmed(st.subrange(b + 1, st.len() - 1))))
        } else {
            (st, 1)
        },
        None => (st, 1),
    }
}

/// The data member that a statement declares: `Type name;` / `Type name[N];`
pub open spec fn field_of(stmt: Seq<char>) -> Option<BroMemberV> {
    let (decl, count) = declarator(text::trimmed(stmt));
    match last_break(decl, decl.len() as int) {
        None => None,
        Some(i) => {
            let name = text::trimmed(decl.skip(i + 1));
            let ty = text::trimmed(decl.take(i + 1));
            if name.len() == 0 || ty.len() == 0 || text::index_from(ty, '=', 0) is Some {
                None
            } else {
                Some(BroMemberV::Field { ty, name, count })
            }
        },
    }
}

/// The number of bytes that padding takes on Windows.
pub open spec fn pad_of(rest: Seq<char>) -> u64 {
    match value_for(text::trimmed_start(text::trimmed(rest), '='), "win"@) {
        Some(v) => v as u64,
        None => 0,
    }
}

/// A class with one more statement.
pub open spec fn with_statement(cls: BroClassV, st: Seq<char>) -> BroClassV {
    match text::after(st, "PAD"@) {
        Some(rest) => BroClassV { members: cls.members.push(BroMemberV::Pad(pad_of(rest))), ..cls },
        None => match top_level(st, '(', 0, 0) {
            Some(p) => {
                let f = function_of(cls.name, st, p);
                BroClassV {
                    has_virtuals: cls.has_virtuals || f.is_virtual,
                    functions: cls.functions.push(f),
                    ..cls
                }
            },
            None => match field_of(st) {
                Some(m) => BroClassV { members: cls.members.push(m), ..cls },
                None => cls,
            },
        },
    }
}

/// The part of a string from a character on.
pub(crate) fn from_index(s: &str, i: usize) -> (r: String)
    requires
        i <= s@.len(),
    ensures
        r@ == s@.skip(i as int),
{
    let n = text::count(s);
    let r = text::part(s, i, n);
    assert(r@ =~= s@.skip(i as int));
    r
}

/// The part of a string behind a character.
pub(crate) fn behind(s: &str, i: usize) -> (r: String)
    requires
        i < s@.len(),
    ensures
        r@ == s@.skip(i + 1),
{
    let n = text::count(s);
    let r = text::part(s, i + 1, n);
    assert(r@ =~= s@.skip(i + 1));
    r
}

pub(crate) fn up_to_index(s: &str, i: usize) -> (r: String)
    requires
        i <= s@.len(),
    ensures
        r@ == s@.take(i as int),
{
    let r = text::part(s, 0, i);
    assert(r@ =~= s@.take(i as int));
    r
}

pub(crate) fn find_char(s: &str, c: char) -> (r: Option<usize>)
    ensures
        match r {
            Some(i) => text::index_from(s@, c, 0) == Some(i as int) && i < s@.len(),
            None => text::index_from(s@, c, 0) is None,
        },
{
    let cs = text::chars_of(s);
    text::find_from(cs.as_slice(), c, 0)
}

fn read_function(class: &str, st: &str, p: usize) -> (r: BroFunction)
    requires
        p < st@.len(),
    ensures
        r.deep_view() == function_of(class@, st@, p as int),
{
    let before = up_to_index(st, p);
    let head = text::trim(before.as_str());
    let h = head.as_str();
    let name = match find_last_break(h) {
        Some(i) => behind(h, i),
        None => head.clone(),
    };
    let is_static = text::starts_with(h, "static ") || text::contains(h, " static ");
    let is_virtual = text::starts_with(h, "virtual ") || text::contains(h, " virtual ");
    let close = match matching_paren(st, p) {
        Some(c) => c,
        None => text::count(st),
    };
    let tail = from_index(st, close);
    let win = match find_char(tail.as_str(), '=') {
        Some(_) => {
            let list = text::tail(tail.as_str(), "=");
            match platform_value(list.as_str(), "win") {
                Some(v) => Some(v as u32),
                None => None,
            }
        },
        None => None,
    };
    let upto = up_to_index(st, close);
    BroFunction {
        class: class.to_owned(),
        name,
        signature: text::trim(upto.as_str()),
        is_static,
        is_virtual,
        win,
    }
}

fn read_declarator(st: &str) -> (r: (String, u64))
    ensures
        r.deep_view() == declarator(st@),
{
    if let Some(b) = find_char(st, '[') {
        if text::ends_with(st, "]") {
            let n = text::count(st);
            proof {
                reveal_strlit("]");
                assert(st@[n - 1] == ']') by {
                    assert(st@.subrange(n - 1, n as int)[0] == st@[n - 1]);
                }
                text::index_from_bounds(st@, '[', 0);
            }
            let inside = text::part(st, b + 1, n - 1);
            let bound = text::trim(inside.as_str());
            let count = match num::parse_unsigned(bound.as_str(), 10, u64::MAX) {
                Some(v) => v,
                None => match parse_hex(bound.as_str()) {
                    Some(v) => v,
                    None => 1,
                },
            };
            return (up_to_index(st, b), count);
        }
    }
    (st.to_owned(), 1)
}

fn read_field(st: &str) -> (r: Option<BroMember>)
    ensures
        r.deep_view() == field_of(st@),
{
    let t = text::trim(st);
    let (decl, count) = read_declarator(t.as_str());
    let d = decl.as_str();
    match find_last_break(d) {
        None => None,
        Some(i) => {
            let n = text::count(d);
            let back = behind(d, i);
            let front = up_to_index(d, i + 1);
            let name = text::trim(back.as_str());
            let ty = text::trim(front.as_str());
            if text::count(name.as_str()) == 0 || text::count(ty.as_str()) == 0 || find_char(ty.as_str(), '=').is_some() {
                None
            } else {
                Some(BroMember::Field { ty, name, count })
            }
        },
    }
}

impl BroClass {
    fn add_member(&mut self, m: BroMember)
        ensures
            final(self).deep_view() == (BroClassV {
                members: old(self).deep_view().members.push(m.deep_view()),
                ..old(self).deep_view()
            }),
    {
        let ghost before = self.members.deep_view();
        let ghost x = m.deep_view();
        self.members.push(m);
        assert(self.members.deep_view() =~= before.push(x));
    }

    /// Takes a statement of the class body in.
    pub fn parse_statement(&mut self, st: &str)
        ensures
            final(self).deep_view() == with_statement(old(self).deep_view(), st@),
    {
        if let Some(rest) = text::strip_prefix(st, "PAD") {
            let t = text::trim(rest.as_str());
            let list = text::trim_start_of(t.as_str(), '=');
            let n: u64 = match platform_value(list.as_str(), "win") {
                Some(v) => v,
                None => 0,
            };
            self.add_member(BroMember::Pad(n));
            return;
        }
        if let Some(p) = find_top_level(st, '(') {
            let f = read_function(self.name.as_str(), st, p);
            self.has_virtuals = self.has_virtuals || f.is_virtual;
            let ghost before = self.functions.deep_view();
            let ghost x = f.deep_view();
            self.functions.push(f);
            assert(self.functions.deep_view() =~= before.push(x));
            return;
        }
        if let Some(m) = read_field(st) {
            self.add_member(m);
        }
    }
}

// ---------------------------------------------------------------------------
// Whole files.

pub open spec fn is_word_char(c: char) -> bool {
    'a' <= c <= 'z' || 'A' <= c <= 'Z' || '0' <= c <= '9' || c == '_'
}

/// The brace that closes those open, `depth` of them, at `i`.
pub open spec fn close_brace(s: Seq<char>, i: int, depth: int) -> Option<int>
    decreases s.len() - i,
{
    if i < 0 || i >= s.len() {
        None
    } else if s[i] == '{' {
        close_brace(s, i + 1, depth + 1)
    } else if s[i] == '}' {
        if depth - 1 == 0 {
            Some(i)
        } else {
            close_brace(s, i + 1, depth - 1)
        }
    } else {
        close_brace(s, i + 1, depth)
    }
}

fn find_close_brace(c: &Vec<char>, open: usize) -> (r: Option<usize>)
    ensures
        match r {
            Some(i) => close_brace(c@, open as int, 0) == Some(i as int) && open <= i < c@.len() && c@[i as int] == '}',
            None => close_brace(c@, open as int, 0) is None,
        },
{
    let mut depth: i128 = 0;
    let mut i: usize = open;
    while i < c.len()
        invariant
            open <= i,
            -(i as int) <= depth <= i,
            close_brace(c@, open as int, 0) == close_brace(c@, i as int, depth as int),
        decreases c@.len() - i,
    {
        if c[i] == '{' {
            depth += 1;
        } else if c[i] == '}' {
            depth -= 1;
            if depth == 0 {
                return Some(i);
            }
        }
        i += 1;
    }
    None
}

/// A class with the first `n` statements of its body.
pub open spec fn with_statements(cls: BroClassV, list: Seq<Seq<char>>, n: int) -> BroClassV
    decreases n,
{
    if n <= 0 {
        cls
    } else {
        with_statement(with_statements(cls, list, n - 1), list[n - 1])
    }
}

/// The class that a header and a body declare.
pub open spec fn class_of(header: Seq<char>, body: Seq<char>) -> BroClassV {
    let (name, bases) = header_parts(header);
    let list = statements_of(body);
    with_statements(
        BroClassV { name, bases, members: Seq::empty(), functions: Seq::empty(), has_virtuals: false },
        list,
        list.len() as int,
    )
}

/// The classes with those that `s` declares from `from` on.
pub open spec fn classes_from(cs: Seq<(Seq<char>, BroClassV)>, s: Seq<char>, from: int) -> Seq<(Seq<char>, BroClassV)>
    decreases s.len() - from,
    via classes_from_decreases
{
    match text::sub_from(s, "class "@, from) {
        None => cs,
        Some(i) => match text::index_from(s, '{', i + 6) {
            None => cs,
            Some(open) => {
                let header = s.subrange(i + 6, open);
                let at_word = i == from || !is_word_char(s[i - 1]);
                if !at_word || text::index_from(header, ';', 0) is Some {
                    classes_from(cs, s, i + 6)
                } else {
                    match close_brace(s, open, 0) {
                        None => cs,
                        Some(close) => if open < close < s.len() {
                            let c = class_of(header, s.subrange(open + 1, close));
                            classes_from(table::put(cs, c.name, c), s, close + 1)
                        } else {
                            cs
                        },
                    }
                }
            },
        },
    }
}

#[via_fn]
proof fn classes_from_decreases(cs: Seq<(Seq<char>, BroClassV)>, s: Seq<char>, from: int) {
    text::sub_from_bounds(s, "class "@, from);
    if let Some(i) = text::sub_from(s, "class "@, from) {
        reveal_strlit("class ");
        text::index_from_bounds(s, '{', i + 6);
    }
}

proof fn statements_keep_name(cls: BroClassV, list: Seq<Seq<char>>, n: int)
    ensures
        with_statements(cls, list, n).name == cls.name,
    decreases n,
{
    if n > 0 {
        statements_keep_name(cls, list, n - 1);
    }
}

fn read_class(header: &str, body: &str) -> (r: BroClass)
    ensures
        r.deep_view() == class_of(header@, body@),
{
    let (name, bases) = split_header(header);
    let mut cls = BroClass { name, bases, members: Vec::new(), functions: Vec::new(), has_virtuals: false };
    let ghost start = cls.deep_view();
    assert(start.members =~= Seq::empty());
    assert(start.functions =~= Seq::empty());
    let list = statements(body);
    let ghost l = list.deep_view();
    let mut i: usize = 0;
    while i < list.len()
        invariant
            l == list.deep_view(),
            i <= list@.len(),
            cls.deep_view() == with_statements(start, l, i as int),
        decreases list@.len() - i,
    {
        assert(list@[i as int]@ == l[i as int]);
        cls.parse_statement(list[i].as_str());
        i += 1;
    }
    cls
}

/// Name and size of the enum that a line declares.
pub open spec fn enum_of(line: Seq<char>) -> Option<(Seq<char>, u64)> {
    match text::after(text::trimmed(line), "enum "@) {
        None => None,
        Some(rest) => {
            let rest = match text::after(rest, "class "@) {
                Some(r) => r,
                None => match text::after(rest, "struct "@) {
                    Some(r) => r,
                    None => rest,
                },
            };
            let (name, under) = match text::index_from(rest, ':', 0) {
                Some(i) => (
                    text::trimmed(rest.take(i)),
                    text::trimmed(text::trimmed_end(text::trimmed(rest.skip(i + 1)), '{')),
                ),
                None => (text::trimmed(text::trimmed_end(rest, '{')), "int"@),
            };
            if name.len() == 0 || text::includes(name, " "@) {
                None
            } else {
                Some(
                    (
                        name,
                        match primitive(under) {
                            Some(p) => p,
                            None => 4,
                        },
                    ),
                )
            }
        },
    }
}

/// The enums with those of the first `n` lines.
pub open spec fn with_enums(enums: Seq<(Seq<char>, u64)>, lines: Seq<Seq<char>>, n: int) -> Seq<(Seq<char>, u64)>
    decreases n,
{
    if n <= 0 {
        enums
    } else {
        let s = with_enums(enums, lines, n - 1);
        match enum_of(lines[n - 1]) {
            Some((name, size)) => table::put(s, name, size),
            None => s,
        }
    }
}

impl BindingsV {
    /// The bindings with the classes of a text.
    pub open spec fn with_bro(self, src: Seq<char>) -> BindingsV {
        let s = unattributed(uncommented(src, 0), 0);
        BindingsV { classes: classes_from(self.classes, s, 0), ..self }
    }

    /// The bindings with the enums of a header.
    pub open spec fn with_header(self, src: Seq<char>) -> BindingsV {
        let lines = text::lines(src);
        BindingsV { enums: with_enums(self.enums, lines, lines.len() as int), ..self }
    }
}

fn read_enum(line: &str) -> (r: Option<(String, u64)>)
    ensures
        r.deep_view() == enum_of(line@),
{
    let l = text::trim(line);
    let rest = match text::strip_prefix(l.as_str(), "enum ") {
        Some(r) => r,
        None => {
            return None;
        },
    };
    let rest = match text::strip_prefix(rest.as_str(), "class ") {
        Some(r) => r,
        None => match text::strip_prefix(rest.as_str(), "struct ") {
            Some(r) => r,
            None => rest,
        },
    };
    let (name, under) = match find_char(rest.as_str(), ':') {
        Some(i) => {
            let n = up_to_index(rest.as_str(), i);
            let u = behind(rest.as_str(), i);
            let u = text::trim(u.as_str());
            let u = text::trim_end_of(u.as_str(), '{');
            (text::trim(n.as_str()), text::trim(u.as_str()))
        },
        None => {
            let n = text::trim_end_of(rest.as_str(), '{');
            (text::trim(n.as_str()), "int".to_owned())
        },
    };
    if text::count(name.as_str()) == 0 || text::contains(name.as_str(), " ") {
        return None;
    }
    let size: u64 = match prim_size(under.as_str()) {
        Some(p) => p.0,
        None => 4,
    };
    Some((name, size))
}

/// A file of bindings.
#[derive(Debug)]
pub struct SourceFile {
    pub path: String,
    /// Last component of the path.
    pub name: String,
    pub text: String,
}

/// Model of a file of bindings.
pub ghost struct SourceFileV {
    pub path: Seq<char>,
    pub name: Seq<char>,
    pub text: Seq<char>,
}

impl DeepView for SourceFile {
    type V = SourceFileV;

    open spec fn deep_view(&self) -> SourceFileV {
        SourceFileV { path: self.path@, name: self.name@, text: self.text@ }
    }
}

/// A file name has an extension: a dot that is not its first character, and
/// the extension behind the last one.
pub open spec fn has_extension(name: Seq<char>, ext: Seq<char>) -> bool {
    match text::last_sub(name, "."@, name.len() as int) {
        Some(i) => i > 0 && name.skip(i + 1) == ext,
        None => false,
    }
}

pub fn is_extension(name: &str, ext: &str) -> (r: bool)
    ensures
        r == has_extension(name@, ext@),
{
    let c = text::chars_of(name);
    let dot = text::chars_of(".");
    proof {
        reveal_strlit(".");
    }
    let mut i: usize = c.len();
    loop
        invariant
            c@ == name@,
            dot@ == "."@,
            "."@.len() == 1,
            i <= c@.len(),
            text::last_sub(name@, "."@, name@.len() as int) == text::last_sub(name@, "."@, i as int),
        decreases i,
    {
        if text::stands_at(c.as_slice(), dot.as_slice(), i) {
            if i == 0 {
                return false;
            }
            let tail = behind(name, i);
            return text::same(tail.as_str(), ext);
        }
        if i == 0 {
            assert(text::last_sub(name@, "."@, -1) is None);
            return false;
        }
        i -= 1;
    }
}

/// A file of a folder that belongs to the bindings in it.
pub fn is_source(name: &str) -> (r: bool)
    ensures
        r == (has_extension(name@, "bro"@) || name@ == "Enums.hpp"@),
{
    is_extension(name, "bro") || text::same(name, "Enums.hpp")
}

/// The bindings with the first `n` files.
pub open spec fn with_files(b: BindingsV, files: Seq<SourceFileV>, n: int) -> BindingsV
    decreases n,
{
    if n <= 0 {
        b
    } else {
        let s = with_files(b, files, n - 1);
        let f = files[n - 1];
        let s = BindingsV { source: s.source.push(f.path), ..s };
        if has_extension(f.name, "hpp"@) {
            s.with_header(f.text)
        } else {
            s.with_bro(f.text)
        }
    }
}

/// The functions of the first `n` classes.
pub open spec fn functions_of(cs: Seq<(Seq<char>, BroClassV)>, n: int) -> Seq<BroFunctionV>
    decreases n,
{
    if n <= 0 {
        Seq::empty()
    } else {
        functions_of(cs, n - 1) + cs[n - 1].1.functions
    }
}

impl Default for Bindings {
    fn default() -> (r: Self)
        ensures
            r.deep_view() == BindingsV::blank(),
    {
        Bindings::new()
    }
}

impl Bindings {
    pub fn new() -> (r: Bindings)
        ensures
            r.deep_view() == BindingsV::blank(),
    {
        let source: Vec<String> = Vec::new();
        assert(source.deep_view() =~= Seq::empty());
        Bindings { source, classes: Table::new(), enums: Table::new() }
    }

    /// The bindings in files, headers with enums among them.
    pub fn load(files: &Vec<SourceFile>) -> (r: Bindings)
        ensures
            r.deep_view() == with_files(BindingsV::blank(), files.deep_view(), files@.len() as int),
    {
        let ghost fs = files.deep_view();
        let mut b = Bindings::new();
        let mut i: usize = 0;
        while i < files.len()
            invariant
                fs == files.deep_view(),
                i <= files@.len(),
                b.deep_view() == with_files(BindingsV::blank(), fs, i as int),
            decreases files@.len() - i,
        {
            let f = &files[i];
            assert(f.deep_view() == fs[i as int]);
            text::push_text(&mut b.source, f.path.clone());
            if is_extension(f.name.as_str(), "hpp") {
                b.parse_enums(f.text.as_str());
            } else {
                b.parse_bro(f.text.as_str());
            }
            i += 1;
        }
        b
    }

    pub fn parse_enums(&mut self, src: &str)
        ensures
            final(self).deep_view() == old(self).deep_view().with_header(src@),
    {
        let lines = text::split_lines(src);
        let ghost ls = lines.deep_view();
        let ghost b = self.deep_view();
        let mut i: usize = 0;
        while i < lines.len()
            invariant
                ls == lines.deep_view(),
                i <= lines@.len(),
                self.deep_view() == (BindingsV { enums: with_enums(b.enums, ls, i as int), ..b }),
            decreases lines@.len() - i,
        {
            assert(lines@[i as int]@ == ls[i as int]);
            if let Some((name, size)) = read_enum(lines[i].as_str()) {
                self.enums.insert(name, size);
            }
            i += 1;
        }
    }

    pub fn parse_bro(&mut self, src: &str)
        ensures
            final(self).deep_view() == old(self).deep_view().with_bro(src@),
    {
        let plain = strip_comments(src);
        let t = strip_attrs(plain.as_str());
        let c = text::chars_of(t.as_str());
        let word = text::chars_of("class ");
        let ghost b = self.deep_view();
        let ghost all = classes_from(b.classes, t@, 0);
        let mut from: usize = 0;
        proof {
            reveal_strlit("class ");
        }
        loop
            invariant_except_break
                classes_from(self.classes.deep_view(), t@, from as int) == all,
            invariant
                c@ == t@,
                word@ == "class "@,
                "class "@.len() == 6,
                from <= c@.len(),
                self.deep_view() == (BindingsV { classes: self.deep_view().classes, ..b }),
            ensures
                self.classes.deep_view() == all,
            decreases c@.len() - from,
        {
            let i = match text::find_sub(c.as_slice(), word.as_slice(), from) {
                Some(i) => i,
                None => {
                    break;
                },
            };
            let open = match text::find_from(c.as_slice(), '{', i + 6) {
                Some(o) => o,
                None => {
                    break;
                },
            };
            let header = text::string_of(c.as_slice(), i + 6, open);
            let at_word = i == from || {
                let p = c[i - 1];
                !(('a' <= p && p <= 'z') || ('A' <= p && p <= 'Z') || ('0' <= p && p <= '9') || p == '_')
            };
            if !at_word || find_char(header.as_str(), ';').is_some() {
                from = i + 6;
                continue;
            }
            let close = match find_close_brace(&c, open) {
                Some(k) => k,
                None => {
                    break;
                },
            };
            proof {
                text::index_from_bounds(t@, '{', i + 6);
                assert(t@[open as int] == '{');
            }
            assert(open < close);
            let body = text::string_of(c.as_slice(), open + 1, close);
            let cls = read_class(header.as_str(), body.as_str());
            self.classes.insert(cls.name.clone(), cls);
            from = close + 1;
        }
    }

    /// The declared functions, class by class.
    pub fn functions(&self) -> (r: Vec<&BroFunction>)
        ensures
            r.deep_view() == functions_of(self.deep_view().classes, self.deep_view().classes.len() as int),
    {
        let ghost cs = self.deep_view().classes;
        let mut out: Vec<&BroFunction> = Vec::new();
        let mut i: usize = 0;
        assert(out.deep_view() =~= Seq::empty());
        while i < self.classes.len()
            invariant
                cs == self.classes.deep_view(),
                i <= cs.len(),
                out.deep_view() == functions_of(cs, i as int),
            decreases cs.len() - i,
        {
            let c = self.classes.value_at(i);
            let ghost fs = c.functions.deep_view();
            let ghost before = out.deep_view();
            let mut k: usize = 0;
            assert(before + fs.take(0) =~= before);
            while k < c.functions.len()
                invariant
                    fs == c.functions.deep_view(),
                    k <= c.functions@.len(),
                    out.deep_view() == before + fs.take(k as int),
                decreases c.functions@.len() - k,
            {
                let ghost pre = out.deep_view();
                out.push(&c.functions[k]);
                k += 1;
                assert(out.deep_view() =~= pre.push(fs[k - 1]));
                assert(before + fs.take(k as int) =~= pre.push(fs[k - 1]));
            }
            assert(fs.take(k as int) =~= fs);
            i += 1;
        }
        out
    }
}

/// How many of the first `n` functions have an address, and for how many of
/// them it is among `starts`.
pub open spec fn address_counts(fs: Seq<BroFunctionV>, starts: Seq<(u32, ())>, n: int) -> (nat, nat)
    decreases n,
{
    if n <= 0 {
        (0, 0)
    } else {
        let (all, known) = address_counts(fs, starts, n - 1);
        match fs[n - 1].win {
            Some(a) => (
                all + 1,
                if table::holds(starts, a) {
                    known + 1
                } else {
                    known
                },
            ),
            None => (all, known),
        }
    }
}

impl Bindings {
    /// How many declared functions have an address, and for how many of them a
    /// function of the binary starts there.
    pub fn count_addresses(&self, starts: &Table<u32, ()>) -> (r: (usize, usize))
        ensures
            ({
                let fs = functions_of(self.deep_view().classes, self.deep_view().classes.len() as int);
                (r.0 as nat, r.1 as nat) == address_counts(fs, starts.deep_view(), fs.len() as int)
            }),
    {
        let fs = self.functions();
        let ghost v = fs.deep_view();
        let mut all: usize = 0;
        let mut known: usize = 0;
        let mut i: usize = 0;
        while i < fs.len()
            invariant
                v == fs.deep_view(),
                i <= fs@.len(),
                known <= all <= i,
                (all as nat, known as nat) == address_counts(v, starts.deep_view(), i as int),
            decreases fs@.len() - i,
        {
            assert(fs@[i as int].deep_view() == v[i as int]);
            if let Some(a) = fs[i].win {
                all += 1;
                if starts.contains(&a) {
                    known += 1;
                }
            }
            i += 1;
        }
        (all, known)
    }
}

// ---------------------------------------------------------------------------
// Primitive types.

/// One byte wide.
pub open spec fn is_prim1(t: Seq<char>) -> bool {
    t == "bool"@ || t == "char"@ || t == "signed char"@ || t == "unsigned char"@ || t == "uint8_t"@ || t == "int8_t"@ || t
        == "std::uint8_t"@ || t == "std::int8_t"@ || t == "byte"@ || t == "BYTE"@ || t == "GLubyte"@ || t == "GLboolean"@
}

/// Two bytes wide.
pub open spec fn is_prim2(t: Seq<char>) -> bool {
    t == "short"@ || t == "unsigned short"@ || t == "uint16_t"@ || t == "int16_t"@ || t == "std::uint16_t"@ || t
        == "std::int16_t"@ || t == "wchar_t"@ || t == "char16_t"@ || t == "GLshort"@ || t == "GLushort"@
}

/// Four bytes wide.
pub open spec fn is_prim4(t: Seq<char>) -> bool {
    t == "int"@ || t == "unsigned"@ || t == "unsigned int"@ || t == "uint32_t"@ || t == "int32_t"@ || t == "std::uint32_t"@
        || t == "std::int32_t"@ || t == "float"@ || t == "long"@ || t == "unsigned long"@ || t == "GLenum"@ || t
        == "GLint"@ || t == "GLuint"@ || t == "GLfloat"@ || t == "GLsizei"@ || t == "char32_t"@ || t == "DWORD"@
}

/// Eight bytes wide.
pub open spec fn is_prim8(t: Seq<char>) -> bool {
    t == "double"@ || t == "long long"@ || t == "unsigned long long"@ || t == "uint64_t"@ || t == "int64_t"@ || t
        == "std::uint64_t"@ || t == "std::int64_t"@ || t == "size_t"@ || t == "std::size_t"@ || t == "intptr_t"@ || t
        == "uintptr_t"@ || t == "time_t"@ || t == "ptrdiff_t"@ || t == "long double"@ || t == "cocos2d::ccTime"@
}

/// The size of a primitive type.
pub open spec fn primitive(s: Seq<char>) -> Option<u64> {
    let t = text::trimmed(s);
    if is_prim1(t) {
        Some(1)
    } else if is_prim2(t) {
        Some(2)
    } else if is_prim4(t) {
        Some(4)
    } else if is_prim8(t) {
        Some(8)
    } else {
        None
    }
}

fn prim1(t: &str) -> (r: bool)
    ensures
        r == is_prim1(t@),
{
    text::same(t, "bool") || text::same(t, "char") || text::same(t, "signed char") || text::same(t, "unsigned char")
        || text::same(t, "uint8_t") || text::same(t, "int8_t") || text::same(t, "std::uint8_t") || text::same(
        t,
        "std::int8_t",
    ) || text::same(t, "byte") || text::same(t, "BYTE") || text::same(t, "GLubyte") || text::same(t, "GLboolean")
}

fn prim2(t: &str) -> (r: bool)
    ensures
        r == is_prim2(t@),
{
    text::same(t, "short") || text::same(t, "unsigned short") || text::same(t, "uint16_t") || text::same(t, "int16_t")
        || text::same(t, "std::uint16_t") || text::same(t, "std::int16_t") || text::same(t, "wchar_t") || text::same(
        t,
        "char16_t",
    ) || text::same(t, "GLshort") || text::same(t, "GLushort")
}

fn prim4(t: &str) -> (r: bool)
    ensures
        r == is_prim4(t@),
{
    text::same(t, "int") || text::same(t, "unsigned") || text::same(t, "unsigned int") || text::same(t, "uint32_t")
        || text::same(t, "int32_t") || text::same(t, "std::uint32_t") || text::same(t, "std::int32_t") || text::same(
        t,
        "float",
    ) || text::same(t, "long") || text::same(t, "unsigned long") || text::same(t, "GLenum") || text::same(t, "GLint")
        || text::same(t, "GLuint") || text::same(t, "GLfloat") || text::same(t, "GLsizei") || text::same(t, "char32_t")
        || text::same(t, "DWORD")
}

fn prim8(t: &str) -> (r: bool)
    ensures
        r == is_prim8(t@),
{
    text::same(t, "double") || text::same(t, "long long") || text::same(t, "unsigned long long") || text::same(
        t,
        "uint64_t",
    ) || text::same(t, "int64_t") || text::same(t, "std::uint64_t") || text::same(t, "std::int64_t") || text::same(
        t,
        "size_t",
    ) || text::same(t, "std::size_t") || text::same(t, "intptr_t") || text::same(t, "uintptr_t") || text::same(
        t,
        "time_t",
    ) || text::same(t, "ptrdiff_t") || text::same(t, "long double") || text::same(t, "cocos2d::ccTime")
}

/// (size, alignment) of a primitive type.
pub fn prim_size(t: &str) -> (r: Option<(u64, u64)>)
    ensures
        r == match primitive(t@) {
            Some(n) => Some((n, n)),
            None => None,
        },
{
    let t = text::trim(t);
    let t = t.as_str();
    if prim1(t) {
        Some((1, 1))
    } else if prim2(t) {
        Some((2, 2))
    } else if prim4(t) {
        Some((4, 4))
    } else if prim8(t) {
        Some((8, 8))
    } else {
        None
    }
}

} // verus!
