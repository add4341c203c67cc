//! Member layout of declared classes, as MSVC x64 lays them out.

use vstd::prelude::*;
use vstd::string::StringExecFns;

use crate::bindings;
use crate::bindings::behind;
use crate::bindings::find_char;
use crate::bindings::hex_number;
use crate::bindings::parse_hex;
use crate::bindings::prim_size;
use crate::bindings::primitive;
use crate::bindings::up_to_index;
use crate::bindings::Bindings;
use crate::bindings::BindingsV;
use crate::bindings::BroMember;
use crate::bindings::BroMemberV;
use crate::num;
use crate::table;
use crate::table::Table;
use crate::text;

verus! {

/// The least multiple of an alignment that is not below a value.
pub open spec fn aligned(v: u64, a: u64) -> u64 {
    if a <= 1 {
        v
    } else if v % a == 0 {
        v
    } else {
        ((v / a + 1) as u64).wrapping_mul(a)
    }
}

pub fn align_up(v: u64, a: u64) -> (r: u64)
    ensures
        r == aligned(v, a),
{
    if a <= 1 {
        v
    } else if v % a == 0 {
        v
    } else {
        let q = v / a;
        assert(q < u64::MAX) by (nonlinear_arith)
            requires
                q == v / a,
                a >= 2,
                v <= u64::MAX,
        ;
        (q + 1).wrapping_mul(a)
    }
}

// ---------------------------------------------------------------------------
// Template arguments.

/// Template arguments as far as they were split.
pub ghost struct Splitting {
    pub out: Seq<Seq<char>>,
    pub cur: Seq<char>,
    pub depth: int,
}

/// The first `n` characters split at commas outside angle brackets.
pub open spec fn split_args(s: Seq<char>, n: int) -> Splitting
    decreases n,
{
    if n <= 0 {
        Splitting { out: Seq::empty(), cur: Seq::empty(), depth: 0 }
    } else {
        let p = split_args(s, n - 1);
        let c = s[n - 1];
        if c == ',' && p.depth == 0 {
            Splitting { out: p.out.push(text::trimmed(p.cur)), cur: Seq::empty(), ..p }
        } else {
            Splitting {
                cur: p.cur.push(c),
                depth: if c == '<' {
                    p.depth + 1
                } else if c == '>' {
                    p.depth - 1
                } else {
                    p.depth
                },
                ..p
            }
        }
    }
}

pub open spec fn arguments(s: Seq<char>) -> Seq<Seq<char>> {
    let p = split_args(s, s.len() as int);
    if text::trimmed(p.cur).len() > 0 {
        p.out.push(text::trimmed(p.cur))
    } else {
        p.out
    }
}

pub proof fn trimming_shortens(s: Seq<char>)
    ensures
        text::trimmed(s).len() <= s.len(),
{
    text::word_bounds(s, 0);
    text::last_word_bounds(s, s.len() as int);
}

proof fn parts_fit(s: Seq<char>, n: int)
    requires
        0 <= n <= s.len(),
    ensures
        split_args(s, n).cur.len() <= n,
        forall|k: int| 0 <= k < split_args(s, n).out.len() ==> (#[trigger] split_args(s, n).out[k]).len() <= n,
    decreases n,
{
    if n > 0 {
        parts_fit(s, n - 1);
        trimming_shortens(split_args(s, n - 1).cur);
    }
}

/// Every argument is no longer than the text it comes from.
pub proof fn arguments_fit(s: Seq<char>)
    ensures
        forall|k: int| 0 <= k < arguments(s).len() ==> (#[trigger] arguments(s)[k]).len() <= s.len(),
{
    parts_fit(s, s.len() as int);
    trimming_shortens(split_args(s, s.len() as int).cur);
}

/// Split template arguments at top level: `A, std::pair<B, C>` -> [A, std::pair<B, C>].
pub fn template_args(s: &str) -> (r: Vec<String>)
    ensures
        r.deep_view() == arguments(s@),
{
    let c = text::chars_of(s);
    let mut out: Vec<String> = Vec::new();
    let mut cur = text::empty_text();
    let mut depth: i128 = 0;
    let mut i: usize = 0;
    assert(out.deep_view() =~= Seq::empty());
    while i < c.len()
        invariant
            c@ == s@,
            i <= c@.len(),
            -(i as int) <= depth <= i,
            split_args(s@, i as int) == (Splitting { out: out.deep_view(), cur: cur@, depth: depth as int }),
        decreases c@.len() - i,
    {
        if c[i] == ',' && depth == 0 {
            text::push_text(&mut out, text::trim(cur.as_str()));
            cur = text::empty_text();
        } else {
            if c[i] == '<' {
                depth += 1;
            } else if c[i] == '>' {
                depth -= 1;
            }
            cur.push(c[i]);
        }
        i += 1;
    }
    let last = text::trim(cur.as_str());
    if text::count(last.as_str()) > 0 {
        text::push_text(&mut out, last);
    }
    out
}

// ---------------------------------------------------------------------------
// Laid out classes.

#[derive(Debug)]
pub struct LaidMember {
    pub name: String,
    pub ty: String,
    pub offset: u64,
    pub size: u64,
}

/// Model of a member with its place.
pub ghost struct LaidMemberV {
    pub name: Seq<char>,
    pub ty: Seq<char>,
    pub offset: u64,
    pub size: u64,
}

impl DeepView for LaidMember {
    type V = LaidMemberV;

    open spec fn deep_view(&self) -> LaidMemberV {
        LaidMemberV { name: self.name@, ty: self.ty@, offset: self.offset, size: self.size }
    }
}

#[derive(Debug)]
pub struct Layout {
    pub start: u64,
    pub members: Vec<LaidMember>,
    pub end: u64,
    pub align: u64,
    /// Set when a member type could not be sized; members after it are unknown.
    pub error: Option<String>,
}

/// Model of a layout.
pub ghost struct LayoutV {
    pub start: u64,
    pub members: Seq<LaidMemberV>,
    pub end: u64,
    pub align: u64,
    pub error: Option<Seq<char>>,
}

impl DeepView for Layout {
    type V = LayoutV;

    open spec fn deep_view(&self) -> LayoutV {
        LayoutV {
            start: self.start,
            members: self.members.deep_view(),
            end: self.end,
            align: self.align,
            error: self.error.deep_view(),
        }
    }
}

/// Sizes and alignments of classes that were asked for; nothing for a class
/// whose size is unknown or being computed.
pub type Memo = Seq<(Seq<char>, Option<(u64, u64)>)>;

pub struct LayoutCtx<'a> {
    pub bro: &'a Bindings,
    /// Measured object sizes (from the binary).
    pub measured: &'a Table<String, u64>,
    /// (base name, mdisp) of RTTI classes, when known from the binary.
    pub rtti_bases: &'a Table<String, Vec<(String, i32)>>,
    pub cache: Table<String, Option<(u64, u64)>>,
}

/// What layouts are computed from.
pub ghost struct Facts {
    pub bro: BindingsV,
    pub measured: Seq<(Seq<char>, u64)>,
    pub rtti_bases: Seq<(Seq<char>, Seq<(Seq<char>, i32)>)>,
}

impl LayoutCtx<'_> {
    pub open spec fn facts(&self) -> Facts {
        Facts {
            bro: self.bro.deep_view(),
            measured: self.measured.deep_view(),
            rtti_bases: self.rtti_bases.deep_view(),
        }
    }

    pub open spec fn memo(&self) -> Memo {
        self.cache.deep_view()
    }
}

impl Facts {
    pub open spec fn declares(self, name: Seq<char>) -> bool {
        table::holds(self.bro.classes, name)
    }

    /// A name under a prefix stands for a class.
    pub open spec fn knows(self, name: Seq<char>) -> bool {
        self.declares(name) || table::holds(self.measured, name)
    }

    pub open spec fn qualified(self, name: Seq<char>) -> Option<Seq<char>> {
        if self.declares(name) {
            Some(name)
        } else if self.knows("cocos2d::"@ + name) {
            Some("cocos2d::"@ + name)
        } else if self.knows("cocos2d::extension::"@ + name) {
            Some("cocos2d::extension::"@ + name)
        } else if self.knows("geode::"@ + name) {
            Some("geode::"@ + name)
        } else {
            None
        }
    }
}

// ---------------------------------------------------------------------------
// What kind of type a text names.

/// How the size of a type is found.
pub ghost enum SizingV {
    Known(Option<(u64, u64)>),
    Array(Seq<char>, Option<u64>),
    Pair(Seq<char>, Seq<char>),
    Maybe(Seq<char>),
    Class(Seq<char>),
}

/// How the size of a type is found.
#[derive(Debug)]
pub enum Sizing {
    Known(Option<(u64, u64)>),
    Array(String, Option<u64>),
    Pair(String, String),
    Maybe(String),
    Class(String),
}

impl DeepView for Sizing {
    type V = SizingV;

    open spec fn deep_view(&self) -> SizingV {
        match self {
            Sizing::Known(r) => SizingV::Known(*r),
            Sizing::Array(e, n) => SizingV::Array(e@, *n),
            Sizing::Pair(a, b) => SizingV::Pair(a@, b@),
            Sizing::Maybe(e) => SizingV::Maybe(e@),
            Sizing::Class(q) => SizingV::Class(q@),
        }
    }
}

/// A type without `const` around it.
pub open spec fn bare_type(ty: Seq<char>) -> Seq<char> {
    let t = text::trimmed(ty);
    let t = text::trimmed(match text::after(t, "const "@) {
        Some(r) => r,
        None => t,
    });
    text::trimmed(match text::before(t, " const"@) {
        Some(r) => r,
        None => t,
    })
}

fn strip_const(ty: &str) -> (r: String)
    ensures
        r@ == bare_type(ty@),
{
    let t = text::trim(ty);
    let t = match text::strip_prefix(t.as_str(), "const ") {
        Some(r) => r,
        None => t,
    };
    let t = text::trim(t.as_str());
    let t = match text::strip_suffix(t.as_str(), " const") {
        Some(r) => r,
        None => t,
    };
    text::trim(t.as_str())
}

/// Name and arguments of a bare type.
pub open spec fn template_of(t: Seq<char>) -> (Seq<char>, Seq<Seq<char>>) {
    match text::index_from(t, '<', 0) {
        Some(i) => if text::suffixed(t, ">"@) && i + 1 < t.len() {
            (text::trimmed(t.take(i)), arguments(t.subrange(i + 1, t.len() - 1)))
        } else {
            (text::trimmed(t), Seq::empty())
        },
        None => (text::trimmed(t), Seq::empty()),
    }
}

fn split_template(t: &str) -> (r: (String, Vec<String>))
    ensures
        r.deep_view() == template_of(t@),
{
    if let Some(i) = find_char(t, '<') {
        let n = text::count(t);
        if text::ends_with(t, ">") && i + 1 < n {
            let name = up_to_index(t, i);
            let inner = text::part(t, i + 1, n - 1);
            return (text::trim(name.as_str()), template_args(inner.as_str()));
        }
    }
    let args: Vec<String> = Vec::new();
    assert(args.deep_view() =~= Seq::empty());
    (text::trim(t), args)
}

/// A number in decimal or behind `0x`.
pub open spec fn count_of(s: Seq<char>) -> Option<u64> {
    match num::unsigned(s, 10, u64::MAX as int) {
        Some(v) => Some(v as u64),
        None => match hex_number(s) {
            Some(v) => Some(v as u64),
            None => None,
        },
    }
}

fn parse_count(s: &str) -> (r: Option<u64>)
    ensures
        r == count_of(s@),
{
    match num::parse_unsigned(s, 10, u64::MAX) {
        Some(v) => Some(v),
        None => parse_hex(s),
    }
}

/// Types of the standard library.
pub open spec fn standard(tail: Seq<char>, args: Seq<Seq<char>>) -> Option<SizingV> {
    if tail == "string"@ {
        Some(SizingV::Known(Some((32, 8))))
    } else if tail == "vector"@ {
        if args.len() > 0 && args[0] == "bool"@ {
            Some(SizingV::Known(Some((32, 8))))
        } else {
            Some(SizingV::Known(Some((24, 8))))
        }
    } else if tail == "map"@ || tail == "set"@ || tail == "multimap"@ || tail == "multiset"@ || tail == "list"@ {
        Some(SizingV::Known(Some((16, 8))))
    } else if tail == "unordered_map"@ || tail == "unordered_set"@ || tail == "unordered_multimap"@ {
        Some(SizingV::Known(Some((64, 8))))
    } else if tail == "deque"@ {
        Some(SizingV::Known(Some((40, 8))))
    } else if tail == "function"@ {
        Some(SizingV::Known(Some((64, 8))))
    } else if tail == "shared_ptr"@ || tail == "weak_ptr"@ {
        Some(SizingV::Known(Some((16, 8))))
    } else if tail == "unique_ptr"@ {
        Some(SizingV::Known(Some((8, 8))))
    } else if tail == "array"@ && args.len() == 2 {
        Some(SizingV::Array(args[0], count_of(args[1])))
    } else if tail == "pair"@ && args.len() == 2 {
        Some(SizingV::Pair(args[0], args[1]))
    } else if tail == "optional"@ && args.len() == 1 {
        Some(SizingV::Maybe(args[0]))
    } else {
        None
    }
}

fn standard_size(tail: &str, args: &Vec<String>) -> (r: Option<Sizing>)
    ensures
        r.deep_view() == standard(tail@, args.deep_view()),
{
    let ghost av = args.deep_view();
    assert(forall|k: int| 0 <= k < args@.len() ==> #[trigger] args@[k]@ == av[k]);
    if text::same(tail, "string") {
        Some(Sizing::Known(Some((32, 8))))
    } else if text::same(tail, "vector") {
        if args.len() > 0 && text::same(args[0].as_str(), "bool") {
            Some(Sizing::Known(Some((32, 8))))
        } else {
            Some(Sizing::Known(Some((24, 8))))
        }
    } else if text::same(tail, "map") || text::same(tail, "set") || text::same(tail, "multimap") || text::same(
        tail,
        "multiset",
    ) || text::same(tail, "list") {
        Some(Sizing::Known(Some((16, 8))))
    } else if text::same(tail, "unordered_map") || text::same(tail, "unordered_set") || text::same(
        tail,
        "unordered_multimap",
    ) {
        Some(Sizing::Known(Some((64, 8))))
    } else if text::same(tail, "deque") {
        Some(Sizing::Known(Some((40, 8))))
    } else if text::same(tail, "function") {
        Some(Sizing::Known(Some((64, 8))))
    } else if text::same(tail, "shared_ptr") || text::same(tail, "weak_ptr") {
        Some(Sizing::Known(Some((16, 8))))
    } else if text::same(tail, "unique_ptr") {
        Some(Sizing::Known(Some((8, 8))))
    } else if text::same(tail, "array") && args.len() == 2 {
        Some(Sizing::Array(args[0].clone(), parse_count(args[1].as_str())))
    } else if text::same(tail, "pair") && args.len() == 2 {
        Some(Sizing::Pair(args[0].clone(), args[1].clone()))
    } else if text::same(tail, "optional") && args.len() == 1 {
        Some(Sizing::Maybe(args[0].clone()))
    } else {
        None
    }
}

/// Structures of the engine.
pub open spec fn engine(tail: Seq<char>) -> Option<(u64, u64)> {
    if tail == "CCPoint"@ || tail == "CCSize"@ || tail == "ccTex2F"@ || tail == "ccVertex2F"@ || tail == "ccBlendFunc"@ {
        Some((8, 4))
    } else if tail == "CCRect"@ || tail == "ccColor4F"@ || tail == "ccTexParams"@ || tail == "ccHSVValue"@ {
        Some((16, 4))
    } else if tail == "ccVertex3F"@ {
        Some((12, 4))
    } else if tail == "ccColor3B"@ {
        Some((3, 1))
    } else if tail == "ccColor4B"@ {
        Some((4, 1))
    } else if tail == "CCAffineTransform"@ {
        Some((24, 4))
    } else if tail == "kmMat4"@ {
        Some((64, 4))
    } else if tail == "kmVec2"@ {
        Some((8, 4))
    } else if tail == "kmVec3"@ {
        Some((12, 4))
    } else if tail == "cc_timeval"@ {
        Some((8, 4))
    } else if tail == "ccV3F_C4B_T2F"@ || tail == "ccV2F_C4B_T2F_Triangle"@ {
        Some((24, 4))
    } else if tail == "ccV3F_C4B_T2F_Quad"@ {
        Some((96, 4))
    } else if tail == "ccV2F_C4B_T2F"@ {
        Some((20, 4))
    } else if tail == "ccV2F_C4B_T2F_Quad"@ {
        Some((80, 4))
    } else if tail == "ccColor3F"@ {
        Some((12, 4))
    } else {
        None
    }
}

fn engine_size(tail: &str) -> (r: Option<(u64, u64)>)
    ensures
        r == engine(tail@),
{
    if text::same(tail, "CCPoint") || text::same(tail, "CCSize") || text::same(tail, "ccTex2F") || text::same(
        tail,
        "ccVertex2F",
    ) || text::same(tail, "ccBlendFunc") {
        Some((8, 4))
    } else if text::same(tail, "CCRect") || text::same(tail, "ccColor4F") || text::same(tail, "ccTexParams") || text::same(
        tail,
        "ccHSVValue",
    ) {
        Some((16, 4))
    } else if text::same(tail, "ccVertex3F") {
        Some((12, 4))
    } else if text::same(tail, "ccColor3B") {
        Some((3, 1))
    } else if text::same(tail, "ccColor4B") {
        Some((4, 1))
    } else if text::same(tail, "CCAffineTransform") {
        Some((24, 4))
    } else if text::same(tail, "kmMat4") {
        Some((64, 4))
    } else if text::same(tail, "kmVec2") {
        Some((8, 4))
    } else if text::same(tail, "kmVec3") {
        Some((12, 4))
    } else if text::same(tail, "cc_timeval") {
        Some((8, 4))
    } else if text::same(tail, "ccV3F_C4B_T2F") || text::same(tail, "ccV2F_C4B_T2F_Triangle") {
        Some((24, 4))
    } else if text::same(tail, "ccV3F_C4B_T2F_Quad") {
        Some((96, 4))
    } else if text::same(tail, "ccV2F_C4B_T2F") {
        Some((20, 4))
    } else if text::same(tail, "ccV2F_C4B_T2F_Quad") {
        Some((80, 4))
    } else if text::same(tail, "ccColor3F") {
        Some((12, 4))
    } else {
        None
    }
}

/// A name ends like the name of an enum.
pub open spec fn has_enum_suffix(t: Seq<char>) -> bool {
    text::suffixed(t, "Type"@) || text::suffixed(t, "State"@) || text::suffixed(t, "Alignment"@) || text::suffixed(
        t,
        "Quality"@,
    ) || text::suffixed(t, "Mode"@) || text::suffixed(t, "Format"@) || text::suffixed(t, "Result"@) || text::suffixed(
        t,
        "Policy"@,
    ) || text::suffixed(t, "Direction"@) || text::suffixed(t, "Orientation"@) || text::suffixed(t, "Status"@)
        || text::suffixed(t, "Kind"@)
}

/// A name looks like that of an enum.
pub open spec fn enum_like(t: Seq<char>) -> bool {
    text::prefixed(t, "FMOD_"@) || ((text::prefixed(t, "k"@) || text::prefixed(t, "t"@)) && t.len() > 1 && 'A' <= t[1]
        <= 'Z') || text::prefixed(t, "ccGL"@) || text::prefixed(t, "tCC"@) || has_enum_suffix(t)
}

fn ends_like_enum(t: &str) -> (r: bool)
    ensures
        r == has_enum_suffix(t@),
{
    text::ends_with(t, "Type") || text::ends_with(t, "State") || text::ends_with(t, "Alignment") || text::ends_with(
        t,
        "Quality",
    ) || text::ends_with(t, "Mode") || text::ends_with(t, "Format") || text::ends_with(t, "Result") || text::ends_with(
        t,
        "Policy",
    ) || text::ends_with(t, "Direction") || text::ends_with(t, "Orientation") || text::ends_with(t, "Status")
        || text::ends_with(t, "Kind")
}

fn looks_like_enum(t: &str) -> (r: bool)
    ensures
        r == enum_like(t@),
{
    let c = text::chars_of(t);
    let second_upper = c.len() > 1 && 'A' <= c[1] && c[1] <= 'Z';
    text::starts_with(t, "FMOD_") || ((text::starts_with(t, "k") || text::starts_with(t, "t")) && second_upper)
        || text::starts_with(t, "ccGL") || text::starts_with(t, "tCC") || ends_like_enum(t)
}

/// `s` without any number of `pat` at its start.
pub open spec fn without_prefix(s: Seq<char>, pat: Seq<char>) -> Seq<char>
    decreases s.len(),
{
    match text::after(s, pat) {
        Some(r) => if r.len() < s.len() {
            without_prefix(r, pat)
        } else {
            s
        },
        None => s,
    }
}

fn strip_all(s: &str, pat: &str) -> (r: String)
    ensures
        r@ == without_prefix(s@, pat@),
    decreases s@.len(),
{
    match text::strip_prefix(s, pat) {
        Some(r) => if text::count(r.as_str()) < text::count(s) {
            strip_all(r.as_str(), pat)
        } else {
            s.to_owned()
        },
        None => s.to_owned(),
    }
}

/// The number of values that a seed value holds, one per letter behind its
/// name.
pub open spec fn seed_size(base: Seq<char>) -> u64 {
    let n = text::byte_count(without_prefix(base, "geode::SeedValue"@)) as u64;
    4u64.wrapping_mul(if n < 1 {
        1
    } else {
        n
    })
}

impl Facts {
    /// The size of an enum, looked up by the last part of its name first.
    pub open spec fn enum_size(self, tail: Seq<char>, base: Seq<char>) -> Option<u64> {
        match table::get(self.bro.enums, tail) {
            Some(e) => Some(e),
            None => table::get(self.bro.enums, base),
        }
    }

    /// How the size of a template or plain type is found.
    pub open spec fn named_type(self, base: Seq<char>, args: Seq<Seq<char>>) -> SizingV {
        let tail = text::tail_of(base, "::"@);
        let ns = base.take(base.len() - tail.len());
        let std_like = ns.len() == 0 || ns == "gd::"@ || ns == "std::"@;
        let std = if std_like {
            standard(tail, args)
        } else {
            None
        };
        if let Some(k) = std {
            k
        } else if text::prefixed(base, "geode::SeedValue"@) {
            SizingV::Known(Some((seed_size(base), 4)))
        } else if let Some(e) = engine(tail) {
            SizingV::Known(Some(e))
        } else if text::prefixed(tail, "SEL_"@) {
            SizingV::Known(Some((8, 8)))
        } else if let Some(e) = self.enum_size(tail, base) {
            SizingV::Known(Some((e, e)))
        } else if let Some(q) = self.qualified(base) {
            SizingV::Class(q)
        } else if table::holds(self.measured, base) {
            SizingV::Class(base)
        } else if enum_like(tail) && args.len() == 0 {
            SizingV::Known(Some((4, 4)))
        } else {
            SizingV::Known(None)
        }
    }

    /// How the size of a type is found.
    pub open spec fn sizing(self, ty: Seq<char>) -> SizingV {
        let t = bare_type(ty);
        if text::suffixed(t, "*"@) || text::suffixed(t, "&"@) {
            SizingV::Known(Some((8, 8)))
        } else if let Some(n) = primitive(t) {
            SizingV::Known(Some((n, n)))
        } else {
            let (base, args) = template_of(t);
            self.named_type(base, args)
        }
    }
}

/// The types that a type is made of are shorter than it.
pub open spec fn parts_shorter(k: SizingV, ty: Seq<char>) -> bool {
    match k {
        SizingV::Array(e, _) => e.len() < ty.len(),
        SizingV::Pair(a, b) => a.len() < ty.len() && b.len() < ty.len(),
        SizingV::Maybe(e) => e.len() < ty.len(),
        _ => true,
    }
}

pub proof fn sizing_shortens(f: Facts, ty: Seq<char>)
    ensures
        parts_shorter(f.sizing(ty), ty),
{
    let t0 = text::trimmed(ty);
    trimming_shortens(ty);
    let t1 = match text::after(t0, "const "@) {
        Some(r) => r,
        None => t0,
    };
    trimming_shortens(t1);
    let t2 = text::trimmed(t1);
    let t3 = match text::before(t2, " const"@) {
        Some(r) => r,
        None => t2,
    };
    trimming_shortens(t3);
    let t = bare_type(ty);
    assert(t.len() <= ty.len());
    text::index_from_bounds(t, '<', 0);
    if let Some(i) = text::index_from(t, '<', 0) {
        if i + 1 < t.len() {
            arguments_fit(t.subrange(i + 1, t.len() - 1));
        }
    }
}

impl LayoutCtx<'_> {
    fn knows(&self, name: &String) -> (r: bool)
        ensures
            r == self.facts().knows(name@),
    {
        self.bro.classes.contains(name) || self.measured.contains(name)
    }

    pub fn qualify(&self, name: &str) -> (r: Option<String>)
        ensures
            r.deep_view() == self.facts().qualified(name@),
    {
        let plain = name.to_owned();
        if self.bro.classes.contains(&plain) {
            return Some(plain);
        }
        let q = text::concat("cocos2d::", name);
        if self.knows(&q) {
            return Some(q);
        }
        let q = text::concat("cocos2d::extension::", name);
        if self.knows(&q) {
            return Some(q);
        }
        let q = text::concat("geode::", name);
        if self.knows(&q) {
            return Some(q);
        }
        None
    }

    fn named_sizing(&self, base: &str, args: &Vec<String>) -> (r: Sizing)
        ensures
            r.deep_view() == self.facts().named_type(base@, args.deep_view()),
    {
        let tail = text::tail(base, "::");
        let n = text::count(base);
        let k = text::count(tail.as_str());
        proof {
            text::tail_fits(base@, "::"@);
        }
        let ns = up_to_index(base, n - k);
        let t = tail.as_str();
        if text::count(ns.as_str()) == 0 || text::same(ns.as_str(), "gd::") || text::same(ns.as_str(), "std::") {
            if let Some(s) = standard_size(t, args) {
                return s;
            }
        }
        if text::starts_with(base, "geode::SeedValue") {
            let rest = strip_all(base, "geode::SeedValue");
            let n: u64 = text::byte_len(rest.as_str()) as u64;
            return Sizing::Known(Some((4u64.wrapping_mul(if n < 1 { 1 } else { n }), 4)));
        }
        if let Some(e) = engine_size(t) {
            return Sizing::Known(Some(e));
        }
        if text::starts_with(t, "SEL_") {
            return Sizing::Known(Some((8, 8)));
        }
        if let Some(e) = self.bro.enums.get(&tail) {
            return Sizing::Known(Some((*e, *e)));
        }
        let whole = base.to_owned();
        if let Some(e) = self.bro.enums.get(&whole) {
            return Sizing::Known(Some((*e, *e)));
        }
        if let Some(q) = self.qualify(base) {
            return Sizing::Class(q);
        }
        if self.measured.contains(&whole) {
            return Sizing::Class(whole);
        }
        if looks_like_enum(t) && args.len() == 0 {
            return Sizing::Known(Some((4, 4)));
        }
        Sizing::Known(None)
    }

    /// How the size of a type is found.
    pub fn sizing(&self, ty: &str) -> (r: Sizing)
        ensures
            r.deep_view() == self.facts().sizing(ty@),
    {
        let t = strip_const(ty);
        let t = t.as_str();
        if text::ends_with(t, "*") || text::ends_with(t, "&") {
            return Sizing::Known(Some((8, 8)));
        }
        if let Some(p) = prim_size(t) {
            return Sizing::Known(Some(p));
        }
        let (base, args) = split_template(t);
        self.named_sizing(base.as_str(), &args)
    }
}

// ---------------------------------------------------------------------------
// Sizes and layouts. `depth` bounds how many classes may be laid out inside one
// another; a class is entered in the memo before it is laid out, so that the
// number of declared classes is bound enough.

/// The members of a class as far as they were placed.
pub ghost struct Placing {
    pub memo: Memo,
    pub cur: u64,
    pub align: u64,
    pub members: Seq<LaidMemberV>,
    pub error: Option<Seq<char>>,
}

/// The bases of a class as far as they were placed.
pub ghost struct Stacking {
    pub memo: Memo,
    pub end: u64,
    pub align: u64,
    pub error: Option<Seq<char>>,
}

pub open spec fn larger(a: u64, b: u64) -> u64 {
    if a < b {
        b
    } else {
        a
    }
}

/// The last parts of scoped names.
pub open spec fn tails(names: Seq<Seq<char>>) -> Seq<Seq<char>> {
    Seq::new(names.len(), |i: int| text::tail_of(names[i], "::"@))
}

/// Those of the first `n` bases that are declared.
pub open spec fn retained(bases: Seq<(Seq<char>, i32)>, declared: Seq<Seq<char>>, n: int) -> Seq<(Seq<char>, i32)>
    decreases n,
{
    if n <= 0 {
        Seq::empty()
    } else {
        let r = retained(bases, declared, n - 1);
        if declared.contains(text::tail_of(bases[n - 1].0, "::"@)) {
            r.push(bases[n - 1])
        } else {
            r
        }
    }
}

/// The bases known from the binary that count: where there are more of them
/// than the bindings declare, those that the bindings declare.
pub open spec fn counted_bases(bases: Seq<(Seq<char>, i32)>, names: Seq<Seq<char>>) -> Seq<(Seq<char>, i32)> {
    if names.len() > 0 && bases.len() > names.len() {
        retained(bases, tails(names), bases.len() as int)
    } else {
        bases
    }
}

impl Facts {
    /// Bases of a class in the binary, where it has any.
    pub open spec fn binary_bases(self, name: Seq<char>) -> Option<Seq<(Seq<char>, i32)>> {
        match table::get(self.rtti_bases, name) {
            Some(b) => if b.len() > 0 {
                Some(b)
            } else {
                None
            },
            None => None,
        }
    }

    /// Size and alignment of a type, and the memo after that.
    pub open spec fn type_in(self, memo: Memo, ty: Seq<char>, depth: nat) -> (Option<(u64, u64)>, Memo)
        decreases depth, 1int, ty.len(),
    {
        proof {
            sizing_shortens(self, ty);
        }
        match self.sizing(ty) {
            SizingV::Known(r) => (r, memo),
            SizingV::Array(e, n) => {
                let (r, m) = self.type_in(memo, e, depth);
                (
                    match (r, n) {
                        (Some((s, a)), Some(k)) => Some((s.wrapping_mul(k), a)),
                        _ => None,
                    },
                    m,
                )
            },
            SizingV::Pair(x, y) => {
                let (r1, m1) = self.type_in(memo, x, depth);
                match r1 {
                    None => (None, m1),
                    Some((s1, a1)) => {
                        let (r2, m2) = self.type_in(m1, y, depth);
                        match r2 {
                            None => (None, m2),
                            Some((s2, a2)) => {
                                let a = larger(a1, a2);
                                (Some((aligned(aligned(s1, a2).wrapping_add(s2), a), a)), m2)
                            },
                        }
                    },
                }
            },
            SizingV::Maybe(e) => {
                let (r, m) = self.type_in(memo, e, depth);
                (
                    match r {
                        Some((s, a)) => Some((aligned(s.wrapping_add(1), a), a)),
                        None => None,
                    },
                    m,
                )
            },
            SizingV::Class(q) => self.class_in(memo, q, depth),
        }
    }

    /// Size and alignment of a class, and the memo after that.
    pub open spec fn class_in(self, memo: Memo, name: Seq<char>, depth: nat) -> (Option<(u64, u64)>, Memo)
        decreases depth, 0int, 0nat,
    {
        match table::get(memo, name) {
            Some(c) => (c, memo),
            None => {
                let open = table::put(memo, name, None);
                let (r, m) = match table::get(self.measured, name) {
                    Some(s) => (Some((s, 8u64)), open),
                    None => if self.declares(name) && depth > 0 {
                        let (l, m) = self.layout_in(open, name, (depth - 1) as nat);
                        (
                            if l.error is Some {
                                None
                            } else {
                                Some((l.end, l.align))
                            },
                            m,
                        )
                    } else {
                        (None, open)
                    },
                };
                (r, table::put(m, name, r))
            },
        }
    }

    /// Where the first `n` bases known from the binary end.
    pub open spec fn binary_end(self, memo: Memo, bases: Seq<(Seq<char>, i32)>, n: nat, depth: nat) -> (u64, Memo)
        decreases depth, 2int, n,
    {
        if n == 0 {
            (0, memo)
        } else {
            let (end, m) = self.binary_end(memo, bases, (n - 1) as nat, depth);
            let (b, mdisp) = bases[n - 1];
            let (size, m2) = match table::get(self.measured, b) {
                Some(s) => (Some(s), m),
                None => match self.qualified(b) {
                    None => (None, m),
                    Some(q) => {
                        let (r, m2) = self.class_in(m, q, depth);
                        (
                            match r {
                                Some(x) => Some(x.0),
                                None => None,
                            },
                            m2,
                        )
                    },
                },
            };
            let s = match size {
                Some(s) => s,
                None => 8,
            };
            (larger(end, (mdisp as u64).wrapping_add(s)), m2)
        }
    }

    /// The first `n` declared bases one behind the other.
    pub open spec fn stacked(self, memo: Memo, bases: Seq<Seq<char>>, n: nat, depth: nat) -> Stacking
        decreases depth, 2int, n,
    {
        if n == 0 {
            Stacking { memo, end: 0, align: 1, error: None }
        } else {
            let p = self.stacked(memo, bases, (n - 1) as nat, depth);
            let b = bases[n - 1];
            let q = match self.qualified(b) {
                Some(q) => q,
                None => b,
            };
            let (r, m) = self.class_in(p.memo, q, depth);
            match r {
                Some((s, a)) => Stacking {
                    memo: m,
                    end: aligned(p.end, a).wrapping_add(s),
                    align: larger(p.align, a),
                    error: p.error,
                },
                None => Stacking { memo: m, error: Some("unknown size of base "@ + b), ..p },
            }
        }
    }

    /// The first `n` members behind what `from` holds; nothing is placed
    /// behind an error.
    pub open spec fn placed(self, from: Placing, members: Seq<BroMemberV>, n: nat, depth: nat) -> Placing
        decreases depth, 2int, n,
    {
        if n == 0 {
            from
        } else {
            let p = self.placed(from, members, (n - 1) as nat, depth);
            if p.error is Some {
                p
            } else {
                match members[n - 1] {
                    BroMemberV::Pad(k) => Placing { cur: p.cur.wrapping_add(k), ..p },
                    BroMemberV::Field { ty, name, count } => {
                        let (r, m) = self.type_in(p.memo, ty, depth);
                        match r {
                            Some((s, a)) => {
                                let at = aligned(p.cur, a);
                                let size = s.wrapping_mul(count);
                                Placing {
                                    memo: m,
                                    cur: at.wrapping_add(size),
                                    align: larger(p.align, a),
                                    members: p.members.push(LaidMemberV { name, ty, offset: at, size }),
                                    error: None,
                                }
                            },
                            None => Placing {
                                memo: m,
                                error: Some("unknown type `"@ + ty + "` of "@ + name),
                                ..p
                            },
                        }
                    },
                }
            }
        }
    }

    /// Where a class's own members begin.
    pub open spec fn begun(self, memo: Memo, name: Seq<char>, depth: nat) -> Stacking
        decreases depth, 3int, 0nat,
    {
        match table::get(self.bro.classes, name) {
            None => Stacking { memo, end: 0, align: 1, error: Some("class not in bindings"@) },
            Some(cls) => match self.binary_bases(name) {
                Some(bases) => {
                    let list = counted_bases(bases, cls.bases);
                    let (end, m) = self.binary_end(memo, list, list.len(), depth);
                    Stacking { memo: m, end, align: 8, error: None }
                },
                None => if cls.bases.len() > 0 {
                    self.stacked(memo, cls.bases, cls.bases.len(), depth)
                } else if cls.has_virtuals || (table::holds(self.measured, name) && table::holds(self.rtti_bases, name)) {
                    Stacking { memo, end: 8, align: 8, error: None }
                } else {
                    Stacking { memo, end: 0, align: 1, error: None }
                },
            },
        }
    }

    /// The layout of a class, and the memo after that.
    pub open spec fn layout_in(self, memo: Memo, name: Seq<char>, depth: nat) -> (LayoutV, Memo)
        decreases depth, 4int, 0nat,
    {
        let b = self.begun(memo, name, depth);
        let from = Placing { memo: b.memo, cur: b.end, align: b.align, members: Seq::empty(), error: b.error };
        let p = match table::get(self.bro.classes, name) {
            Some(cls) => self.placed(from, cls.members, cls.members.len(), depth),
            None => from,
        };
        (
            LayoutV { start: b.end, members: p.members, end: aligned(p.cur, p.align), align: p.align, error: p.error },
            p.memo,
        )
    }

    /// Every declared class may be laid out inside another.
    pub open spec fn depth(self) -> nat {
        self.bro.classes.len()
    }
}

impl LayoutCtx<'_> {
    /// (size, alignment) of a type as MSVC x64 lays it out.
    pub fn type_size(&mut self, ty: &str) -> (r: Option<(u64, u64)>)
        ensures
            final(self).facts() == old(self).facts(),
            (r, final(self).memo()) == old(self).facts().type_in(old(self).memo(), ty@, old(self).facts().depth()),
    {
        let d = self.bro.classes.len();
        self.type_at(ty, d)
    }

    /// (size, alignment) of a class.
    pub fn class_size(&mut self, name: &str) -> (r: Option<(u64, u64)>)
        ensures
            final(self).facts() == old(self).facts(),
            (r, final(self).memo()) == old(self).facts().class_in(old(self).memo(), name@, old(self).facts().depth()),
    {
        let d = self.bro.classes.len();
        self.class_at(name, d)
    }

    /// Places the members of a class.
    pub fn layout(&mut self, name: &str) -> (r: Layout)
        ensures
            final(self).facts() == old(self).facts(),
            (r.deep_view(), final(self).memo()) == old(self).facts().layout_in(
                old(self).memo(),
                name@,
                old(self).facts().depth(),
            ),
    {
        let d = self.bro.classes.len();
        self.layout_at(name, d)
    }

    fn type_at(&mut self, ty: &str, depth: usize) -> (r: Option<(u64, u64)>)
        ensures
            final(self).facts() == old(self).facts(),
            (r, final(self).memo()) == old(self).facts().type_in(old(self).memo(), ty@, depth as nat),
        decreases depth, 1int, ty@.len(),
    {
        proof {
            sizing_shortens(self.facts(), ty@);
        }
        match self.sizing(ty) {
            Sizing::Known(r) => r,
            Sizing::Array(e, n) => {
                let r = self.type_at(e.as_str(), depth);
                match (r, n) {
                    (Some((s, a)), Some(k)) => Some((s.wrapping_mul(k), a)),
                    _ => None,
                }
            },
            Sizing::Pair(x, y) => {
                let (s1, a1) = match self.type_at(x.as_str(), depth) {
                    Some(r) => r,
                    None => {
                        return None;
                    },
                };
                let (s2, a2) = match self.type_at(y.as_str(), depth) {
                    Some(r) => r,
                    None => {
                        return None;
                    },
                };
                let a = if a1 < a2 { a2 } else { a1 };
                let off = align_up(s1, a2);
                Some((align_up(off.wrapping_add(s2), a), a))
            },
            Sizing::Maybe(e) => {
                match self.type_at(e.as_str(), depth) {
                    Some((s, a)) => Some((align_up(s.wrapping_add(1), a), a)),
                    None => None,
                }
            },
            Sizing::Class(q) => self.class_at(q.as_str(), depth),
        }
    }

    fn class_at(&mut self, name: &str, depth: usize) -> (r: Option<(u64, u64)>)
        ensures
            final(self).facts() == old(self).facts(),
            (r, final(self).memo()) == old(self).facts().class_in(old(self).memo(), name@, depth as nat),
        decreases depth, 0int, 0nat,
    {
        let key = name.to_owned();
        if let Some(c) = self.cache.get(&key) {
            return *c;
        }
        self.cache.insert(name.to_owned(), None);
        let measured = self.measured;
        let bro = self.bro;
        let r: Option<(u64, u64)> = match measured.get(&key) {
            Some(s) => Some((*s, 8)),
            None => if bro.classes.contains(&key) && depth > 0 {
                let l = self.layout_at(name, depth - 1);
                if l.error.is_some() {
                    None
                } else {
                    Some((l.end, l.align))
                }
            } else {
                None
            },
        };
        self.cache.insert(key, r);
        r
    }

    fn binary_at(&mut self, bases: &Vec<(String, i32)>, depth: usize) -> (r: u64)
        ensures
            final(self).facts() == old(self).facts(),
            (r, final(self).memo()) == old(self).facts().binary_end(
                old(self).memo(),
                bases.deep_view(),
                bases@.len(),
                depth as nat,
            ),
        decreases depth, 2int, 0nat,
    {
        let ghost bs = bases.deep_view();
        let ghost f = self.facts();
        let ghost memo = self.memo();
        let mut end: u64 = 0;
        let mut i: usize = 0;
        while i < bases.len()
            invariant
                bs == bases.deep_view(),
                i <= bases@.len(),
                f == self.facts(),
                (end, self.memo()) == f.binary_end(memo, bs, i as nat, depth as nat),
            decreases bases@.len() - i,
        {
            let b = &bases[i].0;
            let mdisp = bases[i].1;
            assert(bases@[i as int].deep_view() == bs[i as int]);
            let measured = self.measured;
            let size: Option<u64> = match measured.get(b) {
                Some(s) => Some(*s),
                None => match self.qualify(b.as_str()) {
                    None => None,
                    Some(q) => match self.class_at(q.as_str(), depth) {
                        Some(x) => Some(x.0),
                        None => None,
                    },
                },
            };
            let s: u64 = match size {
                Some(s) => s,
                None => 8,
            };
            let e = (mdisp as u64).wrapping_add(s);
            if end < e {
                end = e;
            }
            i += 1;
        }
        end
    }

    fn stack_at(&mut self, bases: &Vec<String>, depth: usize) -> (r: (u64, u64, Option<String>))
        ensures
            final(self).facts() == old(self).facts(),
            (Stacking { memo: final(self).memo(), end: r.0, align: r.1, error: r.2.deep_view() }) == old(
                self,
            ).facts().stacked(old(self).memo(), bases.deep_view(), bases@.len(), depth as nat),
        decreases depth, 2int, 0nat,
    {
        let ghost bs = bases.deep_view();
        let ghost f = self.facts();
        let ghost memo = self.memo();
        let mut end: u64 = 0;
        let mut align: u64 = 1;
        let mut error: Option<String> = None;
        let mut i: usize = 0;
        while i < bases.len()
            invariant
                bs == bases.deep_view(),
                i <= bases@.len(),
                f == self.facts(),
                (Stacking { memo: self.memo(), end, align, error: error.deep_view() }) == f.stacked(
                    memo,
                    bs,
                    i as nat,
                    depth as nat,
                ),
            decreases bases@.len() - i,
        {
            let b = bases[i].as_str();
            assert(b@ == bs[i as int]);
            let q = match self.qualify(b) {
                Some(q) => q,
                None => b.to_owned(),
            };
            match self.class_at(q.as_str(), depth) {
                Some((s, a)) => {
                    end = align_up(end, a).wrapping_add(s);
                    if align < a {
                        align = a;
                    }
                },
                None => {
                    error = Some(text::concat("unknown size of base ", b));
                },
            }
            i += 1;
        }
        (end, align, error)
    }

    fn begin_at(&mut self, name: &str, depth: usize) -> (r: (u64, u64, Option<String>))
        ensures
            final(self).facts() == old(self).facts(),
            (Stacking { memo: final(self).memo(), end: r.0, align: r.1, error: r.2.deep_view() }) == old(
                self,
            ).facts().begun(old(self).memo(), name@, depth as nat),
        decreases depth, 3int, 0nat,
    {
        let key = name.to_owned();
        let bro = self.bro;
        let rtti_bases = self.rtti_bases;
        let cls = match bro.classes.get(&key) {
            Some(c) => c,
            None => {
                return (0, 1, Some("class not in bindings".to_owned()));
            },
        };
        let found = rtti_bases.get(&key);
        if let Some(bases) = found {
            if bases.len() > 0 {
                let end = if cls.bases.len() > 0 && bases.len() > cls.bases.len() {
                    let list = retain_declared(bases, &cls.bases);
                    self.binary_at(&list, depth)
                } else {
                    self.binary_at(bases, depth)
                };
                return (end, 8, None);
            }
        }
        if cls.bases.len() > 0 {
            return self.stack_at(&cls.bases, depth);
        }
        if cls.has_virtuals || (self.measured.contains(&key) && found.is_some()) {
            return (8, 8, None);
        }
        (0, 1, None)
    }

    fn layout_at(&mut self, name: &str, depth: usize) -> (r: Layout)
        ensures
            final(self).facts() == old(self).facts(),
            (r.deep_view(), final(self).memo()) == old(self).facts().layout_in(old(self).memo(), name@, depth as nat),
        decreases depth, 4int, 0nat,
    {
        let ghost f = self.facts();
        let (start, first_align, first_error) = self.begin_at(name, depth);
        let mut align = first_align;
        let mut error = first_error;
        let key = name.to_owned();
        let bro = self.bro;
        let mut cur = start;
        let mut members: Vec<LaidMember> = Vec::new();
        assert(members.deep_view() =~= Seq::empty());
        let ghost from = Placing { memo: self.memo(), cur, align, members: Seq::empty(), error: error.deep_view() };
        if let Some(cls) = bro.classes.get(&key) {
            let ghost ms = cls.members.deep_view();
            let mut i: usize = 0;
            while i < cls.members.len()
                invariant
                    ms == cls.members.deep_view(),
                    i <= cls.members@.len(),
                    f == self.facts(),
                    (Placing {
                        memo: self.memo(),
                        cur,
                        align,
                        members: members.deep_view(),
                        error: error.deep_view(),
                    }) == f.placed(from, ms, i as nat, depth as nat),
                decreases cls.members@.len() - i,
            {
                assert(cls.members@[i as int].deep_view() == ms[i as int]);
                if error.is_none() {
                    match &cls.members[i] {
                        BroMember::Pad(n) => {
                            cur = cur.wrapping_add(*n);
                        },
                        BroMember::Field { ty, name, count } => {
                            match self.type_at(ty.as_str(), depth) {
                                Some((s, a)) => {
                                    let at = align_up(cur, a);
                                    let size = s.wrapping_mul(*count);
                                    if align < a {
                                        align = a;
                                    }
                                    let ghost before = members.deep_view();
                                    members.push(LaidMember { name: name.clone(), ty: ty.clone(), offset: at, size });
                                    assert(members.deep_view() =~= before.push(
                                        LaidMemberV { name: name@, ty: ty@, offset: at, size },
                                    ));
                                    cur = at.wrapping_add(size);
                                },
                                None => {
                                    let mut e = text::concat("unknown type `", ty.as_str());
                                    e.append("` of ");
                                    e.append(name.as_str());
                                    error = Some(e);
                                },
                            }
                        },
                    }
                }
                i += 1;
            }
        }
        Layout { start, members, end: align_up(cur, align), align, error }
    }
}

// ---------------------------------------------------------------------------
// Laws.

/// The least multiple of an alignment that is not below a value, where that
/// multiple is representable.
pub proof fn aligned_is_least(v: u64, a: u64)
    requires
        1 <= a,
        v + a - 1 <= u64::MAX,
    ensures
        aligned(v, a) % a == 0,
        v <= aligned(v, a) < v + a,
        forall|m: int| #![trigger m % a as int] m >= v && m % a as int == 0 ==> aligned(v, a) <= m,
{
    if a == 1 {
        assert(aligned(v, a) == v);
        assert(v % 1 == 0);
    } else {
        let q = v / a;
        let x = v as int;
        let y = a as int;
        vstd::arithmetic::div_mod::lemma_fundamental_div_mod(x, y);
        vstd::arithmetic::mul::lemma_mul_is_commutative(y, x / y);
        vstd::arithmetic::mul::lemma_mul_is_distributive_add_other_way(y, x / y, 1);
        if v % a != 0 {
            assert((q + 1) * a == v - v % a + a);
            assert((q + 1) * a <= u64::MAX);
            assert(((q + 1) as u64).wrapping_mul(a) == (q + 1) * a);
            vstd::arithmetic::div_mod::lemma_mod_multiples_basic(q + 1, y);
        }
        let r = aligned(v, a) as int;
        assert forall|m: int| #![trigger m % a as int] m >= v && m % a as int == 0 implies r <= m by {
            vstd::arithmetic::div_mod::lemma_fundamental_div_mod(m, y);
            vstd::arithmetic::mul::lemma_mul_is_commutative(y, m / y);
            if v % a != 0 && m < r {
                let k = m / y;
                assert(k * y == m);
                assert(q * y < x);
                assert(k > q) by (nonlinear_arith)
                    requires
                        k * y == m,
                        m >= x,
                        q * y < x,
                        y > 0,
                ;
                assert(k * y >= (q + 1) * y) by (nonlinear_arith)
                    requires
                        k >= q + 1,
                        y > 0,
                ;
            }
        }
    }
}

/// A text without white space at its ends.
pub open spec fn is_trimmed(t: Seq<char>) -> bool {
    t.len() > 0 && !text::space(t[0]) && !text::space(t.last())
}

proof fn trimmed_stays(t: Seq<char>)
    requires
        is_trimmed(t),
    ensures
        text::trimmed(t) == t,
{
    assert(text::first_word(t, 0) == 0);
    assert(text::last_word(t, t.len() as int) == t.len());
    assert(t.subrange(0, t.len() as int) =~= t);
}

/// `const` before or behind a type leaves it as it is, and so its size; a
/// pointer or a reference to it is eight bytes. Of the empty text this does not
/// hold: `const` alone is a name.
pub proof fn const_changes_nothing(f: Facts, memo: Memo, t: Seq<char>, depth: nat)
    requires
        is_trimmed(t),
        !text::prefixed(t, "const "@),
        !text::suffixed(t, " const"@),
    ensures
        f.type_in(memo, "const "@ + t, depth) == f.type_in(memo, t, depth),
        f.type_in(memo, t + " const"@, depth) == f.type_in(memo, t, depth),
        f.type_in(memo, t + "*"@, depth) == (Some((8u64, 8u64)), memo),
        f.type_in(memo, t + "&"@, depth) == (Some((8u64, 8u64)), memo),
{
    reveal_strlit("const ");
    reveal_strlit(" const");
    reveal_strlit("*");
    reveal_strlit("&");
    let c = "const "@;
    let d = " const"@;
    trimmed_stays(t);
    assert(bare_type(t) == t);
    let x = c + t;
    assert(is_trimmed(x));
    trimmed_stays(x);
    assert(x.subrange(0, 6) =~= c);
    assert(x.skip(6) =~= t);
    assert(text::after(x, c) == Some(t));
    assert(bare_type(x) == t);
    let y = t + d;
    assert(is_trimmed(y));
    trimmed_stays(y);
    assert(y.subrange(t.len() as int, y.len() as int) =~= d);
    assert(text::before(y, d) == Some(t)) by {
        assert(y.take(t.len() as int) =~= t);
    }
    if text::prefixed(y, c) {
        assert(y.subrange(0, 6) == c);
        if t.len() >= 6 {
            assert(t.subrange(0, 6) =~= y.subrange(0, 6));
        } else {
            let k = t.len() as int;
            assert(y[k] == ' ');
            assert(c[k] == y.subrange(0, 6)[k]);
            assert(k == 5);
            assert(y.skip(6) =~= seq!['c', 'o', 'n', 's', 't']);
            assert(t =~= seq!['c', 'o', 'n', 's', 't']) by {
                assert forall|j: int| 0 <= j < 5 implies t[j] == c[j] by {
                    assert(y.subrange(0, 6)[j] == y[j]);
                }
            }
        }
    }
    assert(bare_type(y) == t);
    let p = t + "*"@;
    let r = t + "&"@;
    marked_type(t, "*"@);
    marked_type(t, "&"@);
    assert(p.subrange(p.len() - 1, p.len() as int) =~= "*"@);
    assert(r.subrange(r.len() - 1, r.len() as int) =~= "&"@);
}

/// A type with a mark behind it stays as it is.
proof fn marked_type(t: Seq<char>, mark: Seq<char>)
    requires
        t.len() > 0,
        !text::space(t[0]),
        !text::prefixed(t, "const "@),
        mark.len() == 1,
        mark[0] == '*' || mark[0] == '&' || mark[0] == '>',
    ensures
        bare_type(t + mark) == t + mark,
{
    reveal_strlit("const ");
    reveal_strlit(" const");
    let p = t + mark;
    assert(is_trimmed(p));
    trimmed_stays(p);
    if text::prefixed(p, "const "@) {
        let head = p.subrange(0, 6);
        assert(head == "const "@);
        if t.len() >= 6 {
            assert(t.subrange(0, 6) =~= head);
        } else {
            assert(head[t.len() as int] == mark[0]);
        }
    }
    if text::suffixed(p, " const"@) {
        assert(p.subrange(p.len() - 6, p.len() as int)[5] == mark[0]);
    }
}

/// One template argument: its brackets are balanced and no comma stands
/// outside them.
pub open spec fn is_argument(t: Seq<char>) -> bool {
    let s = split_args(t, t.len() as int);
    is_trimmed(t) && s.out.len() == 0 && s.depth == 0
}

proof fn split_args_front(t: Seq<char>, u: Seq<char>, n: int)
    requires
        0 <= n <= t.len(),
        t.len() <= u.len(),
        forall|i: int| 0 <= i < n ==> t[i] == u[i],
    ensures
        split_args(t, n) == split_args(u, n),
    decreases n,
{
    if n > 0 {
        split_args_front(t, u, n - 1);
    }
}

/// Splitting only ever appends.
proof fn split_args_grow(t: Seq<char>, i: int, n: int)
    requires
        0 <= i <= n,
    ensures
        split_args(t, i).out.len() <= split_args(t, n).out.len(),
    decreases n,
{
    if i < n {
        split_args_grow(t, i, n - 1);
    }
}

proof fn argument_is_whole(t: Seq<char>, n: int)
    requires
        0 <= n <= t.len(),
        split_args(t, t.len() as int).out.len() == 0,
    ensures
        split_args(t, n).cur == t.take(n),
        split_args(t, n).out == Seq::<Seq<char>>::empty(),
    decreases n,
{
    split_args_grow(t, n, t.len() as int);
    if n > 0 {
        argument_is_whole(t, n - 1);
        split_args_grow(t, n - 1, t.len() as int);
        assert(t.take(n - 1).push(t[n - 1]) =~= t.take(n));
    } else {
        assert(t.take(0) =~= Seq::empty());
    }
}

/// Characters without a bracket or a comma are added as they are.
proof fn split_args_plain(u: Seq<char>, i: int, n: int)
    requires
        0 <= i <= n <= u.len(),
        forall|k: int| i <= k < n ==> #[trigger] u[k] != ',' && u[k] != '<' && u[k] != '>',
    ensures
        split_args(u, n).out == split_args(u, i).out,
        split_args(u, n).cur == split_args(u, i).cur + u.subrange(i, n),
    decreases n,
{
    if i < n {
        split_args_plain(u, i, n - 1);
        assert(u[n - 1] != ',');
        assert(split_args(u, i).cur + u.subrange(i, n - 1).push(u[n - 1]) =~= (split_args(u, i).cur + u.subrange(
            i,
            n - 1,
        )).push(u[n - 1]));
        assert(u.subrange(i, n - 1).push(u[n - 1]) =~= u.subrange(i, n));
    } else {
        assert(split_args(u, i).cur + u.subrange(i, n) =~= split_args(u, i).cur);
    }
}

proof fn one_argument(t: Seq<char>)
    requires
        is_argument(t),
    ensures
        arguments(t) == seq![t],
{
    argument_is_whole(t, t.len() as int);
    assert(t.take(t.len() as int) =~= t);
    trimmed_stays(t);
    assert(Seq::<Seq<char>>::empty().push(t) =~= seq![t]);
}

/// The digits of a number as an argument.
proof fn number_text(n: u64)
    ensures
        ({
            let d = num::dec(n as int);
            &&& is_trimmed(d)
            &&& forall|k: int| 0 <= k < d.len() ==> #[trigger] d[k] != ',' && d[k] != '<' && d[k] != '>'
            &&& count_of(d) == Some(n)
        }),
{
    let d = num::dec(n as int);
    num::digits_value(n as int, 10);
    assert forall|k: int| 0 <= k < d.len() implies !text::space(#[trigger] d[k]) && d[k] != ',' && d[k] != '<' && d[k] != '>'
        && d[k] != '+' by {
        assert(num::digit(d[k], 10) is Some);
    }
    assert(d[0] != '+');
    assert(!text::space(d[d.len() - 1]));
}

proof fn two_arguments(t: Seq<char>, n: u64)
    requires
        is_argument(t),
    ensures
        arguments(t + ", "@ + num::dec(n as int)) == seq![t, num::dec(n as int)],
{
    reveal_strlit(", ");
    let d = num::dec(n as int);
    let u = t + ", "@ + d;
    let k = t.len() as int;
    number_text(n);
    split_args_front(t, u, k);
    argument_is_whole(t, k);
    assert(t.take(k) =~= t);
    trimmed_stays(t);
    assert(u[k] == ',' && u[k + 1] == ' ');
    let s = split_args(u, k + 1);
    assert(s.out =~= seq![t]);
    assert(s.cur =~= Seq::empty());
    assert forall|j: int| k + 1 <= j < u.len() implies #[trigger] u[j] != ',' && u[j] != '<' && u[j] != '>' by {
        if j > k + 1 {
            assert(u[j] == d[j - k - 2]);
        }
    }
    split_args_plain(u, k + 1, u.len() as int);
    let last = u.subrange(k + 1, u.len() as int);
    assert(Seq::<char>::empty() + last =~= last);
    assert(last =~= " "@ + d) by {
        reveal_strlit(" ");
    }
    blank_before(d);
    assert(seq![t].push(d) =~= seq![t, d]);
}

proof fn blank_before(d: Seq<char>)
    requires
        is_trimmed(d),
    ensures
        text::trimmed(" "@ + d) == d,
{
    reveal_strlit(" ");
    let s = " "@ + d;
    assert(s[0] == ' ');
    assert(s[1] == d[0]);
    assert(text::first_word(s, 0) == text::first_word(s, 1));
    assert(text::first_word(s, 1) == 1);
    assert(s.last() == d.last());
    assert(text::last_word(s, s.len() as int) == s.len());
    assert(s.subrange(1, s.len() as int) =~= d);
}

/// A type that starts `std::a` or `std::o` is no primitive one.
proof fn no_primitive(t: Seq<char>)
    requires
        t.len() > 6,
        t[0] == 's' && t[1] == 't' && t[2] == 'd' && t[3] == ':' && t[5] != 'u' && t[5] != 'i' && t[5] != 's',
    ensures
        !bindings::is_prim1(t) && !bindings::is_prim2(t) && !bindings::is_prim4(t) && !bindings::is_prim8(t),
{
    reveal_strlit("bool");
    reveal_strlit("char");
    reveal_strlit("signed char");
    reveal_strlit("unsigned char");
    reveal_strlit("uint8_t");
    reveal_strlit("int8_t");
    reveal_strlit("std::uint8_t");
    reveal_strlit("std::int8_t");
    reveal_strlit("byte");
    reveal_strlit("BYTE");
    reveal_strlit("GLubyte");
    reveal_strlit("GLboolean");
    reveal_strlit("short");
    reveal_strlit("unsigned short");
    reveal_strlit("uint16_t");
    reveal_strlit("int16_t");
    reveal_strlit("std::uint16_t");
    reveal_strlit("std::int16_t");
    reveal_strlit("wchar_t");
    reveal_strlit("char16_t");
    reveal_strlit("GLshort");
    reveal_strlit("GLushort");
    reveal_strlit("int");
    reveal_strlit("unsigned");
    reveal_strlit("unsigned int");
    reveal_strlit("uint32_t");
    reveal_strlit("int32_t");
    reveal_strlit("std::uint32_t");
    reveal_strlit("std::int32_t");
    reveal_strlit("float");
    reveal_strlit("long");
    reveal_strlit("unsigned long");
    reveal_strlit("GLenum");
    reveal_strlit("GLint");
    reveal_strlit("GLuint");
    reveal_strlit("GLfloat");
    reveal_strlit("GLsizei");
    reveal_strlit("char32_t");
    reveal_strlit("DWORD");
    reveal_strlit("double");
    reveal_strlit("long long");
    reveal_strlit("unsigned long long");
    reveal_strlit("uint64_t");
    reveal_strlit("int64_t");
    reveal_strlit("std::uint64_t");
    reveal_strlit("std::int64_t");
    reveal_strlit("size_t");
    reveal_strlit("std::size_t");
    reveal_strlit("intptr_t");
    reveal_strlit("uintptr_t");
    reveal_strlit("time_t");
    reveal_strlit("ptrdiff_t");
    reveal_strlit("long double");
    reveal_strlit("cocos2d::ccTime");
}

/// Base and arguments of `head<args>`, where the base holds no bracket.
proof fn template_parts(base: Seq<char>, args: Seq<char>)
    requires
        is_trimmed(base),
        !text::prefixed(base + "<"@ + args, "const "@),
        forall|i: int| 0 <= i < base.len() ==> #[trigger] base[i] != '<',
    ensures
        ({
            let t = base + "<"@ + args + ">"@;
            &&& bare_type(t) == t
            &&& text::trimmed(t) == t
            &&& template_of(t) == (base, arguments(args))
            &&& !text::suffixed(t, "*"@)
            &&& !text::suffixed(t, "&"@)
        }),
{
    reveal_strlit("<");
    reveal_strlit(">");
    reveal_strlit("*");
    reveal_strlit("&");
    let head = base + "<"@ + args;
    let t = head + ">"@;
    let k = base.len() as int;
    assert(t[k] == '<');
    assert forall|i: int| 0 <= i < k implies t[i] != '<' by {
        assert(t[i] == base[i]);
    }
    text::index_from_is(t, '<', 0, k);
    assert(t.last() == '>');
    assert(t.subrange(t.len() - 1, t.len() as int) =~= ">"@);
    assert(t.take(k) =~= base);
    assert(t.subrange(k + 1, t.len() - 1) =~= args);
    trimmed_stays(base);
    assert(is_trimmed(t)) by {
        assert(t[0] == base[0]);
    }
    trimmed_stays(t);
    marked_type(head, ">"@);
    if text::suffixed(t, "*"@) {
        assert(t.subrange(t.len() - 1, t.len() as int)[0] == '*');
    }
    if text::suffixed(t, "&"@) {
        assert(t.subrange(t.len() - 1, t.len() as int)[0] == '&');
    }
}

proof fn array_base()
    ensures
        is_trimmed("std::array"@),
        "std::array"@.len() == 10,
        text::tail_of("std::array"@, "::"@) == "array"@,
        "std::array"@.take(5) == "std::"@,
        "array"@.len() == 5,
        forall|i: int| 0 <= i < 10 ==> #[trigger] "std::array"@[i] != '<',
        "std::array"@[0] == 's' && "std::array"@[1] == 't' && "std::array"@[2] == 'd' && "std::array"@[3] == ':'
            && "std::array"@[5] == 'a',
{
    reveal_strlit("std::array");
    reveal_strlit("::");
    reveal_strlit("array");
    reveal_strlit("std::");
    let s = "std::array"@;
    assert(s.subrange(3, 5) =~= "::"@);
    assert forall|k: int| 3 < k <= s.len() implies !#[trigger] text::at(s, "::"@, k) by {
        if text::at(s, "::"@, k) {
            let two = s.subrange(k, k + 2);
            assert(two[0] == ':' && two[1] == ':');
            assert(s[k] == ':' && s[k + 1] == ':');
        }
    }
    text::last_sub_is(s, "::"@, 3, s.len() as int);
    assert(s.skip(5) =~= "array"@);
    assert(s.take(5) =~= "std::"@);
}

proof fn optional_base()
    ensures
        is_trimmed("std::optional"@),
        "std::optional"@.len() == 13,
        text::tail_of("std::optional"@, "::"@) == "optional"@,
        "std::optional"@.take(5) == "std::"@,
        "optional"@.len() == 8,
        forall|i: int| 0 <= i < 13 ==> #[trigger] "std::optional"@[i] != '<',
        "std::optional"@[0] == 's' && "std::optional"@[1] == 't' && "std::optional"@[2] == 'd' && "std::optional"@[3] == ':'
            && "std::optional"@[5] == 'o',
{
    reveal_strlit("std::optional");
    reveal_strlit("::");
    reveal_strlit("optional");
    reveal_strlit("std::");
    let s = "std::optional"@;
    assert(s.subrange(3, 5) =~= "::"@);
    assert forall|k: int| 3 < k <= s.len() implies !#[trigger] text::at(s, "::"@, k) by {
        if text::at(s, "::"@, k) {
            let two = s.subrange(k, k + 2);
            assert(two[0] == ':' && two[1] == ':');
            assert(s[k] == ':' && s[k + 1] == ':');
        }
    }
    text::last_sub_is(s, "::"@, 3, s.len() as int);
    assert(s.skip(5) =~= "optional"@);
    assert(s.take(5) =~= "std::"@);
}

/// The names that come before arrays and optional values among the types of
/// the standard library are others.
proof fn standard_names(args: Seq<Seq<char>>)
    ensures
        args.len() == 2 ==> standard("array"@, args) == Some(SizingV::Array(args[0], count_of(args[1]))),
        args.len() == 1 ==> standard("optional"@, args) == Some(SizingV::Maybe(args[0])),
{
    reveal_strlit("array");
    reveal_strlit("optional");
    reveal_strlit("string");
    reveal_strlit("vector");
    reveal_strlit("map");
    reveal_strlit("set");
    reveal_strlit("multimap");
    reveal_strlit("multiset");
    reveal_strlit("list");
    reveal_strlit("unordered_map");
    reveal_strlit("unordered_set");
    reveal_strlit("unordered_multimap");
    reveal_strlit("deque");
    reveal_strlit("function");
    reveal_strlit("shared_ptr");
    reveal_strlit("weak_ptr");
    reveal_strlit("unique_ptr");
    reveal_strlit("pair");
    let a = "array"@;
    let o = "optional"@;
    assert(a[0] == 'a');
    assert(o[0] == 'o');
    assert("deque"@[0] == 'd');
    assert("function"@[0] == 'f');
    assert("multimap"@[0] == 'm');
    assert("multiset"@[0] == 'm');
    assert("weak_ptr"@[0] == 'w');
}

/// The text of an array type.
pub open spec fn array_text(t: Seq<char>, n: u64) -> Seq<char> {
    "std::array"@ + "<"@ + (t + ", "@ + num::dec(n as int)) + ">"@
}

/// The text of an optional type.
pub open spec fn optional_text(t: Seq<char>) -> Seq<char> {
    "std::optional"@ + "<"@ + t + ">"@
}

proof fn no_const_ahead(base: Seq<char>, rest: Seq<char>)
    requires
        base.len() > 0,
        base[0] == 's',
    ensures
        !text::prefixed(base + rest, "const "@),
{
    reveal_strlit("const ");
    let s = base + rest;
    if text::prefixed(s, "const "@) {
        assert(s.subrange(0, 6)[0] == s[0]);
        assert(s[0] == 's');
    }
}

proof fn array_sizing(f: Facts, t: Seq<char>, n: u64)
    requires
        is_argument(t),
    ensures
        f.sizing(array_text(t, n)) == SizingV::Array(t, Some(n)),
{
    let base = "std::array"@;
    let args = t + ", "@ + num::dec(n as int);
    let ty = array_text(t, n);
    array_base();
    assert(base + "<"@ + args =~= base + ("<"@ + args));
    no_const_ahead(base, "<"@ + args);
    template_parts(base, args);
    two_arguments(t, n);
    number_text(n);
    standard_names(seq![t, num::dec(n as int)]);
    assert(ty[0] == base[0] && ty[1] == base[1] && ty[2] == base[2] && ty[3] == base[3] && ty[5] == base[5]);
    no_primitive(ty);
}

proof fn optional_sizing(f: Facts, t: Seq<char>)
    requires
        is_argument(t),
    ensures
        f.sizing(optional_text(t)) == SizingV::Maybe(t),
{
    let base = "std::optional"@;
    let ty = optional_text(t);
    optional_base();
    assert(base + "<"@ + t =~= base + ("<"@ + t));
    no_const_ahead(base, "<"@ + t);
    template_parts(base, t);
    one_argument(t);
    standard_names(seq![t]);
    assert(ty[0] == base[0] && ty[1] == base[1] && ty[2] == base[2] && ty[3] == base[3] && ty[5] == base[5]);
    no_primitive(ty);
}

/// An array of `n` values is `n` times as large as one, and aligned as one.
pub proof fn arrays_multiply(f: Facts, memo: Memo, t: Seq<char>, n: u64, depth: nat)
    requires
        is_argument(t),
    ensures
        f.type_in(memo, t, depth).0 matches Some((s, a)) ==> s * n <= u64::MAX ==> f.type_in(memo, array_text(t, n), depth)
            == (Some(((s * n) as u64, a)), f.type_in(memo, t, depth).1),
        f.type_in(memo, t, depth).0 is None ==> f.type_in(memo, array_text(t, n), depth).0 is None,
{
    array_sizing(f, t, n);
    if let Some((s, a)) = f.type_in(memo, t, depth).0 {
        assert(0 <= s * n) by (nonlinear_arith);
    }
}

/// An optional value takes the least multiple of its alignment that is larger
/// than the value.
pub proof fn optional_adds_a_flag(f: Facts, memo: Memo, t: Seq<char>, depth: nat)
    requires
        is_argument(t),
    ensures
        f.type_in(memo, t, depth).0 matches Some((s, a)) ==> 1 <= a && s + a <= u64::MAX ==> (f.type_in(
            memo,
            optional_text(t),
            depth,
        ).0 matches Some((o, b)) && b == a && o % a == 0 && s < o <= s + a && forall|m: int|
            #![trigger m % a as int] m > s && m % a as int == 0 ==> o <= m),
        f.type_in(memo, t, depth).0 is None ==> f.type_in(memo, optional_text(t), depth).0 is None,
        f.type_in(memo, optional_text(t), depth).1 == f.type_in(memo, t, depth).1,
{
    optional_sizing(f, t);
    if let Some((s, a)) = f.type_in(memo, t, depth).0 {
        if 1 <= a && s + a <= u64::MAX {
            let v = (s + 1) as u64;
            aligned_is_least(v, a);
            assert forall|m: int| #![trigger m % a as int] m > s && m % a as int == 0 implies aligned(v, a) <= m by {
                assert(m >= v);
            }
        }
    }
}

/// What one memo answers, the other answers too.
pub open spec fn keeps(m1: Memo, m2: Memo) -> bool {
    forall|k: Seq<char>| #[trigger] table::holds(m1, k) ==> table::get(m2, k) == table::get(m1, k)
}

impl Facts {
    /// How many of the first `n` declared classes a memo has no answer for.
    pub open spec fn unanswered(self, memo: Memo, n: nat) -> nat
        decreases n,
    {
        if n == 0 {
            0
        } else {
            self.unanswered(memo, (n - 1) as nat) + if table::holds(memo, self.bro.classes[n - 1].0) {
                0nat
            } else {
                1nat
            }
        }
    }

    /// How many declared classes a memo has no answer for.
    pub open spec fn open_classes(self, memo: Memo) -> nat {
        self.unanswered(memo, self.bro.classes.len())
    }

    proof fn unanswered_shrinks(self, m1: Memo, m2: Memo, n: nat)
        requires
            keeps(m1, m2),
        ensures
            self.unanswered(m2, n) <= self.unanswered(m1, n),
        decreases n,
    {
        if n > 0 {
            self.unanswered_shrinks(m1, m2, (n - 1) as nat);
            let k = self.bro.classes[n - 1].0;
            if table::holds(m1, k) {
                assert(table::get(m2, k) == table::get(m1, k));
            }
        }
    }

    proof fn unanswered_drops(self, m1: Memo, m2: Memo, i: int, n: nat)
        requires
            keeps(m1, m2),
            0 <= i < n <= self.bro.classes.len(),
            !table::holds(m1, self.bro.classes[i].0),
            table::holds(m2, self.bro.classes[i].0),
        ensures
            self.unanswered(m2, n) < self.unanswered(m1, n),
        decreases n,
    {
        if i == n - 1 {
            self.unanswered_shrinks(m1, m2, (n - 1) as nat);
        } else {
            self.unanswered_drops(m1, m2, i, (n - 1) as nat);
            let k = self.bro.classes[n - 1].0;
            if table::holds(m1, k) {
                assert(table::get(m2, k) == table::get(m1, k));
            }
        }
    }

    proof fn unanswered_at_most(self, memo: Memo, n: nat)
        ensures
            self.unanswered(memo, n) <= n,
        decreases n,
    {
        if n > 0 {
            self.unanswered_at_most(memo, (n - 1) as nat);
        }
    }

    /// An answer for a new name keeps the others.
    proof fn answering_keeps(self, m0: Memo, m: Memo, name: Seq<char>, r: Option<(u64, u64)>)
        requires
            table::ordered(m),
            keeps(m0, m),
            !table::holds(m0, name),
        ensures
            table::ordered(table::put(m, name, r)),
            keeps(m0, table::put(m, name, r)),
            table::get(table::put(m, name, r), name) == Some(r),
    {
        let t = table::put(m, name, r);
        table::get_after_put(m, name, r, name);
        assert forall|k: Seq<char>| #[trigger] table::holds(m0, k) implies table::get(t, k) == table::get(m0, k) by {
            table::get_after_put(m, name, r, k);
        }
    }

    proof fn keeps_along(self, m0: Memo, m1: Memo, m2: Memo)
        requires
            keeps(m0, m1),
            keeps(m1, m2),
        ensures
            keeps(m0, m2),
            self.open_classes(m2) <= self.open_classes(m1) <= self.open_classes(m0),
    {
        assert forall|k: Seq<char>| #[trigger] table::holds(m0, k) implies table::get(m2, k) == table::get(m0, k) by {
            assert(table::get(m1, k) == table::get(m0, k));
            assert(table::holds(m1, k));
        }
        self.unanswered_shrinks(m0, m1, self.bro.classes.len());
        self.unanswered_shrinks(m1, m2, self.bro.classes.len());
    }

    /// The size of a type does not depend on the bound once that is as large
    /// as the number of classes without an answer, and answers never change.
    pub proof fn type_settles(self, memo: Memo, ty: Seq<char>, d1: nat, d2: nat)
        requires
            table::ordered(memo),
            self.open_classes(memo) <= d1,
            self.open_classes(memo) <= d2,
        ensures
            self.type_in(memo, ty, d1) == self.type_in(memo, ty, d2),
            table::ordered(self.type_in(memo, ty, d1).1),
            keeps(memo, self.type_in(memo, ty, d1).1),
        decreases d1, 1int, ty.len(),
    {
        sizing_shortens(self, ty);
        match self.sizing(ty) {
            SizingV::Known(_) => {},
            SizingV::Array(e, _) => {
                self.type_settles(memo, e, d1, d2);
            },
            SizingV::Pair(x, y) => {
                self.type_settles(memo, x, d1, d2);
                let m1 = self.type_in(memo, x, d1).1;
                self.keeps_along(memo, m1, m1);
                self.type_settles(m1, y, d1, d2);
                self.keeps_along(memo, m1, self.type_in(m1, y, d1).1);
            },
            SizingV::Maybe(e) => {
                self.type_settles(memo, e, d1, d2);
            },
            SizingV::Class(q) => {
                self.class_settles(memo, q, d1, d2);
            },
        }
    }

    /// The size of a class does not depend on the bound once that is as large
    /// as the number of classes without an answer; the answer is kept, and
    /// earlier answers never change.
    pub proof fn class_settles(self, memo: Memo, name: Seq<char>, d1: nat, d2: nat)
        requires
            table::ordered(memo),
            self.open_classes(memo) <= d1,
            self.open_classes(memo) <= d2,
        ensures
            self.class_in(memo, name, d1) == self.class_in(memo, name, d2),
            table::ordered(self.class_in(memo, name, d1).1),
            keeps(memo, self.class_in(memo, name, d1).1),
            table::get(self.class_in(memo, name, d1).1, name) == Some(self.class_in(memo, name, d1).0),
        decreases d1, 0int, 0nat,
    {
        if table::get(memo, name) is None {
            let open = table::put(memo, name, None::<(u64, u64)>);
            self.answering_keeps(memo, memo, name, None);
            let r = self.class_in(memo, name, d1).0;
            if table::get(self.measured, name) is None && self.declares(name) {
                let i = table::rank(self.bro.classes, name);
                table::rank_bounds(self.bro.classes, name, 0);
                self.unanswered_drops(memo, open, i, self.bro.classes.len());
                self.layout_settles(open, name, (d1 - 1) as nat, (d2 - 1) as nat);
                let m = self.layout_in(open, name, (d1 - 1) as nat).1;
                self.keeps_along(memo, open, m);
                self.answering_keeps(memo, m, name, r);
            } else {
                self.answering_keeps(memo, open, name, r);
            }
        }
    }

    proof fn binary_settles(self, memo: Memo, bases: Seq<(Seq<char>, i32)>, n: nat, d1: nat, d2: nat)
        requires
            table::ordered(memo),
            self.open_classes(memo) <= d1,
            self.open_classes(memo) <= d2,
        ensures
            self.binary_end(memo, bases, n, d1) == self.binary_end(memo, bases, n, d2),
            table::ordered(self.binary_end(memo, bases, n, d1).1),
            keeps(memo, self.binary_end(memo, bases, n, d1).1),
        decreases d1, 2int, n,
    {
        if n > 0 {
            self.binary_settles(memo, bases, (n - 1) as nat, d1, d2);
            let m = self.binary_end(memo, bases, (n - 1) as nat, d1).1;
            self.keeps_along(memo, m, m);
            let b = bases[n - 1].0;
            if table::get(self.measured, b) is None {
                if let Some(q) = self.qualified(b) {
                    self.class_settles(m, q, d1, d2);
                    self.keeps_along(memo, m, self.class_in(m, q, d1).1);
                }
            }
        }
    }

    proof fn stack_settles(self, memo: Memo, bases: Seq<Seq<char>>, n: nat, d1: nat, d2: nat)
        requires
            table::ordered(memo),
            self.open_classes(memo) <= d1,
            self.open_classes(memo) <= d2,
        ensures
            self.stacked(memo, bases, n, d1) == self.stacked(memo, bases, n, d2),
            table::ordered(self.stacked(memo, bases, n, d1).memo),
            keeps(memo, self.stacked(memo, bases, n, d1).memo),
        decreases d1, 2int, n,
    {
        if n > 0 {
            self.stack_settles(memo, bases, (n - 1) as nat, d1, d2);
            let m = self.stacked(memo, bases, (n - 1) as nat, d1).memo;
            self.keeps_along(memo, m, m);
            let b = bases[n - 1];
            let q = match self.qualified(b) {
                Some(q) => q,
                None => b,
            };
            self.class_settles(m, q, d1, d2);
            self.keeps_along(memo, m, self.class_in(m, q, d1).1);
        }
    }

    proof fn place_settles(self, from: Placing, members: Seq<BroMemberV>, n: nat, d1: nat, d2: nat)
        requires
            table::ordered(from.memo),
            self.open_classes(from.memo) <= d1,
            self.open_classes(from.memo) <= d2,
        ensures
            self.placed(from, members, n, d1) == self.placed(from, members, n, d2),
            table::ordered(self.placed(from, members, n, d1).memo),
            keeps(from.memo, self.placed(from, members, n, d1).memo),
        decreases d1, 2int, n,
    {
        if n > 0 {
            self.place_settles(from, members, (n - 1) as nat, d1, d2);
            let p = self.placed(from, members, (n - 1) as nat, d1);
            self.keeps_along(from.memo, p.memo, p.memo);
            if p.error is None {
                if let BroMemberV::Field { ty, name, count } = members[n - 1] {
                    self.type_settles(p.memo, ty, d1, d2);
                    self.keeps_along(from.memo, p.memo, self.type_in(p.memo, ty, d1).1);
                }
            }
        }
    }

    proof fn begin_settles(self, memo: Memo, name: Seq<char>, d1: nat, d2: nat)
        requires
            table::ordered(memo),
            self.open_classes(memo) <= d1,
            self.open_classes(memo) <= d2,
        ensures
            self.begun(memo, name, d1) == self.begun(memo, name, d2),
            table::ordered(self.begun(memo, name, d1).memo),
            keeps(memo, self.begun(memo, name, d1).memo),
        decreases d1, 3int, 0nat,
    {
        if let Some(cls) = table::get(self.bro.classes, name) {
            if let Some(bases) = self.binary_bases(name) {
                let list = counted_bases(bases, cls.bases);
                self.binary_settles(memo, list, list.len(), d1, d2);
            } else if cls.bases.len() > 0 {
                self.stack_settles(memo, cls.bases, cls.bases.len(), d1, d2);
            }
        }
    }

    /// A layout does not depend on the bound once that is as large as the
    /// number of classes without an answer, and answers never change.
    pub proof fn layout_settles(self, memo: Memo, name: Seq<char>, d1: nat, d2: nat)
        requires
            table::ordered(memo),
            self.open_classes(memo) <= d1,
            self.open_classes(memo) <= d2,
        ensures
            self.layout_in(memo, name, d1) == self.layout_in(memo, name, d2),
            table::ordered(self.layout_in(memo, name, d1).1),
            keeps(memo, self.layout_in(memo, name, d1).1),
        decreases d1, 4int, 0nat,
    {
        self.begin_settles(memo, name, d1, d2);
        let b = self.begun(memo, name, d1);
        self.keeps_along(memo, b.memo, b.memo);
        if let Some(cls) = table::get(self.bro.classes, name) {
            let from = Placing { memo: b.memo, cur: b.end, align: b.align, members: Seq::empty(), error: b.error };
            self.place_settles(from, cls.members, cls.members.len(), d1, d2);
            self.keeps_along(memo, b.memo, self.placed(from, cls.members, cls.members.len(), d1).memo);
        }
    }

    /// The number of declared classes is bound enough for every memo.
    pub proof fn depth_suffices(self, memo: Memo)
        ensures
            self.open_classes(memo) <= self.depth(),
    {
        self.unanswered_at_most(memo, self.bro.classes.len());
    }

    /// No offset that arises while the first `n` members are placed is too
    /// large for a machine word.
    pub open spec fn roomy(self, from: Placing, members: Seq<BroMemberV>, n: nat, depth: nat) -> bool
        decreases n,
    {
        n == 0 || (self.roomy(from, members, (n - 1) as nat, depth) && {
            let p = self.placed(from, members, (n - 1) as nat, depth);
            p.error is Some || match members[n - 1] {
                BroMemberV::Pad(k) => p.cur + k <= u64::MAX,
                BroMemberV::Field { ty, name, count } => match self.type_in(p.memo, ty, depth).0 {
                    Some((s, a)) => p.cur + a + s * count <= u64::MAX,
                    None => true,
                },
            }
        })
    }

    /// Members lie in the order of their declaration, behind the bases and
    /// without overlap, and the class ends behind the last.
    pub proof fn members_in_order(self, from: Placing, members: Seq<BroMemberV>, n: nat, depth: nat)
        requires
            from.members.len() == 0,
            self.roomy(from, members, n, depth),
        ensures
            ({
                let p = self.placed(from, members, n, depth);
                &&& from.cur <= p.cur
                &&& forall|i: int| 0 <= i < p.members.len() ==> from.cur <= (#[trigger] p.members[i]).offset
                    && p.members[i].offset + p.members[i].size <= p.cur
                &&& forall|i: int, j: int| 0 <= i < j < p.members.len() ==> (#[trigger] p.members[i]).offset
                    + p.members[i].size <= (#[trigger] p.members[j]).offset
            }),
        decreases n,
    {
        if n > 0 {
            self.members_in_order(from, members, (n - 1) as nat, depth);
            let p = self.placed(from, members, (n - 1) as nat, depth);
            if p.error is None {
                if let BroMemberV::Field { ty, name, count } = members[n - 1] {
                    if let Some((s, a)) = self.type_in(p.memo, ty, depth).0 {
                        assert(s * count >= 0) by (nonlinear_arith);
                        if a >= 1 {
                            aligned_is_least(p.cur, a);
                        }
                    }
                }
            }
        }
    }
}

fn retain_declared(bases: &Vec<(String, i32)>, names: &Vec<String>) -> (r: Vec<(String, i32)>)
    ensures
        r.deep_view() == retained(bases.deep_view(), tails(names.deep_view()), bases@.len() as int),
{
    let ghost nv = names.deep_view();
    let ghost bs = bases.deep_view();
    let mut declared: Vec<String> = Vec::new();
    let mut i: usize = 0;
    while i < names.len()
        invariant
            nv == names.deep_view(),
            i <= names@.len(),
            declared.deep_view() == tails(nv).take(i as int),
        decreases names@.len() - i,
    {
        assert(names@[i as int]@ == nv[i as int]);
        text::push_text(&mut declared, text::tail(names[i].as_str(), "::"));
        i += 1;
        assert(declared.deep_view() =~= tails(nv).take(i as int));
    }
    assert(tails(nv).take(i as int) =~= tails(nv));
    let mut out: Vec<(String, i32)> = Vec::new();
    assert(out.deep_view() =~= Seq::empty());
    i = 0;
    while i < bases.len()
        invariant
            bs == bases.deep_view(),
            i <= bases@.len(),
            declared.deep_view() == tails(nv),
            out.deep_view() == retained(bs, tails(nv), i as int),
        decreases bases@.len() - i,
    {
        assert(bases@[i as int].deep_view() == bs[i as int]);
        let t = text::tail(bases[i].0.as_str(), "::");
        if text::is_one_of(t.as_str(), &declared) {
            let ghost before = out.deep_view();
            out.push((bases[i].0.clone(), bases[i].1));
            assert(out.deep_view() =~= before.push(bs[i as int]));
        }
        i += 1;
    }
    out
}

} // verus!
