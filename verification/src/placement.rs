//! What holds of the layouts of declared classes: where members begin, how they
//! follow one another and where a class ends.

use vstd::prelude::*;

use crate::bindings::{BroClassV, BroMemberV};
use crate::layout;
use crate::layout::{Facts, LaidMemberV, LayoutV, Memo, Placing, Stacking};
use crate::table;
use crate::text;

verus! {

// ---------------------------------------------------------------------------
// Bases that are known from the binary.

/// A base that is known from the binary counts for a class with these declared
/// bases: there are no more than are declared, or it is one of those by the
/// last part of its name. A class without declared bases has them all.
pub open spec fn counts(bases: Seq<(Seq<char>, i32)>, declared: Seq<Seq<char>>, b: (Seq<char>, i32)) -> bool {
    bases.contains(b) && (declared.len() == 0 || bases.len() <= declared.len() || exists|k: int|
        0 <= k < declared.len() && text::tail_of(#[trigger] declared[k], "::"@) == text::tail_of(b.0, "::"@))
}

/// A base whose size was measured, at a place inside the object.
pub open spec fn is_measured(f: Facts, b: (Seq<char>, i32)) -> bool {
    table::get(f.measured, b.0) is Some && 0 <= b.1 && b.1 + table::get(f.measured, b.0).unwrap() <= u64::MAX
}

/// Where a measured base ends.
pub open spec fn end_of(f: Facts, b: (Seq<char>, i32)) -> int {
    b.1 + table::get(f.measured, b.0).unwrap()
}

proof fn retained_are(bases: Seq<(Seq<char>, i32)>, declared: Seq<Seq<char>>, n: int, b: (Seq<char>, i32))
    requires
        0 <= n <= bases.len(),
    ensures
        layout::retained(bases, declared, n).contains(b) <==> bases.take(n).contains(b) && declared.contains(
            text::tail_of(b.0, "::"@),
        ),
    decreases n,
{
    if n > 0 {
        retained_are(bases, declared, n - 1, b);
        let s = layout::retained(bases, declared, n - 1);
        let t = layout::retained(bases, declared, n);
        let last = bases[n - 1];
        assert(bases.take(n) =~= bases.take(n - 1).push(last));
        pushed_contains(bases.take(n - 1), last, b);
        pushed_contains(s, last, b);
    } else {
        assert(bases.take(n) =~= Seq::empty());
    }
}

proof fn pushed_contains<A>(s: Seq<A>, x: A, b: A)
    ensures
        s.push(x).contains(b) <==> s.contains(b) || x == b,
{
    if s.contains(b) {
        let k = choose|k: int| 0 <= k < s.len() && s[k] == b;
        assert(s.push(x)[k] == b);
    }
    if x == b {
        assert(s.push(x)[s.len() as int] == b);
    }
    if s.push(x).contains(b) {
        let k = choose|k: int| 0 <= k < s.push(x).len() && s.push(x)[k] == b;
        if k < s.len() {
            assert(s[k] == b);
        }
    }
}

/// The list of bases that are counted holds exactly those that count.
proof fn counted_are(bases: Seq<(Seq<char>, i32)>, declared: Seq<Seq<char>>, b: (Seq<char>, i32))
    ensures
        layout::counted_bases(bases, declared).contains(b) <==> counts(bases, declared, b),
{
    let d = layout::tails(declared);
    let t = text::tail_of(b.0, "::"@);
    retained_are(bases, d, bases.len() as int, b);
    assert(bases.take(bases.len() as int) =~= bases);
    if d.contains(t) {
        let k = choose|k: int| 0 <= k < d.len() && d[k] == t;
        assert(text::tail_of(declared[k], "::"@) == t);
    }
    if exists|k: int| 0 <= k < declared.len() && text::tail_of(#[trigger] declared[k], "::"@) == t {
        let k = choose|k: int| 0 <= k < declared.len() && text::tail_of(#[trigger] declared[k], "::"@) == t;
        assert(d[k] == t);
    }
}

proof fn end_is_behind(f: Facts, memo: Memo, bases: Seq<(Seq<char>, i32)>, n: nat, depth: nat, b: (Seq<char>, i32))
    requires
        n <= bases.len(),
        bases.take(n as int).contains(b),
    ensures
        is_measured(f, b) ==> f.binary_end(memo, bases, n, depth).0 >= end_of(f, b),
        table::get(f.measured, b.0) is None && f.qualified(b.0) is None && b.1 >= 0 ==> f.binary_end(memo, bases, n, depth).0
            >= b.1 + 8,
    decreases n,
{
    if n > 0 {
        let last = bases[n - 1];
        assert(bases.take(n as int) =~= bases.take(n - 1).push(last));
        pushed_contains(bases.take(n - 1), last, b);
        if bases.take(n - 1).contains(b) {
            end_is_behind(f, memo, bases, (n - 1) as nat, depth, b);
        }
    }
}

proof fn end_is_of_a_base(f: Facts, memo: Memo, bases: Seq<(Seq<char>, i32)>, n: nat, depth: nat) -> (b: (Seq<char>, i32))
    requires
        0 < n <= bases.len(),
        forall|i: int| 0 <= i < n ==> is_measured(f, #[trigger] bases[i]),
    ensures
        bases.contains(b),
        f.binary_end(memo, bases, n, depth).0 == end_of(f, b),
    decreases n,
{
    let last = bases[n - 1];
    assert(is_measured(f, last));
    let was = f.binary_end(memo, bases, (n - 1) as nat, depth).0;
    if n > 1 && was > end_of(f, last) {
        end_is_of_a_base(f, memo, bases, (n - 1) as nat, depth)
    } else {
        last
    }
}

/// The own members of a class begin behind every base that counts and whose
/// size was measured in the binary; a base of which nothing is known takes the
/// eight bytes of its vtable pointer. Such a class is aligned to eight bytes.
pub proof fn members_begin_behind_bases(
    f: Facts,
    memo: Memo,
    name: Seq<char>,
    cls: BroClassV,
    bases: Seq<(Seq<char>, i32)>,
    depth: nat,
    b: (Seq<char>, i32),
)
    requires
        table::get(f.bro.classes, name) == Some(cls),
        table::get(f.rtti_bases, name) == Some(bases),
        counts(bases, cls.bases, b),
        b.1 >= 0,
    ensures
        table::get(f.measured, b.0) matches Some(s) ==> (b.1 + s <= u64::MAX ==> f.layout_in(memo, name, depth).0.start
            >= b.1 + s),
        table::get(f.measured, b.0) is None && f.qualified(b.0) is None ==> f.layout_in(memo, name, depth).0.start >= b.1
            + 8,
        f.layout_in(memo, name, depth).0.align >= 8,
{
    let list = layout::counted_bases(bases, cls.bases);
    counted_are(bases, cls.bases, b);
    assert(bases.len() > 0);
    assert(list.take(list.len() as int) =~= list);
    end_is_behind(f, memo, list, list.len(), depth, b);
    let g = f.begun(memo, name, depth);
    let from = Placing { memo: g.memo, cur: g.end, align: g.align, members: Seq::empty(), error: g.error };
    alignment_grows(f, from, cls.members, cls.members.len(), depth);
}

/// Where every base that counts was measured, the members begin exactly where
/// one of them ends, which is then the furthest; where none counts, they begin
/// at the start of the object.
pub proof fn members_begin_at_the_end_of_a_base(
    f: Facts,
    memo: Memo,
    name: Seq<char>,
    cls: BroClassV,
    bases: Seq<(Seq<char>, i32)>,
    depth: nat,
)
    requires
        table::get(f.bro.classes, name) == Some(cls),
        table::get(f.rtti_bases, name) == Some(bases),
        bases.len() > 0,
        forall|b: (Seq<char>, i32)| #[trigger] counts(bases, cls.bases, b) ==> is_measured(f, b),
    ensures
        f.layout_in(memo, name, depth).0.start == 0 || exists|b: (Seq<char>, i32)| #[trigger]
            counts(bases, cls.bases, b) && f.layout_in(memo, name, depth).0.start == end_of(f, b),
        (forall|b: (Seq<char>, i32)| !#[trigger] counts(bases, cls.bases, b)) ==> f.layout_in(memo, name, depth).0.start
            == 0,
{
    let list = layout::counted_bases(bases, cls.bases);
    assert forall|k: int| 0 <= k < list.len() implies is_measured(f, #[trigger] list[k]) by {
        counted_are(bases, cls.bases, list[k]);
        assert(list.contains(list[k]));
    }
    if list.len() > 0 {
        let b = end_is_of_a_base(f, memo, list, list.len(), depth);
        counted_are(bases, cls.bases, b);
    } else {
        assert(f.binary_end(memo, list, 0, depth).0 == 0);
    }
    if list.len() > 0 {
        counted_are(bases, cls.bases, list[0]);
        assert(list.contains(list[0]));
    }
}

/// Every member of such a class lies behind every measured base that counts.
pub proof fn members_lie_behind_bases(
    f: Facts,
    memo: Memo,
    name: Seq<char>,
    cls: BroClassV,
    bases: Seq<(Seq<char>, i32)>,
    depth: nat,
    b: (Seq<char>, i32),
    k: int,
)
    requires
        table::get(f.bro.classes, name) == Some(cls),
        table::get(f.rtti_bases, name) == Some(bases),
        counts(bases, cls.bases, b),
        is_measured(f, b),
        0 <= k < f.layout_in(memo, name, depth).0.members.len(),
        ({
            let g = f.begun(memo, name, depth);
            let from = Placing { memo: g.memo, cur: g.end, align: g.align, members: Seq::empty(), error: g.error };
            f.roomy(from, cls.members, cls.members.len(), depth)
        }),
    ensures
        f.layout_in(memo, name, depth).0.members[k].offset >= end_of(f, b),
{
    members_begin_behind_bases(f, memo, name, cls, bases, depth, b);
    let g = f.begun(memo, name, depth);
    let from = Placing { memo: g.memo, cur: g.end, align: g.align, members: Seq::empty(), error: g.error };
    f.members_in_order(from, cls.members, cls.members.len(), depth);
}

// ---------------------------------------------------------------------------
// Other classes.

/// A class with one declared base, and no bases known from the binary, has its
/// members behind that base and its alignment, where the base's size is known.
pub proof fn members_begin_behind_a_declared_base(
    f: Facts,
    memo: Memo,
    name: Seq<char>,
    cls: BroClassV,
    depth: nat,
    s: u64,
    a: u64,
)
    requires
        table::get(f.bro.classes, name) == Some(cls),
        table::get(f.rtti_bases, name) is None,
        cls.bases.len() == 1,
        f.declares(cls.bases[0]),
        a >= 1,
        f.class_in(memo, cls.bases[0], depth).0 == Some((s, a)),
    ensures
        f.layout_in(memo, name, depth).0.start == s,
        f.layout_in(memo, name, depth).0.align >= a,
{
    let b = f.begun(memo, name, depth);
    reveal_with_fuel(Facts::stacked, 2);
    assert(layout::aligned(0, a) == 0) by {
        assert(0u64 % a == 0);
    }
    let from = Placing { memo: b.memo, cur: b.end, align: b.align, members: Seq::empty(), error: b.error };
    alignment_grows(f, from, cls.members, cls.members.len(), depth);
}

/// A class without bases begins with its members, behind a vtable pointer where
/// it has virtual functions or the binary shows it as a class with a hierarchy
/// of its own.
pub proof fn members_begin_behind_a_vtable_pointer(f: Facts, memo: Memo, name: Seq<char>, cls: BroClassV, depth: nat)
    requires
        table::get(f.bro.classes, name) == Some(cls),
        table::get(f.rtti_bases, name) matches Some(b) ==> b.len() == 0,
        cls.bases.len() == 0,
    ensures
        ({
            let l = f.layout_in(memo, name, depth).0;
            let pointer = cls.has_virtuals || (table::get(f.measured, name) is Some && table::get(f.rtti_bases, name) is Some);
            &&& l.start == if pointer {
                8u64
            } else {
                0
            }
            &&& pointer ==> l.align >= 8
            &&& l.align >= 1
        }),
{
    let b = f.begun(memo, name, depth);
    let from = Placing { memo: b.memo, cur: b.end, align: b.align, members: Seq::empty(), error: b.error };
    alignment_grows(f, from, cls.members, cls.members.len(), depth);
}

/// A class that is not declared has no layout.
pub proof fn unknown_classes_have_no_layout(f: Facts, memo: Memo, name: Seq<char>, depth: nat)
    requires
        table::get(f.bro.classes, name) is None,
    ensures
        f.layout_in(memo, name, depth).0.error is Some,
        f.layout_in(memo, name, depth).0.members.len() == 0,
        f.layout_in(memo, name, depth).0.end == 0,
{
}

// ---------------------------------------------------------------------------
// Members.

/// A field is placed at the first offset behind what was placed before that its
/// alignment allows, takes its size as often as it is declared, and what comes
/// next comes behind it; padding only takes room.
pub proof fn members_follow_closely(f: Facts, from: Placing, members: Seq<BroMemberV>, n: nat, depth: nat)
    requires
        0 < n <= members.len(),
        f.placed(from, members, (n - 1) as nat, depth).error is None,
    ensures
        ({
            let p = f.placed(from, members, (n - 1) as nat, depth);
            let q = f.placed(from, members, n, depth);
            match members[n - 1] {
                BroMemberV::Pad(k) => q.members == p.members && (p.cur + k <= u64::MAX ==> q.cur == p.cur + k) && q.error is None,
                BroMemberV::Field { ty, name, count } => match f.type_in(p.memo, ty, depth).0 {
                    None => q.error is Some && q.members == p.members,
                    Some((s, a)) => a >= 1 && p.cur + a + s * count <= u64::MAX ==> {
                        let m = q.members.last();
                        &&& q.error is None
                        &&& q.members.len() == p.members.len() + 1 && q.members.drop_last() == p.members
                        &&& m.name == name && m.ty == ty && m.size == s * count
                        &&& m.offset % a == 0 && p.cur <= m.offset < p.cur + a
                        &&& q.cur == m.offset + m.size
                        &&& q.align >= a && q.align >= p.align && (q.align == a || q.align == p.align)
                    },
                },
            }
        }),
{
    let p = f.placed(from, members, (n - 1) as nat, depth);
    if let BroMemberV::Field { ty, name, count } = members[n - 1] {
        if let Some((s, a)) = f.type_in(p.memo, ty, depth).0 {
            assert(s * count >= 0) by (nonlinear_arith);
            if a >= 1 && p.cur + a + s * count <= u64::MAX {
                layout::aligned_is_least(p.cur, a);
                let q = f.placed(from, members, n, depth);
                assert(q.members.drop_last() =~= p.members);
            }
        }
    }
}

/// Nothing is placed behind a member of unknown type.
pub proof fn errors_end_a_layout(f: Facts, from: Placing, members: Seq<BroMemberV>, n: nat, depth: nat)
    requires
        from.error is Some,
    ensures
        f.placed(from, members, n, depth) == from,
    decreases n,
{
    if n > 0 {
        errors_end_a_layout(f, from, members, (n - 1) as nat, depth);
    }
}

proof fn alignment_grows(f: Facts, from: Placing, members: Seq<BroMemberV>, n: nat, depth: nat)
    ensures
        f.placed(from, members, n, depth).align >= from.align,
    decreases n,
{
    if n > 0 {
        alignment_grows(f, from, members, (n - 1) as nat, depth);
    }
}

/// A class ends at the first multiple of its alignment behind its last member.
pub proof fn classes_end_aligned(f: Facts, memo: Memo, name: Seq<char>, cls: BroClassV, depth: nat)
    requires
        table::get(f.bro.classes, name) == Some(cls),
    ensures
        ({
            let b = f.begun(memo, name, depth);
            let from = Placing { memo: b.memo, cur: b.end, align: b.align, members: Seq::empty(), error: b.error };
            let p = f.placed(from, cls.members, cls.members.len(), depth);
            let l = f.layout_in(memo, name, depth).0;
            &&& l.start == b.end && l.members == p.members && l.align == p.align && l.error == p.error
            &&& p.align >= 1 && p.cur + p.align <= u64::MAX ==> l.end % l.align == 0 && p.cur <= l.end < p.cur + p.align
        }),
{
    let b = f.begun(memo, name, depth);
    let from = Placing { memo: b.memo, cur: b.end, align: b.align, members: Seq::empty(), error: b.error };
    let p = f.placed(from, cls.members, cls.members.len(), depth);
    if p.align >= 1 && p.cur + p.align <= u64::MAX {
        layout::aligned_is_least(p.cur, p.align);
    }
}

/// A class that was measured is as large as it was measured, whatever is
/// declared of it; another is as large as its layout.
pub proof fn classes_are_as_large_as_measured(f: Facts, memo: Memo, name: Seq<char>, depth: nat)
    requires
        table::get(memo, name) is None,
        depth > 0,
    ensures
        table::get(f.measured, name) matches Some(s) ==> f.class_in(memo, name, depth).0 == Some((s, 8u64)),
        table::get(f.measured, name) is None && table::get(f.bro.classes, name) is Some ==> ({
            let l = f.layout_in(table::put(memo, name, None::<(u64, u64)>), name, (depth - 1) as nat).0;
            f.class_in(memo, name, depth).0 == if l.error is Some {
                None
            } else {
                Some((l.end, l.align))
            }
        }),
        table::get(f.measured, name) is None && table::get(f.bro.classes, name) is None ==> f.class_in(memo, name, depth).0
            is None,
{
}

} // verus!
