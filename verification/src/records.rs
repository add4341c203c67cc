//! What holds of the classes that are read from RTTI: each base, vtable and
//! descriptor is what the bytes of its record in the image say.

use vstd::prelude::*;

use crate::names;
use crate::pe;
use crate::pe::PeV;
use crate::rtti;
use crate::rtti::{BaseClassV, ClassV, Descriptors, Locator, VtableV};
use crate::search;
use crate::table;
use crate::text;
use crate::words;

verus! {

// ---------------------------------------------------------------------------
// Numbers in the image.

/// The four bytes at an address, the least first.
pub open spec fn dword(pe: PeV, at: int) -> u32 {
    (pe.image[at] + 0x100 * pe.image[at + 1] + 0x1_0000 * pe.image[at + 2] + 0x100_0000 * pe.image[at + 3]) as u32
}

/// The eight bytes at an address, the least first.
pub open spec fn qword(pe: PeV, at: int) -> u64 {
    (dword(pe, at) + 0x1_0000_0000 * dword(pe, at + 4)) as u64
}

/// `n` bytes at an address lie in the image.
pub open spec fn lies(pe: PeV, at: int, n: int) -> bool {
    0 <= at && at + n <= pe.image.len()
}

/// An image whose addresses are 32-bit numbers.
pub open spec fn is_small(pe: PeV) -> bool {
    pe.image.len() <= u32::MAX && pe.image_base + u32::MAX <= u64::MAX
}

proof fn words_are_read(pe: PeV, r: u32, k: u32)
    requires
        is_small(pe),
    ensures
        lies(pe, r + k, 4) ==> rtti::field32(pe, r, k) == Some(dword(pe, r + k)),
        lies(pe, r as int, 8) ==> pe.u64(r as int) == Some(qword(pe, r as int)),
        !lies(pe, r as int, 8) ==> pe.u64(r as int) is None,
        r + k <= u32::MAX ==> (rtti::field32(pe, r, k) matches Some(v) ==> lies(pe, r + k, 4) && v == dword(pe, r + k)),
        k == 0 ==> (rtti::field32(pe, r, k) matches Some(v) ==> lies(pe, r as int, 4) && v == dword(pe, r as int)),
{
}

// ---------------------------------------------------------------------------
// Bases.

/// A base is what the base class descriptor at `bcd` says, where that lies in
/// the image: its offset is the signed word behind eight bytes, and so on.
pub open spec fn is_described(pe: PeV, bcd: int, b: BaseClassV) -> bool {
    lies(pe, bcd, 24) ==> {
        &&& b.contained == dword(pe, bcd + 4)
        &&& b.mdisp == words::signed32(dword(pe, bcd + 8))
        &&& b.pdisp == words::signed32(dword(pe, bcd + 12))
        &&& b.vdisp == words::signed32(dword(pe, bcd + 16))
        &&& b.attributes == dword(pe, bcd + 20)
    }
}

/// A base is read from the bytes of its descriptor.
pub proof fn bases_are_read(pe: PeV, tds: Descriptors, bcd: u32)
    requires
        is_small(pe),
    ensures
        is_described(pe, bcd as int, rtti::base_at(pe, tds, bcd)),
        lies(pe, bcd as int, 4) ==> (table::get(tds, dword(pe, bcd as int)) matches Some(t) ==> rtti::base_at(pe, tds, bcd).name
            == t.0),
{
    words_are_read(pe, bcd, 0);
    words_are_read(pe, bcd, 4);
    words_are_read(pe, bcd, 8);
    words_are_read(pe, bcd, 12);
    words_are_read(pe, bcd, 16);
    words_are_read(pe, bcd, 20);
    words::sign_of_32(dword(pe, bcd + 8));
    words::sign_of_32(dword(pe, bcd + 12));
    words::sign_of_32(dword(pe, bcd + 16));
}

/// Two images that agree on the bytes of a descriptor give the same offsets,
/// and one that holds a number there gives that number.
pub proof fn offsets_depend_on_their_bytes(p: PeV, q: PeV, tp: Descriptors, tq: Descriptors, bcd: u32, v: i32)
    requires
        is_small(p),
        is_small(q),
        lies(p, bcd as int, 24),
        lies(q, bcd as int, 24),
    ensures
        p.image.subrange(bcd + 8, bcd + 12) == q.image.subrange(bcd + 8, bcd + 12) ==> rtti::base_at(p, tp, bcd).mdisp
            == rtti::base_at(q, tq, bcd).mdisp,
        p.image.subrange(bcd + 12, bcd + 16) == q.image.subrange(bcd + 12, bcd + 16) ==> rtti::base_at(p, tp, bcd).pdisp
            == rtti::base_at(q, tq, bcd).pdisp,
        p.image.subrange(bcd + 16, bcd + 20) == q.image.subrange(bcd + 16, bcd + 20) ==> rtti::base_at(p, tp, bcd).vdisp
            == rtti::base_at(q, tq, bcd).vdisp,
        words::signed32(dword(p, bcd + 8)) == v ==> rtti::base_at(p, tp, bcd).mdisp == v,
{
    bases_are_read(p, tp, bcd);
    bases_are_read(q, tq, bcd);
    same_word(p, q, bcd + 8);
    same_word(p, q, bcd + 12);
    same_word(p, q, bcd + 16);
}

proof fn same_word(p: PeV, q: PeV, at: int)
    requires
        lies(p, at, 4),
        lies(q, at, 4),
    ensures
        p.image.subrange(at, at + 4) == q.image.subrange(at, at + 4) ==> dword(p, at) == dword(q, at),
{
    let a = p.image.subrange(at, at + 4);
    let b = q.image.subrange(at, at + 4);
    assert(a[0] == p.image[at] && a[1] == p.image[at + 1] && a[2] == p.image[at + 2] && a[3] == p.image[at + 3]);
    assert(b[0] == q.image[at] && b[1] == q.image[at + 1] && b[2] == q.image[at + 2] && b[3] == q.image[at + 3]);
}

proof fn flat_is_read(pe: PeV, tds: Descriptors, arr: u32, n: int, i: int)
    requires
        is_small(pe),
        0 <= i <= n <= 512,
    ensures
        ({
            let flat = rtti::flat_from(pe, tds, arr, n, i);
            &&& flat.len() <= n - i
            &&& forall|j: int|
                0 <= j < flat.len() && arr + 4 * n <= u32::MAX ==> #[trigger] flat[j] == rtti::base_at(pe, tds, dword(pe, arr + 4 * (i + j)))
            &&& lies(pe, arr as int, 4 * n) ==> flat.len() == n - i
        }),
    decreases n - i,
{
    if i < n {
        flat_is_read(pe, tds, arr, n, i + 1);
        words_are_read(pe, arr, (i * 4) as u32);
        let flat = rtti::flat_from(pe, tds, arr, n, i);
        let rest = rtti::flat_from(pe, tds, arr, n, i + 1);
        assert forall|j: int| 0 <= j < flat.len() && arr + 4 * n <= u32::MAX implies #[trigger] flat[j] == rtti::base_at(pe, tds, dword(pe, arr + 4 * (i + j))) by {
            if j > 0 {
                assert(flat[j] == rest[j - 1]);
                let at = arr + 4 * ((i + 1) + (j - 1));
                assert(rest[j - 1] == rtti::base_at(pe, tds, dword(pe, at)));
                assert(at == arr + 4 * (i + j));
            }
        }
    }
}

/// Depths change nothing else, are at least that of the list and leave the rest
/// alone.
proof fn depths_are_added(flat: Seq<BaseClassV>, i: int, end: int, depth: u32)
    requires
        0 <= i,
        end <= flat.len(),
        depth + end <= u32::MAX + i,
    ensures
        ({
            let w = rtti::with_depths(flat, i, end, depth);
            &&& w.len() == flat.len()
            &&& forall|k: int| 0 <= k < w.len() ==> #[trigger] w[k] == (BaseClassV { depth: w[k].depth, ..flat[k] })
            &&& forall|k: int| 0 <= k < w.len() && !(i <= k < end) ==> #[trigger] w[k] == flat[k]
            &&& forall|k: int| i <= k < end ==> (#[trigger] w[k]).depth >= depth
        }),
    decreases end - i,
{
    if i < end {
        let sub = rtti::nested_end(flat, i, end);
        let here = flat.update(i, BaseClassV { depth, ..flat[i] });
        depths_are_added(here, i + 1, sub, (depth + 1) as u32);
        let below = rtti::with_depths(here, i + 1, sub, (depth + 1) as u32);
        depths_are_added(below, sub, end, depth);
        let w = rtti::with_depths(flat, i, end, depth);
        assert(w == rtti::with_depths(below, sub, end, depth));
        assert forall|k: int| 0 <= k < w.len() implies #[trigger] w[k] == (BaseClassV { depth: w[k].depth, ..flat[k] }) by {
            assert(below[k] == (BaseClassV { depth: below[k].depth, ..here[k] }));
        }
        assert forall|k: int| i <= k < end implies (#[trigger] w[k]).depth >= depth by {
            if k < sub {
                assert(w[k] == below[k]);
                if k == i {
                    assert(below[k] == here[k]);
                }
            }
        }
        assert forall|k: int| 0 <= k < w.len() && !(i <= k < end) implies #[trigger] w[k] == flat[k] by {
            assert(w[k] == below[k]);
            assert(below[k] == here[k]);
        }
    }
}

/// The direct bases are the entries of depth one.
proof fn direct_are_shallow(flat: Seq<BaseClassV>, i: int)
    requires
        0 <= i <= flat.len() <= 512,
    ensures
        ({
            let w = rtti::with_depths(flat, i, flat.len() as int, 1);
            rtti::direct_from(w, i) == w.skip(i).filter(|b: BaseClassV| b.depth == 1)
        }),
    decreases flat.len() - i,
{
    let end = flat.len() as int;
    let w = rtti::with_depths(flat, i, end, 1);
    let test = |b: BaseClassV| b.depth == 1;
    depths_are_added(flat, i, end, 1);
    if i < end {
        let sub = rtti::nested_end(flat, i, end);
        let here = flat.update(i, BaseClassV { depth: 1, ..flat[i] });
        depths_are_added(here, i + 1, sub, 2);
        let below = rtti::with_depths(here, i + 1, sub, 2);
        depths_are_added(below, sub, end, 1);
        direct_are_shallow(below, sub);
        assert(w == rtti::with_depths(below, sub, end, 1));
        assert(w[i] == below[i] && below[i] == here[i]);
        assert(rtti::nested_end(w, i, end) == sub);
        let nested = w.subrange(i + 1, sub);
        assert forall|k: int| 0 <= k < nested.len() implies !test(#[trigger] nested[k]) by {
            assert(nested[k] == w[i + 1 + k]);
            assert(w[i + 1 + k] == below[i + 1 + k]);
        }
        filter_none(nested, test);
        assert(w.skip(i) =~= seq![w[i]] + nested + w.skip(sub));
        filter_parts(seq![w[i]] + nested, w.skip(sub), test);
        filter_parts(seq![w[i]], nested, test);
        reveal(Seq::filter);
        assert(seq![w[i]].drop_last() =~= Seq::empty());
        assert(seq![w[i]].filter(test) =~= seq![w[i]]);
        assert(seq![w[i]] + Seq::<BaseClassV>::empty() =~= seq![w[i]]);
    } else {
        reveal(Seq::filter);
        assert(w.skip(i) =~= Seq::empty());
    }
}

proof fn filter_none<A>(s: Seq<A>, test: spec_fn(A) -> bool)
    requires
        forall|k: int| 0 <= k < s.len() ==> !test(#[trigger] s[k]),
    ensures
        s.filter(test) == Seq::<A>::empty(),
    decreases s.len(),
{
    reveal(Seq::filter);
    if s.len() > 0 {
        filter_none(s.drop_last(), test);
        assert(!test(s[s.len() - 1]));
    }
}

proof fn filter_parts<A>(a: Seq<A>, b: Seq<A>, test: spec_fn(A) -> bool)
    ensures
        (a + b).filter(test) == a.filter(test) + b.filter(test),
    decreases b.len(),
{
    reveal(Seq::filter);
    if b.len() == 0 {
        assert(a + b =~= a);
        assert(a.filter(test) + b.filter(test) =~= a.filter(test));
    } else {
        filter_parts(a, b.drop_last(), test);
        assert((a + b).drop_last() =~= a + b.drop_last());
        assert((a + b).last() == b.last());
        let f = a.filter(test);
        let g = b.drop_last().filter(test);
        if test(b.last()) {
            assert((f + g).push(b.last()) =~= f + g.push(b.last()));
        }
    }
}

/// The hierarchy of a class is what its hierarchy descriptor says: each base
/// behind the class itself is what the descriptor in its slot of the base class
/// array describes, and the direct bases are those of depth one, in order.
pub open spec fn hierarchy_is_read(pe: PeV, c: ClassV) -> bool {
    c.chd_rva matches Some(chd) ==> lies(pe, chd as int, 16) ==> {
        let arr = dword(pe, chd + 12);
        let n = dword(pe, chd + 8);
        &&& c.chd_attributes == dword(pe, chd + 4)
        &&& 1 <= n <= 512
        &&& c.all_bases.len() <= n - 1
        &&& lies(pe, arr as int, 4 * n) ==> {
            &&& c.all_bases.len() == n - 1
            &&& forall|i: int|
                0 <= i < c.all_bases.len() ==> is_described(
                    pe,
                    dword(pe, arr + 4 * (i + 1)) as int,
                    #[trigger] c.all_bases[i],
                )
        }
        &&& c.direct_bases == c.all_bases.filter(|b: BaseClassV| b.depth == 1)
    }
}

proof fn hierarchy_holds(pe: PeV, tds: Descriptors, c: ClassV, chd: u32)
    requires
        is_small(pe),
        hierarchy_is_read(pe, c),
    ensures
        hierarchy_is_read(pe, rtti::with_hierarchy(pe, tds, c, chd)),
{
    let d = rtti::with_hierarchy(pe, tds, c, chd);
    words_are_read(pe, chd, 4);
    words_are_read(pe, chd, 8);
    words_are_read(pe, chd, 12);
    if d != c && lies(pe, chd as int, 16) {
        let arr = dword(pe, chd + 12);
        let n = dword(pe, chd + 8);
        let flat = rtti::flat_from(pe, tds, arr, n as int, 0);
        flat_is_read(pe, tds, arr, n as int, 0);
        let len = flat.len() as int;
        let w = rtti::with_depths(flat, 1, len, 1);
        let test = |b: BaseClassV| b.depth == 1;
        if len > 0 {
            depths_are_added(flat, 1, len, 1);
            direct_are_shallow(flat, 1);
            assert(d.all_bases == w.skip(1));
        } else {
            assert(w == flat);
            reveal(Seq::filter);
            assert(d.direct_bases =~= Seq::empty());
            assert(d.all_bases =~= Seq::empty());
        }
        if lies(pe, arr as int, 4 * n) {
            assert forall|i: int| 0 <= i < d.all_bases.len() implies is_described(
                pe,
                dword(pe, arr + 4 * (i + 1)) as int,
                #[trigger] d.all_bases[i],
            ) by {
                let bcd = dword(pe, arr + 4 * (i + 1));
                assert(d.all_bases[i] == w[i + 1]);
                assert(flat[i + 1] == rtti::base_at(pe, tds, bcd)) by {
                    assert(0 + (i + 1) == i + 1);
                }
                bases_are_read(pe, tds, bcd);
                assert(w[i + 1] == (BaseClassV { depth: w[i + 1].depth, ..flat[i + 1] }));
            }
        }
    }
}

/// Every class of a table satisfies a property.
pub open spec fn all_are(cs: Seq<(Seq<char>, ClassV)>, p: spec_fn(ClassV) -> bool) -> bool {
    forall|i: int| 0 <= i < cs.len() ==> p((#[trigger] cs[i]).1)
}

proof fn put_are(cs: Seq<(Seq<char>, ClassV)>, name: Seq<char>, c: ClassV, p: spec_fn(ClassV) -> bool)
    requires
        all_are(cs, p),
        p(c),
    ensures
        all_are(table::put(cs, name, c), p),
        all_are(table::put_new(cs, name, c), p),
{
    let t = table::put(cs, name, c);
    table::rows_after_put(cs, name, c);
    assert forall|i: int| 0 <= i < t.len() implies p((#[trigger] t[i]).1) by {
        if cs.contains(t[i]) {
            let k = choose|k: int| 0 <= k < cs.len() && cs[k] == t[i];
            assert(p(cs[k].1));
        }
    }
}

proof fn got_is(cs: Seq<(Seq<char>, ClassV)>, name: Seq<char>, p: spec_fn(ClassV) -> bool)
    requires
        all_are(cs, p),
    ensures
        table::get(cs, name) matches Some(c) ==> p(c),
{
    table::rank_bounds(cs, name, 0);
}

proof fn bare_hierarchies(pe: PeV, tds: Descriptors, n: int)
    ensures
        all_are(rtti::bare_classes(tds, n), |c: ClassV| hierarchy_is_read(pe, c)),
    decreases n,
{
    if n > 0 {
        bare_hierarchies(pe, tds, n - 1);
        let (td, (name, raw)) = tds[n - 1];
        put_are(
            rtti::bare_classes(tds, n - 1),
            name,
            rtti::bare_class(td, name, raw),
            |c: ClassV| hierarchy_is_read(pe, c),
        );
    }
}

proof fn hierarchies_hold(pe: PeV, tds: Descriptors, cs: Seq<(Seq<char>, ClassV)>, cols: Seq<Locator>, n: int)
    requires
        is_small(pe),
        all_are(cs, |c: ClassV| hierarchy_is_read(pe, c)),
    ensures
        all_are(rtti::with_hierarchies(pe, tds, cs, cols, n), |c: ClassV| hierarchy_is_read(pe, c)),
    decreases n,
{
    if n > 0 {
        let p = |c: ClassV| hierarchy_is_read(pe, c);
        hierarchies_hold(pe, tds, cs, cols, n - 1);
        let s = rtti::with_hierarchies(pe, tds, cs, cols, n - 1);
        let col = cols[n - 1];
        if let Some(name) = rtti::name_of(tds, col.td) {
            if let Some(c) = table::get(s, name) {
                got_is(s, name, p);
                hierarchy_holds(pe, tds, c, col.chd);
                put_are(s, name, rtti::with_hierarchy(pe, tds, c, col.chd), p);
            }
        }
    }
}

proof fn vtables_leave_hierarchies(
    pe: PeV,
    tds: Descriptors,
    cs: Seq<(Seq<char>, ClassV)>,
    cols: Seq<Locator>,
    hs: Seq<(u32, usize)>,
    n: int,
)
    requires
        all_are(cs, |c: ClassV| hierarchy_is_read(pe, c)),
    ensures
        all_are(rtti::with_vtables(pe, tds, cs, cols, hs, n), |c: ClassV| hierarchy_is_read(pe, c)),
    decreases n,
{
    if n > 0 {
        let p = |c: ClassV| hierarchy_is_read(pe, c);
        vtables_leave_hierarchies(pe, tds, cs, cols, hs, n - 1);
        let s = rtti::with_vtables(pe, tds, cs, cols, hs, n - 1);
        let (vt, ci) = hs[n - 1];
        if ci < cols.len() {
            let col = cols[ci as int];
            if let Some(name) = rtti::name_of(tds, col.td) {
                if let Some(c) = table::get(s, name) {
                    got_is(s, name, p);
                    let v = rtti::vtable_of(pe, rtti::meta_slots(hs, hs.len() as int), vt, col);
                    put_are(s, name, ClassV { vtables: c.vtables.push(v), ..c }, p);
                }
            }
        }
    }
}

/// Every class that a scan finds has the hierarchy that its descriptor says.
pub proof fn hierarchies_are_read(pe: PeV, i: int)
    requires
        is_small(pe),
        0 <= i < rtti::scanned(pe).classes.len(),
    ensures
        hierarchy_is_read(pe, rtti::scanned(pe).classes[i].1),
{
    let tds = rtti::descriptors(pe);
    let n = pe.data_sections().len() as int;
    let cols = rtti::locators(pe, tds, n);
    let hs = rtti::hits(pe, rtti::locator_index(pe, cols, cols.len() as int), n);
    let c0 = rtti::bare_classes(tds, tds.len() as int);
    bare_hierarchies(pe, tds, tds.len() as int);
    let c1 = rtti::with_hierarchies(pe, tds, c0, cols, cols.len() as int);
    hierarchies_hold(pe, tds, c0, cols, cols.len() as int);
    let c2 = rtti::with_vtables(pe, tds, c1, cols, hs, hs.len() as int);
    vtables_leave_hierarchies(pe, tds, c1, cols, hs, hs.len() as int);
    assert(hierarchy_is_read(pe, c2[i].1));
}

// ---------------------------------------------------------------------------
// Vtables.

/// A locator is a record of the image that says where it is itself: it starts
/// with one, and its last word is its own address.
pub open spec fn locator_is_read(pe: PeV, tds: Descriptors, l: Locator) -> bool {
    &&& lies(pe, l.rva as int, 4)
    &&& dword(pe, l.rva as int) == 1
    &&& lies(pe, l.rva as int, 24) ==> {
        &&& l.offset == dword(pe, l.rva + 4)
        &&& l.cd_offset == dword(pe, l.rva + 8)
        &&& l.td == dword(pe, l.rva + 12)
        &&& l.chd == dword(pe, l.rva + 16)
        &&& l.rva == dword(pe, l.rva + 20)
    }
    &&& table::get(tds, l.td) is Some
}

proof fn locators_are_read(pe: PeV, tds: Descriptors, r: u32)
    requires
        is_small(pe),
    ensures
        rtti::locator_at(pe, tds, r) matches Some(l) ==> l.rva == r && locator_is_read(pe, tds, l),
        lies(pe, r as int, 24) && dword(pe, r as int) == 1 && dword(pe, r + 20) == r && table::get(tds, dword(pe, r + 12)) is Some
            ==> rtti::locator_at(pe, tds, r) is Some,
{
    words_are_read(pe, r, 0);
    words_are_read(pe, r, 4);
    words_are_read(pe, r, 8);
    words_are_read(pe, r, 12);
    words_are_read(pe, r, 16);
    words_are_read(pe, r, 20);
}

proof fn section_locators(pe: PeV, tds: Descriptors, rva: u32, n: int)
    requires
        is_small(pe),
    ensures
        forall|k: int|
            0 <= k < rtti::locators_in(pe, tds, rva, n).len() ==> locator_is_read(
                pe,
                tds,
                #[trigger] rtti::locators_in(pe, tds, rva, n)[k],
            ),
    decreases n,
{
    if n > 0 {
        section_locators(pe, tds, rva, n - 1);
        locators_are_read(pe, tds, rva.wrapping_add(((n - 1) * 4) as u32));
        let before = rtti::locators_in(pe, tds, rva, n - 1);
        let all = rtti::locators_in(pe, tds, rva, n);
        assert forall|k: int| 0 <= k < all.len() implies locator_is_read(pe, tds, #[trigger] all[k]) by {
            if k < before.len() {
                assert(all[k] == before[k]);
            }
        }
    }
}

proof fn all_locators(pe: PeV, tds: Descriptors, n: int)
    requires
        is_small(pe),
    ensures
        forall|k: int|
            0 <= k < rtti::locators(pe, tds, n).len() ==> locator_is_read(pe, tds, #[trigger] rtti::locators(pe, tds, n)[k]),
    decreases n,
{
    if n > 0 {
        all_locators(pe, tds, n - 1);
        let sec = pe.data_sections()[n - 1];
        section_locators(pe, tds, sec.rva, rtti::slots_in(sec.vsize, 24, 4));
        let a = rtti::locators(pe, tds, n - 1);
        let b = rtti::locators_in(pe, tds, sec.rva, rtti::slots_in(sec.vsize, 24, 4));
        let all = rtti::locators(pe, tds, n);
        assert forall|k: int| 0 <= k < all.len() implies locator_is_read(pe, tds, #[trigger] all[k]) by {
            if k < a.len() {
                assert(all[k] == a[k]);
            } else {
                assert(all[k] == b[k - a.len()]);
            }
        }
    }
}

proof fn index_is_of(pe: PeV, cols: Seq<Locator>, n: int, va: u64)
    requires
        0 <= n <= cols.len() <= usize::MAX,
    ensures
        table::ordered(rtti::locator_index(pe, cols, n)),
        table::get(rtti::locator_index(pe, cols, n), va) matches Some(i) ==> i < n && pe.rva_to_va(cols[i as int].rva) == va,
        forall|i: int|
            0 <= i < n && pe.rva_to_va((#[trigger] cols[i]).rva) == va ==> table::get(rtti::locator_index(pe, cols, n), va)
                is Some,
    decreases n,
{
    if n > 0 {
        index_is_of(pe, cols, n - 1, va);
        table::get_after_put(
            rtti::locator_index(pe, cols, n - 1),
            pe.rva_to_va(cols[n - 1].rva),
            (n - 1) as usize,
            va,
        );
    } else {
        assert(rtti::locator_index(pe, cols, n) =~= Seq::empty());
    }
}

/// A vtable stands behind a pointer to its locator.
pub open spec fn hit_is_read(pe: PeV, cols: Seq<Locator>, h: (u32, usize)) -> bool {
    8 <= h.0 && lies(pe, h.0 - 8, 8) && h.1 < cols.len() && qword(pe, h.0 - 8) == pe.image_base + cols[h.1 as int].rva
}

proof fn hit_holds(pe: PeV, cols: Seq<Locator>, r: u32)
    requires
        is_small(pe),
        cols.len() <= usize::MAX,
    ensures
        rtti::hit_at(pe, rtti::locator_index(pe, cols, cols.len() as int), r) matches Some(h) ==> h.0 == r + 8
            && hit_is_read(pe, cols, h),
        lies(pe, r as int, 8) && (exists|i: int|
            0 <= i < cols.len() && qword(pe, r as int) == pe.image_base + (#[trigger] cols[i]).rva) ==> rtti::hit_at(
            pe,
            rtti::locator_index(pe, cols, cols.len() as int),
            r,
        ) is Some,
{
    words_are_read(pe, r, 0);
    if lies(pe, r as int, 8) {
        index_is_of(pe, cols, cols.len() as int, qword(pe, r as int));
        if exists|i: int| 0 <= i < cols.len() && qword(pe, r as int) == pe.image_base + (#[trigger] cols[i]).rva {
            let i = choose|i: int| 0 <= i < cols.len() && qword(pe, r as int) == pe.image_base + (#[trigger] cols[i]).rva;
            assert(pe.rva_to_va(cols[i].rva) == qword(pe, r as int));
        }
    }
}

proof fn section_hits(pe: PeV, cols: Seq<Locator>, rva: u32, n: int)
    requires
        is_small(pe),
        cols.len() <= usize::MAX,
    ensures
        ({
            let index = rtti::locator_index(pe, cols, cols.len() as int);
            let hs = rtti::hits_in(pe, index, rva, n);
            forall|k: int| 0 <= k < hs.len() ==> hit_is_read(pe, cols, #[trigger] hs[k])
        }),
    decreases n,
{
    if n > 0 {
        section_hits(pe, cols, rva, n - 1);
        let r = rva.wrapping_add(((n - 1) * 8) as u32);
        hit_holds(pe, cols, r);
        let index = rtti::locator_index(pe, cols, cols.len() as int);
        let before = rtti::hits_in(pe, index, rva, n - 1);
        let hs = rtti::hits_in(pe, index, rva, n);
        assert forall|k: int| 0 <= k < hs.len() implies hit_is_read(pe, cols, #[trigger] hs[k]) by {
            if k < before.len() {
                assert(hs[k] == before[k]);
            }
        }
    }
}

proof fn all_hits(pe: PeV, cols: Seq<Locator>, n: int)
    requires
        is_small(pe),
        cols.len() <= usize::MAX,
    ensures
        ({
            let hs = rtti::hits(pe, rtti::locator_index(pe, cols, cols.len() as int), n);
            forall|k: int| 0 <= k < hs.len() ==> hit_is_read(pe, cols, #[trigger] hs[k])
        }),
    decreases n,
{
    if n > 0 {
        all_hits(pe, cols, n - 1);
        let sec = pe.data_sections()[n - 1];
        section_hits(pe, cols, sec.rva, rtti::slots_in(sec.vsize, 8, 8));
        let index = rtti::locator_index(pe, cols, cols.len() as int);
        let a = rtti::hits(pe, index, n - 1);
        let b = rtti::hits_in(pe, index, sec.rva, rtti::slots_in(sec.vsize, 8, 8));
        let hs = rtti::hits(pe, index, n);
        assert forall|k: int| 0 <= k < hs.len() implies hit_is_read(pe, cols, #[trigger] hs[k]) by {
            if k < a.len() {
                assert(hs[k] == a[k]);
            } else {
                assert(hs[k] == b[k - a.len()]);
            }
        }
    }
}

/// The word at an address points to code at `t`.
pub open spec fn points_to_code(pe: PeV, at: int, t: u32) -> bool {
    lies(pe, at, 8) && qword(pe, at) == pe.image_base + t && t < pe.size_of_image && pe.is_exec(t)
}

/// The entries of a vtable are the code that its words point to.
pub open spec fn entries_are_read(pe: PeV, rva: u32, entries: Seq<u32>) -> bool {
    forall|k: int| 0 <= k < entries.len() ==> points_to_code(pe, rva + 8 * k, #[trigger] entries[k])
}

proof fn entries_hold(pe: PeV, meta: Seq<(u32, ())>, r: u32, count: int)
    requires
        is_small(pe),
        0 <= count <= 4096,
    ensures
        entries_are_read(pe, r, rtti::entries_from(pe, meta, r, count)),
        forall|t: u32|
            #[trigger] points_to_code(pe, r as int, t) && (count == 0 || !table::holds(meta, r)) ==> rtti::entries_from(
                pe,
                meta,
                r,
                count,
            ).len() > 0,
    decreases 4096 - count,
{
    words_are_read(pe, r, 0);
    let all = rtti::entries_from(pe, meta, r, count);
    if all.len() > 0 {
        assert(points_to_code(pe, r as int, all[0]));
    }
    if all.len() > 1 {
        let next = (r + 8) as u32;
        entries_hold(pe, meta, next, count + 1);
        let rest = rtti::entries_from(pe, meta, next, count + 1);
        assert forall|k: int| 0 <= k < all.len() implies points_to_code(pe, r + 8 * k, #[trigger] all[k]) by {
            if k > 0 {
                assert(all[k] == rest[k - 1]);
                assert(next + 8 * (k - 1) == r + 8 * k);
            }
        }
    }
}

/// A vtable is what the image says: a pointer to its locator stands before it,
/// the locator names its class and the offset of its subobject, and its words
/// are the entries.
pub open spec fn vtable_is_read(pe: PeV, tds: Descriptors, name: Seq<char>, v: VtableV) -> bool {
    &&& 8 <= v.rva && lies(pe, v.rva - 8, 8) && qword(pe, v.rva - 8) == pe.image_base + v.col_rva
    &&& lies(pe, v.col_rva as int, 4) && dword(pe, v.col_rva as int) == 1
    &&& lies(pe, v.col_rva as int, 24) ==> {
        &&& v.offset == dword(pe, v.col_rva + 4)
        &&& v.cd_offset == dword(pe, v.col_rva + 8)
        &&& v.col_rva == dword(pe, v.col_rva + 20)
        &&& table::get(tds, dword(pe, v.col_rva + 12)) matches Some(t) && t.0 == name
    }
    &&& entries_are_read(pe, v.rva, v.entries)
}

/// A class stored under its name, whose vtables are those of the image and
/// whose descriptor has its name.
pub open spec fn row_is_read(pe: PeV, tds: Descriptors, row: (Seq<char>, ClassV)) -> bool {
    &&& row.0 == row.1.name
    &&& table::get(tds, row.1.td_rva) == Some((row.1.name, row.1.mangled))
    &&& forall|k: int| 0 <= k < row.1.vtables.len() ==> vtable_is_read(pe, tds, row.1.name, #[trigger] row.1.vtables[k])
}

pub open spec fn rows_are_read(pe: PeV, tds: Descriptors, cs: Seq<(Seq<char>, ClassV)>) -> bool {
    forall|i: int| 0 <= i < cs.len() ==> row_is_read(pe, tds, #[trigger] cs[i])
}

proof fn put_is_read(pe: PeV, tds: Descriptors, cs: Seq<(Seq<char>, ClassV)>, name: Seq<char>, c: ClassV)
    requires
        rows_are_read(pe, tds, cs),
        row_is_read(pe, tds, (name, c)),
    ensures
        rows_are_read(pe, tds, table::put(cs, name, c)),
        rows_are_read(pe, tds, table::put_new(cs, name, c)),
{
    let t = table::put(cs, name, c);
    table::rows_after_put(cs, name, c);
    assert forall|i: int| 0 <= i < t.len() implies row_is_read(pe, tds, #[trigger] t[i]) by {
        if cs.contains(t[i]) {
            let k = choose|k: int| 0 <= k < cs.len() && cs[k] == t[i];
            assert(row_is_read(pe, tds, cs[k]));
        }
    }
}

proof fn got_is_read(pe: PeV, tds: Descriptors, cs: Seq<(Seq<char>, ClassV)>, name: Seq<char>)
    requires
        rows_are_read(pe, tds, cs),
    ensures
        table::get(cs, name) matches Some(c) ==> row_is_read(pe, tds, (name, c)),
{
    table::rank_bounds(cs, name, 0);
    if table::holds(cs, name) {
        let r = table::rank(cs, name);
        assert(row_is_read(pe, tds, cs[r]));
        assert(cs[r] == (name, cs[r].1));
    }
}

proof fn bare_rows(pe: PeV, tds: Descriptors, n: int)
    requires
        table::ordered(tds),
        n <= tds.len(),
    ensures
        rows_are_read(pe, tds, rtti::bare_classes(tds, n)),
    decreases n,
{
    if n > 0 {
        bare_rows(pe, tds, n - 1);
        let (td, (name, raw)) = tds[n - 1];
        row_is_got(tds, n - 1);
        put_is_read(pe, tds, rtti::bare_classes(tds, n - 1), name, rtti::bare_class(td, name, raw));
    }
}

/// A row of an ordered table is found under its key.
proof fn row_is_got<A: table::Ordered, W>(s: Seq<(A, W)>, i: int)
    requires
        table::ordered(s),
        0 <= i < s.len(),
    ensures
        table::get(s, s[i].0) == Some(s[i].1),
{
    A::irreflexive(s[i].0);
    table::rank_is(s, s[i].0, 0, i);
}

proof fn hierarchy_rows(pe: PeV, tds: Descriptors, cs: Seq<(Seq<char>, ClassV)>, cols: Seq<Locator>, n: int)
    requires
        rows_are_read(pe, tds, cs),
    ensures
        rows_are_read(pe, tds, rtti::with_hierarchies(pe, tds, cs, cols, n)),
    decreases n,
{
    if n > 0 {
        hierarchy_rows(pe, tds, cs, cols, n - 1);
        let s = rtti::with_hierarchies(pe, tds, cs, cols, n - 1);
        let col = cols[n - 1];
        if let Some(name) = rtti::name_of(tds, col.td) {
            if let Some(c) = table::get(s, name) {
                got_is_read(pe, tds, s, name);
                let d = rtti::with_hierarchy(pe, tds, c, col.chd);
                assert(d.vtables == c.vtables);
                put_is_read(pe, tds, s, name, d);
            }
        }
    }
}

proof fn vtable_rows(
    pe: PeV,
    tds: Descriptors,
    cs: Seq<(Seq<char>, ClassV)>,
    cols: Seq<Locator>,
    hs: Seq<(u32, usize)>,
    n: int,
)
    requires
        is_small(pe),
        n <= hs.len(),
        rows_are_read(pe, tds, cs),
        forall|k: int| 0 <= k < cols.len() ==> locator_is_read(pe, tds, #[trigger] cols[k]),
        forall|k: int| 0 <= k < hs.len() ==> hit_is_read(pe, cols, #[trigger] hs[k]),
    ensures
        rows_are_read(pe, tds, rtti::with_vtables(pe, tds, cs, cols, hs, n)),
    decreases n,
{
    if n > 0 {
        vtable_rows(pe, tds, cs, cols, hs, n - 1);
        let s = rtti::with_vtables(pe, tds, cs, cols, hs, n - 1);
        let (vt, ci) = hs[n - 1];
        assert(hit_is_read(pe, cols, hs[n - 1]));
        let col = cols[ci as int];
        assert(locator_is_read(pe, tds, col));
        if let Some(name) = rtti::name_of(tds, col.td) {
            if let Some(c) = table::get(s, name) {
                got_is_read(pe, tds, s, name);
                let meta = rtti::meta_slots(hs, hs.len() as int);
                let v = rtti::vtable_of(pe, meta, vt, col);
                entries_hold(pe, meta, vt, 0);
                assert(vtable_is_read(pe, tds, name, v));
                let d = ClassV { vtables: c.vtables.push(v), ..c };
                assert(row_is_read(pe, tds, (name, d)));
                put_is_read(pe, tds, s, name, d);
            }
        }
    }
}

proof fn sorted_row(pe: PeV, tds: Descriptors, name: Seq<char>, c: ClassV)
    requires
        row_is_read(pe, tds, (name, c)),
        c.vtables.len() <= usize::MAX,
    ensures
        row_is_read(pe, tds, (name, rtti::in_order(c))),
{
    let by = rtti::vtable_keys(c.vtables);
    table::queued_rows(by, c.vtables, 0);
    let d = rtti::in_order(c);
    assert forall|k: int| 0 <= k < d.vtables.len() implies vtable_is_read(pe, tds, c.name, #[trigger] d.vtables[k]) by {
        let row = table::queued(by, c.vtables, 0)[k];
        assert(d.vtables[k] == c.vtables[row.0.1 as int]);
    }
}

proof fn vtable_counts(
    pe: PeV,
    tds: Descriptors,
    cs: Seq<(Seq<char>, ClassV)>,
    cols: Seq<Locator>,
    hs: Seq<(u32, usize)>,
    n: int,
)
    requires
        0 <= n,
        forall|i: int| 0 <= i < cs.len() ==> (#[trigger] cs[i]).1.vtables.len() == 0,
    ensures
        ({
            let t = rtti::with_vtables(pe, tds, cs, cols, hs, n);
            forall|i: int| 0 <= i < t.len() ==> (#[trigger] t[i]).1.vtables.len() <= n
        }),
    decreases n,
{
    if n > 0 {
        vtable_counts(pe, tds, cs, cols, hs, n - 1);
        let s = rtti::with_vtables(pe, tds, cs, cols, hs, n - 1);
        let (vt, ci) = hs[n - 1];
        if ci < cols.len() {
            let col = cols[ci as int];
            if let Some(name) = rtti::name_of(tds, col.td) {
                if let Some(c) = table::get(s, name) {
                    let v = rtti::vtable_of(pe, rtti::meta_slots(hs, hs.len() as int), vt, col);
                    let d = ClassV { vtables: c.vtables.push(v), ..c };
                    let t = table::put(s, name, d);
                    table::rows_after_put(s, name, d);
                    table::rank_bounds(s, name, 0);
                    assert forall|i: int| 0 <= i < t.len() implies (#[trigger] t[i]).1.vtables.len() <= n by {
                        if s.contains(t[i]) {
                            let k = choose|k: int| 0 <= k < s.len() && s[k] == t[i];
                            assert(s[k].1.vtables.len() <= n - 1);
                        }
                    }
                }
            }
        }
    }
}

proof fn bare_counts(pe: PeV, tds: Descriptors, cols: Seq<Locator>, n: int, k: int)
    ensures
        forall|i: int| 0 <= i < rtti::bare_classes(tds, n).len() ==> (#[trigger] rtti::bare_classes(tds, n)[i]).1.vtables.len() == 0,
        ({
            let t = rtti::with_hierarchies(pe, tds, rtti::bare_classes(tds, n), cols, k);
            forall|i: int| 0 <= i < t.len() ==> (#[trigger] t[i]).1.vtables.len() == 0
        }),
    decreases n, k,
{
    if n > 0 {
        bare_counts(pe, tds, cols, n - 1, 0);
        let (td, (name, raw)) = tds[n - 1];
        let s = rtti::bare_classes(tds, n - 1);
        let t = table::put(s, name, rtti::bare_class(td, name, raw));
        table::rows_after_put(s, name, rtti::bare_class(td, name, raw));
        assert forall|i: int| 0 <= i < t.len() implies (#[trigger] t[i]).1.vtables.len() == 0 by {
            if s.contains(t[i]) {
                let j = choose|j: int| 0 <= j < s.len() && s[j] == t[i];
                assert(s[j].1.vtables.len() == 0);
            }
        }
    }
    if k > 0 {
        bare_counts(pe, tds, cols, n, k - 1);
        let s = rtti::with_hierarchies(pe, tds, rtti::bare_classes(tds, n), cols, k - 1);
        let col = cols[k - 1];
        if let Some(name) = rtti::name_of(tds, col.td) {
            if let Some(c) = table::get(s, name) {
                let d = rtti::with_hierarchy(pe, tds, c, col.chd);
                let t = table::put(s, name, d);
                table::rows_after_put(s, name, d);
                table::rank_bounds(s, name, 0);
                assert forall|i: int| 0 <= i < t.len() implies (#[trigger] t[i]).1.vtables.len() == 0 by {
                    if s.contains(t[i]) {
                        let j = choose|j: int| 0 <= j < s.len() && s[j] == t[i];
                        assert(s[j].1.vtables.len() == 0);
                    }
                }
            }
        }
    }
}

// ---------------------------------------------------------------------------
// Descriptors.

/// A type descriptor of the image: its name stands behind two pointers, starts
/// with the mark of a class or a struct and ends with two signs.
pub open spec fn descriptor_is_read(pe: PeV, td: u32, t: (Seq<char>, Seq<char>)) -> bool {
    &&& td % 8 == 0
    &&& pe::c_string(pe.image, td + 16) == Some(t.1)
    &&& text::suffixed(t.1, "@@"@)
    &&& t.0 == names::type_text(t.1)
    &&& lies(pe, td + 16, 4) && pe.image[td + 16] == 0x2e && pe.image[td + 17] == 0x3f && pe.image[td + 18] == 0x41 && (
    pe.image[td + 19] == 0x56 || pe.image[td + 19] == 0x55)
}

pub open spec fn descriptors_are_read(pe: PeV, tds: Descriptors) -> bool {
    table::ordered(tds) && forall|i: int| 0 <= i < tds.len() ==> descriptor_is_read(pe, (#[trigger] tds[i]).0, tds[i].1)
}

proof fn put_descriptor(pe: PeV, tds: Descriptors, td: u32, t: (Seq<char>, Seq<char>))
    requires
        descriptors_are_read(pe, tds),
        descriptor_is_read(pe, td, t),
    ensures
        descriptors_are_read(pe, table::put(tds, td, t)),
{
    let r = table::put(tds, td, t);
    table::put_ordered(tds, td, t);
    table::rows_after_put(tds, td, t);
    assert forall|i: int| 0 <= i < r.len() implies descriptor_is_read(pe, (#[trigger] r[i]).0, r[i].1) by {
        if tds.contains(r[i]) {
            let k = choose|k: int| 0 <= k < tds.len() && tds[k] == r[i];
            assert(descriptor_is_read(pe, tds[k].0, tds[k].1));
        }
    }
}

proof fn hits_are_descriptors(pe: PeV, seen: rtti::Seen, rva: u32, vsize: u32, mark: Seq<u8>, n: int)
    requires
        is_small(pe),
        descriptors_are_read(pe, seen.tds),
        mark == seq![0x2eu8, 0x3fu8, 0x41u8, 0x56u8] || mark == seq![0x2eu8, 0x3fu8, 0x41u8, 0x55u8],
        n <= search::occurrences(pe.bytes(rva, vsize as int), mark).len(),
    ensures
        descriptors_are_read(
            pe,
            rtti::seen_hits(pe, seen, rva, search::occurrences(pe.bytes(rva, vsize as int), mark), n).tds,
        ),
    decreases n,
{
    if n > 0 {
        hits_are_descriptors(pe, seen, rva, vsize, mark, n - 1);
        let data = pe.bytes(rva, vsize as int);
        let hits = search::occurrences(data, mark);
        let h = hits[n - 1];
        search::places_are_all(data, mark, data.len() as int + 1, h as int);
        let name_rva = rva.wrapping_add(h as u32);
        let s = rtti::seen_hits(pe, seen, rva, hits, n - 1);
        if let Some((td, raw)) = rtti::descriptor_at(pe, name_rva) {
            assert(hits.contains(h));
            assert(search::stands(data, mark, h as int));
            let part = data.subrange(h as int, h + 4);
            assert(part[0] == mark[0] && part[1] == mark[1] && part[2] == mark[2] && part[3] == mark[3]);
            assert(name_rva == rva + h);
            assert(data[h as int] == pe.image[rva + h] && data[h + 1] == pe.image[rva + h + 1] && data[h + 2] == pe.image[rva + h
                + 2] && data[h + 3] == pe.image[rva + h + 3]);
            assert(td + 16 == rva + h);
            put_descriptor(pe, s.tds, td, (names::type_text(raw), raw));
        }
    }
}

proof fn sections_are_descriptors(pe: PeV, n: int)
    requires
        is_small(pe),
        n <= pe.data_sections().len(),
    ensures
        descriptors_are_read(pe, rtti::seen_sections(pe, n).tds),
    decreases n,
{
    if n > 0 {
        sections_are_descriptors(pe, n - 1);
        let s = rtti::seen_sections(pe, n - 1);
        let sec = pe.data_sections()[n - 1];
        let data = pe.bytes(sec.rva, sec.vsize as int);
        let a = search::occurrences(data, rtti::class_mark());
        hits_are_descriptors(pe, s, sec.rva, sec.vsize, rtti::class_mark(), a.len() as int);
        let t = rtti::seen_hits(pe, s, sec.rva, a, a.len() as int);
        let b = search::occurrences(data, rtti::struct_mark());
        hits_are_descriptors(pe, t, sec.rva, sec.vsize, rtti::struct_mark(), b.len() as int);
    }
}

proof fn genuine_are(pe: PeV, tds: Descriptors, vt: u64, n: int)
    requires
        descriptors_are_read(pe, tds),
        0 <= n <= tds.len(),
    ensures
        descriptors_are_read(pe, rtti::genuine(pe, tds, vt, n)),
        forall|i: int|
            0 <= i < rtti::genuine(pe, tds, vt, n).len() ==> pe.u64((#[trigger] rtti::genuine(pe, tds, vt, n)[i]).0 as int)
                == Some(vt),
        forall|i: int|
            0 <= i < n && pe.u64((#[trigger] tds[i]).0 as int) == Some(vt) ==> rtti::genuine(pe, tds, vt, n).contains(tds[i]),
    decreases n,
{
    if n > 0 {
        genuine_are(pe, tds, vt, n - 1);
        let s = rtti::genuine(pe, tds, vt, n - 1);
        let t = rtti::genuine(pe, tds, vt, n);
        let (td, x) = tds[n - 1];
        if pe.u64(td as int) == Some(vt) {
            put_descriptor(pe, s, td, x);
            table::rows_after_put(s, td, x);
            assert forall|i: int| 0 <= i < t.len() implies pe.u64((#[trigger] t[i]).0 as int) == Some(vt) by {
                if s.contains(t[i]) {
                    let k = choose|k: int| 0 <= k < s.len() && s[k] == t[i];
                    assert(pe.u64(s[k].0 as int) == Some(vt));
                }
            }
            table::get_after_put(s, td, x, td);
            table::get_is_row(t, td);
            assert forall|i: int| 0 <= i < n && pe.u64((#[trigger] tds[i]).0 as int) == Some(vt) implies t.contains(tds[i]) by {
                if i < n - 1 {
                    assert(s.contains(tds[i]));
                    let k = choose|k: int| 0 <= k < s.len() && s[k] == tds[i];
                    row_is_got(s, k);
                    assert(tds[i].0 != td);
                    table::get_after_put(s, td, x, tds[i].0);
                    table::get_is_row(t, tds[i].0);
                }
            }
        } else {
            assert forall|i: int| 0 <= i < n && pe.u64((#[trigger] tds[i]).0 as int) == Some(vt) implies t.contains(tds[i]) by {
                assert(i < n - 1);
            }
        }
    }
}

/// The descriptors that count are records of the image, and they share the
/// pointer that they start with: that of the type information.
pub proof fn descriptors_share_a_pointer(pe: PeV, i: int, j: int)
    requires
        is_small(pe),
        0 <= i < rtti::descriptors(pe).len(),
        0 <= j < rtti::descriptors(pe).len(),
    ensures
        descriptors_are_read(pe, rtti::descriptors(pe)),
        i != j ==> pe.u64(rtti::descriptors(pe)[i].0 as int) == pe.u64(rtti::descriptors(pe)[j].0 as int),
{
    let n = pe.data_sections().len() as int;
    sections_are_descriptors(pe, n);
    let s = rtti::seen_sections(pe, n);
    if let Some(best) = rtti::most_voted(s.vts, s.vts.len() as int) {
        genuine_are(pe, s.tds, best.0, s.tds.len() as int);
    } else {
        voted_are(pe, n);
        assert(s.vts.len() == 0) by {
            if s.vts.len() > 0 {
                assert(rtti::most_voted(s.vts, s.vts.len() as int) is Some);
            }
        }
    }
}

proof fn hits_are_voted(pe: PeV, seen: rtti::Seen, rva: u32, hits: Seq<usize>, n: int)
    requires
        seen.vts.len() == 0 ==> seen.tds.len() == 0,
    ensures
        ({
            let s = rtti::seen_hits(pe, seen, rva, hits, n);
            s.vts.len() == 0 ==> s.tds.len() == 0
        }),
    decreases n,
{
    if n > 0 {
        hits_are_voted(pe, seen, rva, hits, n - 1);
        let s = rtti::seen_hits(pe, seen, rva, hits, n - 1);
        if let Some((td, raw)) = rtti::descriptor_at(pe, rva.wrapping_add(hits[n - 1] as u32)) {
            table::rank_bounds(s.vts, rtti::vtable_word(pe, td), 0);
        }
    }
}

proof fn voted_are(pe: PeV, n: int)
    ensures
        rtti::seen_sections(pe, n).vts.len() == 0 ==> rtti::seen_sections(pe, n).tds.len() == 0,
    decreases n,
{
    if n > 0 {
        voted_are(pe, n - 1);
        let s = rtti::seen_sections(pe, n - 1);
        let sec = pe.data_sections()[n - 1];
        let data = pe.bytes(sec.rva, sec.vsize as int);
        let a = search::occurrences(data, rtti::class_mark());
        hits_are_voted(pe, s, sec.rva, a, a.len() as int);
        let t = rtti::seen_hits(pe, s, sec.rva, a, a.len() as int);
        let b = search::occurrences(data, rtti::struct_mark());
        hits_are_voted(pe, t, sec.rva, b, b.len() as int);
    }
}

/// The records of a scan are few enough to be counted.
pub open spec fn is_countable(pe: PeV) -> bool {
    let tds = rtti::descriptors(pe);
    let n = pe.data_sections().len() as int;
    let cols = rtti::locators(pe, tds, n);
    cols.len() <= usize::MAX && rtti::hits(pe, rtti::locator_index(pe, cols, cols.len() as int), n).len() <= usize::MAX
}

/// Every class that a scan finds is named by its descriptor, and its vtables
/// are those that the image has for it, with the code that their words point
/// to.
pub proof fn classes_are_read(pe: PeV, i: int)
    requires
        is_small(pe),
        is_countable(pe),
        0 <= i < rtti::scanned(pe).classes.len(),
    ensures
        row_is_read(pe, rtti::descriptors(pe), rtti::scanned(pe).classes[i]),
        ({
            let c = rtti::scanned(pe).classes[i].1;
            descriptor_is_read(pe, c.td_rva, (c.name, c.mangled))
        }),
{
    let tds = rtti::descriptors(pe);
    let n = pe.data_sections().len() as int;
    let cols = rtti::locators(pe, tds, n);
    let hs = rtti::hits(pe, rtti::locator_index(pe, cols, cols.len() as int), n);
    sections_are_descriptors(pe, n);
    let s = rtti::seen_sections(pe, n);
    if let Some(best) = rtti::most_voted(s.vts, s.vts.len() as int) {
        genuine_are(pe, s.tds, best.0, s.tds.len() as int);
    }
    assert(descriptors_are_read(pe, tds));
    all_locators(pe, tds, n);
    all_hits(pe, cols, n);
    let c0 = rtti::bare_classes(tds, tds.len() as int);
    bare_rows(pe, tds, tds.len() as int);
    let c1 = rtti::with_hierarchies(pe, tds, c0, cols, cols.len() as int);
    hierarchy_rows(pe, tds, c0, cols, cols.len() as int);
    bare_counts(pe, tds, cols, tds.len() as int, cols.len() as int);
    let c2 = rtti::with_vtables(pe, tds, c1, cols, hs, hs.len() as int);
    vtable_rows(pe, tds, c1, cols, hs, hs.len() as int);
    vtable_counts(pe, tds, c1, cols, hs, hs.len() as int);
    assert(row_is_read(pe, tds, c2[i]));
    assert(c2[i].1.vtables.len() <= hs.len());
    sorted_row(pe, tds, c2[i].0, c2[i].1);
    let c = rtti::scanned(pe).classes[i].1;
    table::get_is_row(tds, c.td_rva);
    let k = choose|k: int| 0 <= k < tds.len() && tds[k] == (c.td_rva, (c.name, c.mangled));
    assert(descriptor_is_read(pe, tds[k].0, tds[k].1));
}

// ---------------------------------------------------------------------------
// Nothing is missed.

proof fn locator_in_section(pe: PeV, tds: Descriptors, rva: u32, n: int, j: int)
    requires
        is_small(pe),
        0 <= j < n,
        rva + 4 * j <= u32::MAX,
        rtti::locator_at(pe, tds, (rva + 4 * j) as u32) is Some,
    ensures
        exists|i: int|
            0 <= i < rtti::locators_in(pe, tds, rva, n).len() && (#[trigger] rtti::locators_in(pe, tds, rva, n)[i]).rva == rva
                + 4 * j,
    decreases n,
{
    let s = rtti::locators_in(pe, tds, rva, n - 1);
    let t = rtti::locators_in(pe, tds, rva, n);
    if j < n - 1 {
        locator_in_section(pe, tds, rva, n - 1, j);
        let i = choose|i: int| 0 <= i < s.len() && (#[trigger] s[i]).rva == rva + 4 * j;
        assert(t[i].rva == rva + 4 * j);
    } else {
        let r = (rva + 4 * j) as u32;
        assert(rva.wrapping_add(((n - 1) * 4) as u32) == r);
        locators_are_read(pe, tds, r);
        assert(t[s.len() as int].rva == r);
    }
}

/// Every locator at a multiple of four bytes of a data section is found.
pub proof fn locators_are_found(pe: PeV, tds: Descriptors, n: int, k: int, j: int)
    requires
        is_small(pe),
        0 <= k < n <= pe.data_sections().len(),
        0 <= j,
        4 * j + 24 < pe.data_sections()[k].vsize,
        ({
            let r = pe.data_sections()[k].rva + 4 * j;
            lies(pe, r, 24) && dword(pe, r) == 1 && dword(pe, r + 20) == r && table::get(tds, dword(pe, r + 12)) is Some
        }),
    ensures
        exists|i: int|
            0 <= i < rtti::locators(pe, tds, n).len() && (#[trigger] rtti::locators(pe, tds, n)[i]).rva
                == pe.data_sections()[k].rva + 4 * j,
    decreases n,
{
    let sec = pe.data_sections()[n - 1];
    let a = rtti::locators(pe, tds, n - 1);
    let b = rtti::locators_in(pe, tds, sec.rva, rtti::slots_in(sec.vsize, 24, 4));
    let all = rtti::locators(pe, tds, n);
    if k < n - 1 {
        locators_are_found(pe, tds, n - 1, k, j);
        let i = choose|i: int| 0 <= i < a.len() && (#[trigger] a[i]).rva == pe.data_sections()[k].rva + 4 * j;
        assert(all[i] == a[i]);
    } else {
        let r = (sec.rva + 4 * j) as u32;
        locators_are_read(pe, tds, r);
        locator_in_section(pe, tds, sec.rva, rtti::slots_in(sec.vsize, 24, 4), j);
        let i = choose|i: int| 0 <= i < b.len() && (#[trigger] b[i]).rva == sec.rva + 4 * j;
        assert(all[a.len() + i] == b[i]);
    }
}

proof fn hit_in_section(pe: PeV, index: Seq<(u64, usize)>, rva: u32, n: int, j: int)
    requires
        0 <= j < n,
        rva + 8 * j + 8 <= u32::MAX,
        rtti::hit_at(pe, index, (rva + 8 * j) as u32) is Some,
    ensures
        exists|i: int|
            0 <= i < rtti::hits_in(pe, index, rva, n).len() && #[trigger] rtti::hits_in(pe, index, rva, n)[i] == rtti::hit_at(
                pe,
                index,
                (rva + 8 * j) as u32,
            ).unwrap(),
    decreases n,
{
    let s = rtti::hits_in(pe, index, rva, n - 1);
    let t = rtti::hits_in(pe, index, rva, n);
    let r = (rva + 8 * j) as u32;
    let h = rtti::hit_at(pe, index, r).unwrap();
    if j < n - 1 {
        hit_in_section(pe, index, rva, n - 1, j);
        let i = choose|i: int| 0 <= i < s.len() && #[trigger] s[i] == h;
        assert(t[i] == h);
    } else {
        assert(rva.wrapping_add(((n - 1) * 8) as u32) == r);
        assert(t[s.len() as int] == h);
    }
}

proof fn hit_is_found(pe: PeV, index: Seq<(u64, usize)>, n: int, k: int, j: int)
    requires
        0 <= k < n <= pe.data_sections().len(),
        0 <= j,
        8 * j + 8 < pe.data_sections()[k].vsize,
        pe.data_sections()[k].rva + 8 * j + 8 <= u32::MAX,
        rtti::hit_at(pe, index, (pe.data_sections()[k].rva + 8 * j) as u32) is Some,
    ensures
        exists|i: int|
            0 <= i < rtti::hits(pe, index, n).len() && #[trigger] rtti::hits(pe, index, n)[i] == rtti::hit_at(
                pe,
                index,
                (pe.data_sections()[k].rva + 8 * j) as u32,
            ).unwrap(),
    decreases n,
{
    let sec = pe.data_sections()[n - 1];
    let a = rtti::hits(pe, index, n - 1);
    let b = rtti::hits_in(pe, index, sec.rva, rtti::slots_in(sec.vsize, 8, 8));
    let all = rtti::hits(pe, index, n);
    let h = rtti::hit_at(pe, index, (pe.data_sections()[k].rva + 8 * j) as u32).unwrap();
    if k < n - 1 {
        hit_is_found(pe, index, n - 1, k, j);
        let i = choose|i: int| 0 <= i < a.len() && #[trigger] a[i] == h;
        assert(all[i] == a[i]);
    } else {
        hit_in_section(pe, index, sec.rva, rtti::slots_in(sec.vsize, 8, 8), j);
        let i = choose|i: int| 0 <= i < b.len() && #[trigger] b[i] == h;
        assert(all[a.len() + i] == b[i]);
    }
}

/// A class has a vtable at an address.
pub open spec fn has_vtable(cs: Seq<(Seq<char>, ClassV)>, name: Seq<char>, rva: u32) -> bool {
    table::get(cs, name) is Some && exists|v: int|
        0 <= v < table::get(cs, name).unwrap().vtables.len() && (#[trigger] table::get(cs, name).unwrap().vtables[v]).rva == rva
}

/// A table of classes, in order, with a class for each descriptor.
pub open spec fn is_full(tds: Descriptors, cs: Seq<(Seq<char>, ClassV)>) -> bool {
    table::ordered(cs) && forall|td: u32|
        (#[trigger] table::get(tds, td)) is Some ==> table::get(cs, table::get(tds, td).unwrap().0) is Some
}

proof fn put_keeps_full(tds: Descriptors, cs: Seq<(Seq<char>, ClassV)>, name: Seq<char>, c: ClassV)
    requires
        is_full(tds, cs),
    ensures
        is_full(tds, table::put(cs, name, c)),
{
    table::put_ordered(cs, name, c);
    assert forall|td: u32| (#[trigger] table::get(tds, td)) is Some implies table::get(
        table::put(cs, name, c),
        table::get(tds, td).unwrap().0,
    ) is Some by {
        table::get_after_put(cs, name, c, table::get(tds, td).unwrap().0);
    }
}

proof fn bare_is_ordered(tds: Descriptors, n: int, i: int)
    requires
        n <= tds.len(),
    ensures
        table::ordered(rtti::bare_classes(tds, n)),
        0 <= i < n ==> table::get(rtti::bare_classes(tds, n), tds[i].1.0) is Some,
    decreases n,
{
    if n > 0 {
        bare_is_ordered(tds, n - 1, i);
        let (td, (name, raw)) = tds[n - 1];
        let s = rtti::bare_classes(tds, n - 1);
        let c = rtti::bare_class(td, name, raw);
        table::put_ordered(s, name, c);
        if 0 <= i < n {
            table::get_after_put(s, name, c, tds[i].1.0);
            table::get_after_put(s, name, c, name);
        }
    } else {
        assert(rtti::bare_classes(tds, n) =~= Seq::empty());
    }
}

proof fn bare_is_full(tds: Descriptors)
    ensures
        is_full(tds, rtti::bare_classes(tds, tds.len() as int)),
{
    bare_is_ordered(tds, tds.len() as int, -1);
    assert forall|td: u32| (#[trigger] table::get(tds, td)) is Some implies table::get(
        rtti::bare_classes(tds, tds.len() as int),
        table::get(tds, td).unwrap().0,
    ) is Some by {
        table::rank_bounds(tds, td, 0);
        bare_is_ordered(tds, tds.len() as int, table::rank(tds, td));
    }
}

proof fn hierarchies_are_full(pe: PeV, tds: Descriptors, cs: Seq<(Seq<char>, ClassV)>, cols: Seq<Locator>, n: int)
    requires
        is_full(tds, cs),
    ensures
        is_full(tds, rtti::with_hierarchies(pe, tds, cs, cols, n)),
    decreases n,
{
    if n > 0 {
        hierarchies_are_full(pe, tds, cs, cols, n - 1);
        let s = rtti::with_hierarchies(pe, tds, cs, cols, n - 1);
        let col = cols[n - 1];
        if let Some(name) = rtti::name_of(tds, col.td) {
            if let Some(c) = table::get(s, name) {
                put_keeps_full(tds, s, name, rtti::with_hierarchy(pe, tds, c, col.chd));
            }
        }
    }
}

proof fn vtables_are_full(
    pe: PeV,
    tds: Descriptors,
    cs: Seq<(Seq<char>, ClassV)>,
    cols: Seq<Locator>,
    hs: Seq<(u32, usize)>,
    n: int,
    i: int,
)
    requires
        is_full(tds, cs),
        n <= hs.len(),
    ensures
        is_full(tds, rtti::with_vtables(pe, tds, cs, cols, hs, n)),
        0 <= i < n && hs[i].1 < cols.len() ==> (rtti::name_of(tds, cols[hs[i].1 as int].td) matches Some(name) ==> has_vtable(
            rtti::with_vtables(pe, tds, cs, cols, hs, n),
            name,
            hs[i].0,
        )),
    decreases n,
{
    if n > 0 {
        vtables_are_full(pe, tds, cs, cols, hs, n - 1, i);
        let s = rtti::with_vtables(pe, tds, cs, cols, hs, n - 1);
        let t = rtti::with_vtables(pe, tds, cs, cols, hs, n);
        let (vt, ci) = hs[n - 1];
        if ci < cols.len() {
            let col = cols[ci as int];
            if let Some(name) = rtti::name_of(tds, col.td) {
                assert(table::get(tds, col.td) is Some);
                let c = table::get(s, name).unwrap();
                let v = rtti::vtable_of(pe, rtti::meta_slots(hs, hs.len() as int), vt, col);
                let d = ClassV { vtables: c.vtables.push(v), ..c };
                put_keeps_full(tds, s, name, d);
                table::get_after_put(s, name, d, name);
                assert(d.vtables[c.vtables.len() as int].rva == vt);
                if 0 <= i < n && hs[i].1 < cols.len() {
                    if let Some(other) = rtti::name_of(tds, cols[hs[i].1 as int].td) {
                        table::get_after_put(s, name, d, other);
                        if i < n - 1 && other == name {
                            let x = choose|x: int| 0 <= x < c.vtables.len() && (#[trigger] c.vtables[x]).rva == hs[i].0;
                            assert(d.vtables[x].rva == hs[i].0);
                        }
                    }
                }
            }
        }
    }
}

proof fn same_rank<A: table::Ordered, V, W>(s: Seq<(A, V)>, t: Seq<(A, W)>, k: A, i: int)
    requires
        s.len() == t.len(),
        forall|j: int| 0 <= j < s.len() ==> (#[trigger] s[j]).0 == t[j].0,
        0 <= i <= s.len(),
    ensures
        table::rank_from(s, k, i) == table::rank_from(t, k, i),
    decreases s.len() - i,
{
    if i < s.len() {
        assert(s[i].0 == t[i].0);
        same_rank(s, t, k, i + 1);
    }
}

proof fn sorted_has(cs: Seq<(Seq<char>, ClassV)>, name: Seq<char>, rva: u32)
    requires
        has_vtable(cs, name, rva),
        forall|i: int| 0 <= i < cs.len() ==> (#[trigger] cs[i]).1.vtables.len() <= usize::MAX,
    ensures
        has_vtable(rtti::all_in_order(cs, cs.len() as int), name, rva),
{
    let t = rtti::all_in_order(cs, cs.len() as int);
    same_rank(cs, t, name, 0);
    table::rank_bounds(cs, name, 0);
    let r = table::rank(cs, name);
    let c = cs[r].1;
    assert(table::get(t, name) == Some(rtti::in_order(c)));
    let by = rtti::vtable_keys(c.vtables);
    let f = |v: VtableV| v.rva;
    table::sorting_keeps_values(by, c.vtables, f);
    let a = c.vtables.map_values(f);
    let d = rtti::in_order(c);
    let b = d.vtables.map_values(f);
    let v = choose|v: int| 0 <= v < c.vtables.len() && (#[trigger] c.vtables[v]).rva == rva;
    assert(a[v] == rva);
    a.to_multiset_ensures();
    b.to_multiset_ensures();
    assert(a.contains(rva));
    assert(a.to_multiset().count(rva) > 0);
    assert(b.to_multiset().count(rva) > 0);
    assert(b.contains(rva));
    let w = choose|w: int| 0 <= w < b.len() && b[w] == rva;
    assert(d.vtables[w].rva == rva);
}

/// Every vtable is found: where a word of a data section points to a locator of
/// a data section that names a class, that class has the vtable behind the word.
pub proof fn vtables_are_found(pe: PeV, k: int, j: int, kl: int, jl: int)
    requires
        is_small(pe),
        is_countable(pe),
        0 <= k < pe.data_sections().len(),
        0 <= kl < pe.data_sections().len(),
        0 <= j,
        8 * j + 8 < pe.data_sections()[k].vsize,
        lies(pe, pe.data_sections()[k].rva + 8 * j, 8),
        0 <= jl,
        4 * jl + 24 < pe.data_sections()[kl].vsize,
        ({
            let l = pe.data_sections()[kl].rva + 4 * jl;
            &&& lies(pe, l, 24) && dword(pe, l) == 1 && dword(pe, l + 20) == l
            &&& table::get(rtti::descriptors(pe), dword(pe, l + 12)) is Some
            &&& qword(pe, pe.data_sections()[k].rva + 8 * j) == pe.image_base + l
        }),
    ensures
        ({
            let l = pe.data_sections()[kl].rva + 4 * jl;
            let name = table::get(rtti::descriptors(pe), dword(pe, l + 12)).unwrap().0;
            has_vtable(rtti::scanned(pe).classes, name, (pe.data_sections()[k].rva + 8 * j + 8) as u32)
        }),
{
    let tds = rtti::descriptors(pe);
    let n = pe.data_sections().len() as int;
    let cols = rtti::locators(pe, tds, n);
    let index = rtti::locator_index(pe, cols, cols.len() as int);
    let hs = rtti::hits(pe, index, n);
    let l = pe.data_sections()[kl].rva + 4 * jl;
    let r = (pe.data_sections()[k].rva + 8 * j) as u32;
    locators_are_found(pe, tds, n, kl, jl);
    hit_holds(pe, cols, r);
    let x = choose|x: int| 0 <= x < cols.len() && (#[trigger] cols[x]).rva == l;
    assert(qword(pe, r as int) == pe.image_base + cols[x].rva);
    hit_is_found(pe, index, n, k, j);
    let h = rtti::hit_at(pe, index, r).unwrap();
    let i = choose|i: int| 0 <= i < hs.len() && #[trigger] hs[i] == h;
    assert(hit_is_read(pe, cols, h) && h.0 == r + 8);
    all_locators(pe, tds, n);
    assert(locator_is_read(pe, tds, cols[h.1 as int]));
    assert(cols[h.1 as int].rva == l);
    let c0 = rtti::bare_classes(tds, tds.len() as int);
    bare_is_full(tds);
    let c1 = rtti::with_hierarchies(pe, tds, c0, cols, cols.len() as int);
    hierarchies_are_full(pe, tds, c0, cols, cols.len() as int);
    bare_counts(pe, tds, cols, tds.len() as int, cols.len() as int);
    let c2 = rtti::with_vtables(pe, tds, c1, cols, hs, hs.len() as int);
    vtables_are_full(pe, tds, c1, cols, hs, hs.len() as int, i);
    vtable_counts(pe, tds, c1, cols, hs, hs.len() as int);
    let name = table::get(tds, dword(pe, l + 12)).unwrap().0;
    assert(rtti::name_of(tds, cols[h.1 as int].td) == Some(name));
    sorted_has(c2, name, h.0);
}

} // verus!
