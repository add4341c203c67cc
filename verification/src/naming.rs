//! What holds of the names that signatures, records and the user give: each
//! ends up where its value says.

use vstd::prelude::*;

use crate::dump;
use crate::dump::{FallbackV, FieldNameV, GlobalNames, NamedFieldV, NamingV};
use crate::grammar;
use crate::model::{ModuleV, NameSrc, NameV};
use crate::names;
use crate::num;
use crate::sigs;
use crate::sigs::{ExtraV, Kind, SigResultV, SigV};
use crate::table;
use crate::table::Ordered;
use crate::text;

verus! {

/// An address has a name that is trusted as far as a source, and the offered
/// name where nothing as good was there.
pub open spec fn is_named_by(was: Option<NameV>, now: Option<NameV>, name: Seq<char>, source: NameSrc) -> bool {
    now matches Some(n) && n.source.at_least(source) && ((was is None || !was.unwrap().source.at_least(source)) ==> n.name == name
        && n.source == source)
}

proof fn offered(m: ModuleV, rva: u32, name: Seq<char>, source: NameSrc)
    requires
        table::ordered(m.names),
    ensures
        is_named_by(
            table::get(m.names, rva),
            table::get(m.with_name(rva, name, source, false).names, rva),
            name,
            source,
        ),
{
    table::get_after_put(m.names, rva, NameV { name, source, is_static: false }, rva);
}

// ---------------------------------------------------------------------------
// Signatures.

/// A function signature that resolves to code names the function there; one
/// without a value names nothing.
pub proof fn signatures_name_functions(s: NamingV, mi: usize, r: SigResultV)
    requires
        mi < s.mods.len(),
        table::ordered(s.mods[mi as int].names),
        r.sig.kind == Kind::Func,
    ensures
        r.value is None ==> s.with_result((mi, r)) == s,
        r.value matches Some(v) ==> (0 <= v <= u32::MAX ==> {
            let m = s.mods[mi as int].with_functions(seq![v as u32]);
            let t = s.with_result((mi, r));
            &&& table::holds(m.code.funcs, v as u32) ==> is_named_by(
                table::get(s.mods[mi as int].names, v as u32),
                table::get(t.mods[mi as int].names, v as u32),
                r.sig.name,
                NameSrc::Signature,
            )
            &&& !table::holds(m.code.funcs, v as u32) ==> t.mods[mi as int].names == s.mods[mi as int].names
            &&& t.fields == s.fields && t.globals == s.globals
        }),
{
    if let Some(v) = r.value {
        let m = s.mods[mi as int].with_functions(seq![v as u32]);
        assert(m.names == s.mods[mi as int].names);
        offered(m, v as u32, r.sig.name, NameSrc::Signature);
    }
}

/// A field signature gives the offset that it resolves to the name of the
/// field, in the class that the name has before its last part.
pub proof fn signatures_name_fields(s: NamingV, mi: usize, r: SigResultV, v: i64, c: Seq<char>, f: Seq<char>)
    requires
        r.sig.kind == Kind::Field,
        r.value == Some(v),
        i32::MIN <= v <= i32::MAX,
        names::member_parts(r.sig.name) == Some((c, f)),
    ensures
        s.with_result((mi, r)).fields == s.fields.push(
            FieldNameV { class: c, offset: v as i32, name: f, source: NameSrc::Signature },
        ),
        s.with_result((mi, r)).mods == s.mods,
{
}

/// A global signature names the address that it resolves to in its module.
pub proof fn signatures_name_globals(s: NamingV, mi: usize, r: SigResultV, v: i64)
    requires
        r.sig.kind == Kind::Global,
        r.value == Some(v),
        0 <= v <= u32::MAX,
        table::ordered(s.globals),
    ensures
        table::get(s.with_result((mi, r)).globals, (mi, v as u32)) == Some(r.sig.name),
        forall|k: (usize, u32)| k != (mi, v as u32) ==> #[trigger] table::get(s.with_result((mi, r)).globals, k) == table::get(
            s.globals,
            k,
        ),
{
    table::get_after_put(s.globals, (mi, v as u32), r.sig.name, (mi, v as u32));
    assert forall|k: (usize, u32)| k != (mi, v as u32) implies #[trigger] table::get(s.with_result((mi, r)).globals, k)
        == table::get(s.globals, k) by {
        table::get_after_put(s.globals, (mi, v as u32), r.sig.name, k);
    }
}

proof fn selected(all: Seq<SigV>, module: Seq<char>, n: int, k: int)
    requires
        0 <= k < n <= all.len(),
        text::lowered(all[k].module) == text::lowered(module),
    ensures
        dump::sigs_for(all, module, n).contains(all[k]),
    decreases n,
{
    let b = dump::sigs_for(all, module, n - 1);
    let s = dump::sigs_for(all, module, n);
    if k < n - 1 {
        selected(all, module, n - 1, k);
        let i = choose|i: int| 0 <= i < b.len() && b[i] == all[k];
        assert(s[i] == all[k]);
    } else {
        assert(s[b.len() as int] == all[k]);
    }
}

/// Every signature is applied to the module that it names, in whatever case.
pub proof fn signatures_meet_their_module(mods: Seq<ModuleV>, all: Seq<SigV>, n: int, mi: int, k: int)
    requires
        0 <= mi < n <= mods.len() <= usize::MAX,
        0 <= k < all.len(),
        text::lowered(all[k].module) == text::lowered(mods[mi].pe.name),
    ensures
        dump::results_of(mods, all, n).contains((mi as usize, sigs::applied(mods[mi].pe, all[k]))),
    decreases n,
{
    let x = (mi as usize, sigs::applied(mods[mi].pe, all[k]));
    let a = dump::results_of(mods, all, n - 1);
    let b = dump::results_for(mods[n - 1], (n - 1) as usize, all);
    let s = dump::results_of(mods, all, n);
    if mi < n - 1 {
        signatures_meet_their_module(mods, all, n - 1, mi, k);
        let i = choose|i: int| 0 <= i < a.len() && a[i] == x;
        assert(s[i] == x);
    } else {
        selected(all, mods[mi].pe.name, all.len() as int, k);
        let mine = dump::sigs_for(all, mods[mi].pe.name, all.len() as int);
        let i = choose|i: int| 0 <= i < mine.len() && mine[i] == all[k];
        assert(b[i] == x);
        assert(s[a.len() + i] == b[i]);
    }
}

// ---------------------------------------------------------------------------
// Fallback records.

/// A slot record names the function that the slot of the class's vtable leads
/// to, unless that is an import.
pub proof fn slot_records_name_functions(
    s: FallbackV,
    exe: int,
    i: int,
    name: Seq<char>,
    class: Seq<char>,
    vt_off: u32,
    index: usize,
    e: u32,
)
    requires
        0 <= exe < s.naming.mods.len(),
        0 <= i < s.done.len(),
        !s.done[i],
        table::ordered(s.naming.mods[exe].names),
        dump::slot_entry(s.naming.mods[exe], class, vt_off, index) == Some(e),
    ensures
        ({
            let m = s.naming.mods[exe];
            let t = m.resolve_entry(e).0;
            let r = s.with_extra(exe, (ExtraV::VSlot { name, class, vt_off, index }), i);
            &&& m.entry_import(t) is None ==> is_named_by(
                table::get(m.names, t),
                table::get(r.naming.mods[exe].names, t),
                name,
                NameSrc::Signature,
            )
            &&& m.entry_import(t) is Some ==> r.naming == s.naming
            &&& r.done[i]
        }),
{
    let m = s.naming.mods[exe];
    offered(m, m.resolve_entry(e).0, name, NameSrc::Signature);
}

/// The entry of a slot is that of the vtable for the offset, at the index.
pub proof fn slots_are_entries(m: ModuleV, class: Seq<char>, vt_off: u32, index: usize, k: int)
    requires
        table::get(m.rtti.classes, class) matches Some(c) && 0 <= k < c.vtables.len() && c.vtables[k].offset == vt_off && index
            < c.vtables[k].entries.len() && forall|j: int| 0 <= j < k ==> (#[trigger] c.vtables[j]).offset != vt_off,
    ensures
        dump::slot_entry(m, class, vt_off, index) == Some(
            table::get(m.rtti.classes, class).unwrap().vtables[k].entries[index as int],
        ),
{
    let c = table::get(m.rtti.classes, class).unwrap();
    first_vtable(c.vtables, vt_off, 0, k);
}

proof fn first_vtable(vs: Seq<crate::rtti::VtableV>, off: u32, from: int, k: int)
    requires
        0 <= from <= k < vs.len(),
        vs[k].offset == off,
        forall|j: int| from <= j < k ==> (#[trigger] vs[j]).offset != off,
    ensures
        crate::rtti::vtable_from(vs, off, from) == Some(vs[k]),
    decreases k - from,
{
    if from < k {
        first_vtable(vs, off, from + 1, k);
    }
}

/// A relative record places a field at a distance from one that is known, and a
/// difference record at the distance between two.
pub proof fn relative_records_place_fields(
    s: FallbackV,
    exe: int,
    i: int,
    name: Seq<char>,
    anchor: Seq<char>,
    minus: Seq<char>,
    delta: i64,
    c: Seq<char>,
    f: Seq<char>,
    a: i32,
    b: i32,
)
    requires
        0 <= i < s.done.len(),
        !s.done[i],
        table::ordered(s.resolved),
        names::member_parts(name) == Some((c, f)),
        table::get(s.resolved, anchor) == Some(a),
        table::get(s.resolved, minus) == Some(b),
        i32::MIN <= delta <= i32::MAX,
        i32::MIN <= a + delta <= i32::MAX,
        i32::MIN <= a - b <= i32::MAX,
    ensures
        ({
            let r = s.with_extra(exe, (ExtraV::Rel { name, anchor, delta }), i);
            &&& r.naming.fields == s.naming.fields.push(
                FieldNameV { class: c, offset: (a + delta) as i32, name: f, source: NameSrc::Signature },
            )
            &&& table::get(r.resolved, name) == Some((a + delta) as i32)
        }),
        ({
            let r = s.with_extra(exe, (ExtraV::RelSub { name, anchor, minus }), i);
            &&& r.naming.fields == s.naming.fields.push(
                FieldNameV { class: c, offset: (a - b) as i32, name: f, source: NameSrc::Signature },
            )
            &&& table::get(r.resolved, name) == Some((a - b) as i32)
        }),
{
    table::get_after_put(s.resolved, name, (a + delta) as i32, name);
    table::get_after_put(s.resolved, name, (a - b) as i32, name);
}

// ---------------------------------------------------------------------------
// The report.

/// The name of a field is listed at an offset of a class.
pub open spec fn lists_field(t: dump::FieldNames, c: Seq<char>, o: i32, name: Seq<char>) -> bool {
    exists|k: int|
        0 <= k < table::list_at(table::list_at(t, c), o).len() && (#[trigger] table::list_at(table::list_at(t, c), o)[k]).name
            == name
}

pub open spec fn is_tidy(t: dump::FieldNames) -> bool {
    table::ordered(t) && forall|c: Seq<char>| table::ordered(#[trigger] table::list_at(t, c))
}

proof fn field_is_listed(fs: Seq<FieldNameV>, n: int, i: int)
    requires
        0 <= n <= fs.len(),
        0 <= i < fs.len(),
    ensures
        is_tidy(dump::fields_named(fs, n)),
        i < n ==> lists_field(dump::fields_named(fs, n), fs[i].class, fs[i].offset, fs[i].name),
    decreases n,
{
    if n > 0 {
        field_is_listed(fs, n - 1, i);
        let s = dump::fields_named(fs, n - 1);
        let f = fs[n - 1];
        let of_class = table::list_at(s, f.class);
        let old_list = table::list_at(of_class, f.offset);
        let list = dump::with_field_name(old_list, f);
        let inner = table::put(of_class, f.offset, list);
        let t = dump::fields_named(fs, n);
        assert(table::ordered(of_class));
        table::put_ordered(of_class, f.offset, list);
        table::put_ordered(s, f.class, inner);
        table::get_after_put(s, f.class, inner, f.class);
        table::get_after_put(of_class, f.offset, list, f.offset);
        assert forall|c: Seq<char>| table::ordered(#[trigger] table::list_at(t, c)) by {
            table::get_after_put(s, f.class, inner, c);
            assert(table::ordered(table::list_at(s, c)));
        }
        if i < n {
            let g = fs[i];
            table::get_after_put(s, f.class, inner, g.class);
            table::get_after_put(of_class, f.offset, list, g.offset);
            if i < n - 1 {
                let k = choose|k: int|
                    0 <= k < table::list_at(table::list_at(s, g.class), g.offset).len() && (#[trigger] table::list_at(
                        table::list_at(s, g.class),
                        g.offset,
                    )[k]).name == g.name;
                let now = table::list_at(table::list_at(t, g.class), g.offset);
                assert(now[k].name == g.name);
            } else {
                let now = table::list_at(table::list_at(t, g.class), g.offset);
                assert(now == list);
                if dump::is_named(old_list, f.name) {
                    let k = choose|k: int| 0 <= k < old_list.len() && (#[trigger] old_list[k]).name == f.name;
                    assert(now[k].name == g.name);
                } else {
                    assert(now[old_list.len() as int].name == g.name);
                }
            }
        }
    } else {
        let t = dump::fields_named(fs, n);
        assert(t =~= Seq::empty());
        assert forall|c: Seq<char>| table::ordered(#[trigger] table::list_at(t, c)) by {
            assert(!table::holds(t, c));
        }
    }
}

/// Every name that a field is given is listed at its offset of its class.
pub proof fn field_names_are_listed(fs: Seq<FieldNameV>, i: int)
    requires
        0 <= i < fs.len(),
    ensures
        lists_field(dump::fields_named(fs, fs.len() as int), fs[i].class, fs[i].offset, fs[i].name),
{
    field_is_listed(fs, fs.len() as int, i);
}

/// A global that holds a singleton and has no name is named after the class.
pub proof fn singletons_name_globals(
    gs: GlobalNames,
    mi: usize,
    ss: Seq<crate::model::SingletonV>,
    n: int,
    i: int,
    c: Seq<char>,
)
    requires
        table::ordered(gs),
        0 <= i < n <= ss.len(),
        ss[i].class == Some(c),
        table::get(gs, (mi, ss[i].global)) is None,
        forall|j: int| 0 <= j < i ==> (#[trigger] ss[j]).global != ss[i].global,
    ensures
        table::ordered(dump::with_singletons(gs, mi, ss, n)),
        table::get(dump::with_singletons(gs, mi, ss, n), (mi, ss[i].global)) == Some(c + "::s_instance"@),
    decreases n,
{
    let key = (mi, ss[i].global);
    if i < n - 1 {
        singletons_name_globals(gs, mi, ss, n - 1, i, c);
        let s = dump::with_singletons(gs, mi, ss, n - 1);
        if let Some(d) = ss[n - 1].class {
            table::put_ordered(s, (mi, ss[n - 1].global), d + "::s_instance"@);
            table::get_after_put(s, (mi, ss[n - 1].global), d + "::s_instance"@, key);
        }
    } else {
        still_unnamed(gs, mi, ss, n - 1, key);
        let s = dump::with_singletons(gs, mi, ss, n - 1);
        table::put_ordered(s, key, c + "::s_instance"@);
        table::get_after_put(s, key, c + "::s_instance"@, key);
    }
}

proof fn still_unnamed(gs: GlobalNames, mi: usize, ss: Seq<crate::model::SingletonV>, n: int, key: (usize, u32))
    requires
        table::ordered(gs),
        0 <= n <= ss.len(),
        table::get(gs, key) is None,
        forall|j: int| 0 <= j < n ==> (#[trigger] ss[j]).global != key.1,
    ensures
        table::ordered(dump::with_singletons(gs, mi, ss, n)),
        table::get(dump::with_singletons(gs, mi, ss, n), key) is None,
    decreases n,
{
    if n > 0 {
        still_unnamed(gs, mi, ss, n - 1, key);
        let s = dump::with_singletons(gs, mi, ss, n - 1);
        assert(ss[n - 1].global != key.1);
        if let Some(d) = ss[n - 1].class {
            table::put_ordered(s, (mi, ss[n - 1].global), d + "::s_instance"@);
            table::get_after_put(s, (mi, ss[n - 1].global), d + "::s_instance"@, key);
        }
    }
}

// ---------------------------------------------------------------------------
// Lines of the user.

/// A line of a kind, a name and a number is read as those three.
pub proof fn user_lines_are_read(kind: Seq<char>, name: Seq<char>, n: int)
    requires
        kind.len() > 0,
        name.len() > 0,
        forall|k: int| 0 <= k < kind.len() ==> !text::space(#[trigger] kind[k]) && kind[k] != '#',
        forall|k: int| 0 <= k < name.len() ==> !text::space(#[trigger] name[k]) && name[k] != '#',
        0 <= n <= i64::MAX,
    ensures
        dump::user_line(kind + seq![' '] + name + seq![' '] + num::hex(n)) == Some((kind, name, n as i64)),
{
    let h = num::hex(n);
    let s = kind + seq![' '] + name + seq![' '] + h;
    let a = kind.len() as int;
    let b = a + 1 + name.len();
    let m = s.len() as int;
    num::digits_value(n, 16);
    let d = num::digits(n, 16);
    reveal_strlit("0x");
    assert forall|k: int| 0 <= k < h.len() implies !text::space(#[trigger] h[k]) && h[k] != '#' by {
        if k >= 2 {
            assert(h[k] == d[k - 2]);
            assert(num::digit(d[k - 2], 16) is Some);
        }
    }
    assert forall|k: int| 0 <= k < a implies !text::space(#[trigger] s[k]) && s[k] != '#' by {
        assert(s[k] == kind[k]);
    }
    assert forall|k: int| a + 1 <= k < b implies !text::space(#[trigger] s[k]) && s[k] != '#' by {
        assert(s[k] == name[k - a - 1]);
    }
    assert forall|k: int| b + 1 <= k < m implies !text::space(#[trigger] s[k]) && s[k] != '#' by {
        assert(s[k] == h[k - b - 1]);
    }
    assert(s[a] == ' ' && s[b] == ' ');
    unmarked(s, 0);
    grammar::trimming_keeps_the_middle(s, 0, m);
    assert(s.subrange(0, m) =~= s);
    grammar::first_words_stand_first(s, 0, 0, a);
    grammar::first_words_stand_first(s, a, a + 1, b);
    grammar::first_words_stand_first(s, b, b + 1, m);
    assert(text::words_from(s, m) =~= Seq::empty());
    assert(s.subrange(0, a) =~= kind);
    assert(s.subrange(a + 1, b) =~= name);
    assert(s.subrange(b + 1, m) =~= h);
    let w = text::words(s);
    assert(w =~= seq![kind, name, h]);
    grammar::hexadecimal_is_read(n);
}

proof fn unmarked(s: Seq<char>, from: int)
    requires
        0 <= from,
        forall|k: int| from <= k < s.len() ==> #[trigger] s[k] != '#',
    ensures
        text::index_from(s, '#', from) is None,
    decreases s.len() - from,
{
    if from < s.len() {
        unmarked(s, from + 1);
    }
}

} // verus!
