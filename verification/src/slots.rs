//! What the names of vtable slots say of the functions in them: whose name a
//! function takes among several, and what wins over what.

use vstd::prelude::*;

use crate::model::ModuleV;
use crate::names;
use crate::table;
use crate::world;
use crate::world::WorldV;

verus! {

/// Name `i` belongs to class `o`, which is the class or one of its ancestors.
pub open spec fn belongs(w: WorldV, cands: Seq<Seq<char>>, class: Seq<char>, i: int, o: Seq<char>) -> bool {
    &&& 0 <= i < cands.len()
    &&& names::scope_of(cands[i]) == Some(o)
    &&& o == class || (table::get(w.classes, class) matches Some(c) && exists|k: int|
        0 <= k < c.all_bases.len() && (#[trigger] c.all_bases[k]).name == o)
}

/// How many classes a class derives from.
pub open spec fn bases_of(w: WorldV, o: Seq<char>) -> nat {
    match table::get(w.classes, o) {
        Some(c) => c.all_bases.len(),
        None => 0,
    }
}

/// Of several names a function goes by the one of the most derived class that
/// the object has, the later of two equals; by none if no name belongs to a
/// class of the object.
pub proof fn functions_go_by_the_most_derived(w: WorldV, cands: Seq<Seq<char>>, class: Seq<char>, n: int)
    requires
        0 <= n <= cands.len(),
    ensures
        match world::best_name(w, cands, class, n) {
            None => forall|j: int, p: Seq<char>| #[trigger] belongs(w, cands, class, j, p) ==> j >= n,
            Some(x) => exists|i: int, o: Seq<char>| #[trigger]
                belongs(w, cands, class, i, o) && i < n && cands[i] == x && forall|j: int, p: Seq<char>| #[trigger]
                    belongs(w, cands, class, j, p) && j < n ==> bases_of(w, p) <= bases_of(w, o) && (j > i ==> bases_of(w, p)
                        < bases_of(w, o)),
        },
    decreases n,
{
    if n > 0 {
        functions_go_by_the_most_derived(w, cands, class, n - 1);
        let b = world::best_name(w, cands, class, n - 1);
        let r = world::best_name(w, cands, class, n);
        let s = names::scope_of(cands[n - 1]);
        if let Some(o) = s {
            assert(w.is_ancestor(o, class) <==> belongs(w, cands, class, n - 1, o));
            assert(forall|p: Seq<char>| #[trigger] belongs(w, cands, class, n - 1, p) ==> p == o);
        }
        if let Some(x) = b {
            let (i, o) = choose|i: int, o: Seq<char>| #[trigger]
                belongs(w, cands, class, i, o) && i < n - 1 && cands[i] == x && forall|j: int, p: Seq<char>| #[trigger]
                    belongs(w, cands, class, j, p) && j < n - 1 ==> bases_of(w, p) <= bases_of(w, o) && (j > i ==> bases_of(w, p)
                        < bases_of(w, o));
            assert(world::scope_or_empty(x) == o);
            if r == Some(x) && (s is None || !belongs(w, cands, class, n - 1, s.unwrap()) || bases_of(w, s.unwrap()) < bases_of(w, o)) {
                assert(belongs(w, cands, class, i, o) && i < n && cands[i] == x);
            } else {
                assert(belongs(w, cands, class, n - 1, s.unwrap()));
            }
        } else if r is Some {
            assert(belongs(w, cands, class, n - 1, s.unwrap()));
        }
    }
}

/// A slot that a record names has that name, and is the class's own.
pub proof fn recorded_slots_keep_their_name(w: WorldV, mi: int, class: Seq<char>, off: u32, slot: usize, entry: u32)
    requires
        0 <= mi < w.modules.len(),
    ensures
        table::get(w.modules[mi].slot_names, (class, off, slot)) matches Some(n) ==> w.slot_name(mi, class, off, slot, entry) == (
            n,
            None::<Seq<char>>,
        ),
{
}

/// A slot that no record names and that holds a deleting destructor is the
/// destructor of the class whose vtable it is, whoever's code it runs.
pub proof fn destructors_are_of_the_class(w: WorldV, mi: int, class: Seq<char>, off: u32, slot: usize, entry: u32)
    requires
        0 <= mi < w.modules.len(),
        table::get(w.modules[mi].slot_names, (class, off, slot)) is None,
        table::holds(w.modules[mi].scalar_dtors, w.modules[mi].resolve_entry(entry).0),
    ensures
        ({
            let (name, from) = w.slot_name(mi, class, off, slot, entry);
            &&& from is None
            &&& name.len() == class.len() + 3 + names::unqualified_text(class).len()
            &&& name.subrange(0, class.len() as int) == class
            &&& name[class.len() as int] == ':' && name[class.len() as int + 1] == ':' && name[class.len() as int + 2] == '~'
            &&& name.skip(class.len() as int + 3) == names::unqualified_text(class)
        }),
{
    reveal_strlit("::~");
    let (name, _from) = w.slot_name(mi, class, off, slot, entry);
    assert(name.subrange(0, class.len() as int) =~= class);
    assert(name.skip(class.len() as int + 3) =~= names::unqualified_text(class));
}

/// A slot that nothing names is named for the class that owns its code, if
/// that is an ancestor, and else for the class itself; if no class of the chain
/// knows the method, by its number.
pub proof fn unnamed_slots_are_numbered(w: WorldV, m: ModuleV, class: Seq<char>, off: u32, slot: usize, target: u32)
    requires
        w.chain_method(w.chain_at(class, off), slot, 0) is None,
        table::get(m.names, target) is None,
    ensures
        ({
            let (name, from) = w.inferred_slot(m, class, off, slot, target);
            let whose = match from {
                Some(o) => o,
                None => class,
            };
            &&& name == whose + seq![':', ':', 'v', 'f', 'u', 'n', 'c', '_'] + crate::num::dec(slot as int)
            &&& from matches Some(o) ==> o != class && table::get(m.owner, target) is Some && table::get(m.owner, target).unwrap().class
                == o && (table::get(w.classes, class) matches Some(c) && exists|k: int|
                0 <= k < c.all_bases.len() && (#[trigger] c.all_bases[k]).name == o)
            &&& from is None && table::get(m.owner, target) is Some && table::get(m.owner, target).unwrap().class != class
                && table::get(w.classes, class) is Some ==> forall|k: int|
                0 <= k < table::get(w.classes, class).unwrap().all_bases.len() ==> (#[trigger] table::get(
                    w.classes,
                    class,
                ).unwrap().all_bases[k]).name != table::get(m.owner, target).unwrap().class
        }),
{
    reveal_strlit("::");
    reveal_strlit("vfunc_");
    let (name, from) = w.inferred_slot(m, class, off, slot, target);
    let whose = match from {
        Some(o) => o,
        None => class,
    };
    assert(name =~= whose + seq![':', ':', 'v', 'f', 'u', 'n', 'c', '_'] + crate::num::dec(slot as int));
}

/// The bases that share an offset with a subobject are those of the class that
/// lie there and are not virtual.
pub proof fn subobjects_hold_their_bases(bases: Seq<crate::rtti::BaseClassV>, off: u32, n: int, b: crate::rtti::BaseClassV)
    requires
        0 <= n <= bases.len(),
        off < 0x8000_0000,
    ensures
        world::bases_at(bases, off, n).contains(b) <==> b.mdisp == off && b.pdisp == -1 && exists|k: int|
            0 <= k < n && #[trigger] bases[k] == b,
    decreases n,
{
    if n > 0 {
        subobjects_hold_their_bases(bases, off, n - 1, b);
        let s = world::bases_at(bases, off, n - 1);
        let x = bases[n - 1];
        let d = x.mdisp;
        assert(off < 0x8000_0000 ==> (d as u32 == off <==> d == off as i32)) by (bit_vector);
        crate::heirs::pushed_lists(s, x, b);
        if exists|k: int| 0 <= k < n && #[trigger] bases[k] == b {
            let k = choose|k: int| 0 <= k < n && #[trigger] bases[k] == b;
            if k < n - 1 {
                assert(0 <= k < n - 1 && bases[k] == b);
            }
        }
        assert(bases[n - 1] == x);
    } else {
        assert(world::bases_at(bases, off, n) =~= Seq::empty());
    }
}

} // verus!
