//! What bindings say of a binary: names for its functions, and whether the
//! layout of a class has the size that was measured.

use vstd::prelude::*;

use crate::bindings;
use crate::bindings::Bindings;
use crate::bindings::BindingsV;
use crate::bindings::BroFunctionV;
use crate::dump::scoped;
use crate::dump::scoped_name;
use crate::dump::Report;
use crate::layout::Facts;
use crate::layout::Layout;
use crate::layout::LayoutCtx;
use crate::layout::LayoutV;
use crate::layout::Memo;
use crate::model::Module;
use crate::model::ModuleV;
use crate::model::NameSrc;
use crate::rtti::BaseClass;
use crate::rtti::BaseClassV;
use crate::table;
use crate::table::Table;
use crate::world::World;
use crate::world::WorldV;

verus! {

/// A module with the names of the first `n` declared functions whose addresses
/// are in its function table, and how many there are.
pub open spec fn functions_named(m: ModuleV, fs: Seq<BroFunctionV>, n: int) -> (ModuleV, nat)
    decreases n,
{
    if n <= 0 {
        (m, 0)
    } else {
        let (s, count) = functions_named(m, fs, n - 1);
        let f = fs[n - 1];
        match f.win {
            Some(a) => if table::holds(s.code.funcs, a) {
                (s.with_name(a, scoped(f.class, f.name), NameSrc::Bindings, f.is_static), count + 1)
            } else {
                (s, count)
            },
            None => (s, count),
        }
    }
}

impl BindingsV {
    /// The declared functions, class by class.
    pub open spec fn functions(self) -> Seq<BroFunctionV> {
        bindings::functions_of(self.classes, self.classes.len() as int)
    }
}

/// Names the functions of a module at the addresses that bindings give for
/// Windows, where its function table has them.
pub fn name_functions(m: &mut Module, b: &Bindings) -> (r: usize)
    ensures
        (final(m).deep_view(), r as nat) == functions_named(
            old(m).deep_view(),
            b.deep_view().functions(),
            b.deep_view().functions().len() as int,
        ),
{
    let ghost m0 = m.deep_view();
    let fs = b.functions();
    let ghost v = fs.deep_view();
    let mut count: usize = 0;
    let mut i: usize = 0;
    while i < fs.len()
        invariant
            v == fs.deep_view(),
            i <= fs@.len(),
            count <= i,
            (m.deep_view(), count as nat) == functions_named(m0, v, i as int),
        decreases fs@.len() - i,
    {
        let f = fs[i];
        assert(f.deep_view() == v[i as int]);
        if let Some(a) = f.win {
            if m.code.funcs.contains(&a) {
                m.set_name(a, scoped_name(f.class.as_str(), f.name.as_str()), NameSrc::Bindings, f.is_static);
                count += 1;
            }
        }
        i += 1;
    }
    count
}

/// How the computed size of a class compares with the measured one.
#[derive(Clone, Copy, Debug, PartialEq, Eq, Structural)]
pub enum LayoutStatus {
    Verified { size: u64 },
    Mismatch { computed: u64, measured: u64 },
    Incomplete,
}

impl LayoutV {
    pub open spec fn status(self, measured: Option<u64>) -> LayoutStatus {
        match measured {
            Some(m) => if self.error is Some {
                LayoutStatus::Incomplete
            } else if self.end == m {
                LayoutStatus::Verified { size: m }
            } else {
                LayoutStatus::Mismatch { computed: self.end, measured: m }
            },
            None => LayoutStatus::Incomplete,
        }
    }
}

impl Layout {
    pub fn status(&self, measured: Option<u64>) -> (r: LayoutStatus)
        ensures
            r == self.deep_view().status(measured),
    {
        match measured {
            Some(m) => if self.error.is_some() {
                LayoutStatus::Incomplete
            } else if self.end == m {
                LayoutStatus::Verified { size: m }
            } else {
                LayoutStatus::Mismatch { computed: self.end, measured: m }
            },
            None => LayoutStatus::Incomplete,
        }
    }
}

/// Measured sizes of the first `n` classes of a program.
pub open spec fn measured_sizes(w: WorldV, n: int) -> Seq<(Seq<char>, u64)>
    decreases n,
{
    if n <= 0 {
        Seq::empty()
    } else {
        let s = measured_sizes(w, n - 1);
        match w.classes[n - 1].1.size {
            Some(size) => table::put(s, w.classes[n - 1].0, size),
            None => s,
        }
    }
}

/// Names and offsets of bases.
pub open spec fn placed_bases(bases: Seq<BaseClassV>) -> Seq<(Seq<char>, i32)> {
    Seq::new(bases.len(), |i: int| (bases[i].name, bases[i].mdisp))
}

/// Direct bases of those of the first `n` classes of a program whose hierarchy
/// is known.
pub open spec fn known_bases(w: WorldV, n: int) -> Seq<(Seq<char>, Seq<(Seq<char>, i32)>)>
    decreases n,
{
    if n <= 0 {
        Seq::empty()
    } else {
        let s = known_bases(w, n - 1);
        let (name, c) = w.classes[n - 1];
        if c.has_chd {
            table::put(s, name, placed_bases(c.direct_bases))
        } else {
            s
        }
    }
}

/// What the layouts of declared classes of a program are computed from.
pub open spec fn facts_of(w: WorldV, b: BindingsV) -> Facts {
    let n = w.classes.len() as int;
    Facts { bro: b, measured: measured_sizes(w, n), rtti_bases: known_bases(w, n) }
}

/// How many of the first `n` declared classes have the size that was measured,
/// and the memo after that.
pub open spec fn verified_in(f: Facts, n: int) -> (nat, Memo)
    decreases n,
{
    if n <= 0 {
        (0, Seq::empty())
    } else {
        let (count, memo) = verified_in(f, n - 1);
        let name = f.bro.classes[n - 1].0;
        let (l, m) = f.layout_in(memo, name, f.depth());
        (
            if l.status(table::get(f.measured, name)) is Verified {
                count + 1
            } else {
                count
            },
            m,
        )
    }
}

fn copy_bases(bases: &Vec<BaseClass>) -> (r: Vec<(String, i32)>)
    ensures
        r.deep_view() == placed_bases(bases.deep_view()),
{
    let ghost v = bases.deep_view();
    let ghost all = placed_bases(v);
    let mut out: Vec<(String, i32)> = Vec::new();
    let mut i: usize = 0;
    assert(out.deep_view() =~= all.take(0));
    while i < bases.len()
        invariant
            v == bases.deep_view(),
            all == placed_bases(v),
            i <= bases@.len(),
            out.deep_view() == all.take(i as int),
        decreases bases@.len() - i,
    {
        assert(bases@[i as int].deep_view() == v[i as int]);
        let ghost before = out.deep_view();
        out.push((bases[i].name.clone(), bases[i].mdisp));
        i += 1;
        assert(out.deep_view() =~= before.push(all[i - 1]));
        assert(all.take(i as int) =~= before.push(all[i - 1]));
    }
    assert(all.take(i as int) =~= all);
    out
}

fn collect_facts(w: &World) -> (r: (Table<String, u64>, Table<String, Vec<(String, i32)>>))
    ensures
        r.0.deep_view() == measured_sizes(w.deep_view(), w.deep_view().classes.len() as int),
        r.1.deep_view() == known_bases(w.deep_view(), w.deep_view().classes.len() as int),
{
    let ghost wv = w.deep_view();
    let mut measured: Table<String, u64> = Table::new();
    let mut bases: Table<String, Vec<(String, i32)>> = Table::new();
    let mut i: usize = 0;
    while i < w.classes.len()
        invariant
            wv == w.deep_view(),
            i <= wv.classes.len(),
            measured.deep_view() == measured_sizes(wv, i as int),
            bases.deep_view() == known_bases(wv, i as int),
        decreases wv.classes.len() - i,
    {
        let name = w.classes.key_at(i);
        let c = w.classes.value_at(i);
        assert((name@, c.deep_view()) == wv.classes[i as int]);
        if let Some(s) = c.size {
            measured.insert(name.clone(), s);
        }
        if c.has_chd {
            bases.insert(name.clone(), copy_bases(&c.direct_bases));
        }
        i += 1;
    }
    (measured, bases)
}

/// How many declared classes have the size that was measured in a report.
pub fn verified_layouts(r: &Report, b: &Bindings) -> (n: usize)
    ensures
        n as nat == verified_in(
            facts_of(r.deep_view().world, b.deep_view()),
            b.deep_view().classes.len() as int,
        ).0,
{
    let ghost f = facts_of(r.deep_view().world, b.deep_view());
    let (measured, bases) = collect_facts(&r.world);
    let mut ctx = LayoutCtx { bro: b, measured: &measured, rtti_bases: &bases, cache: Table::new() };
    let mut count: usize = 0;
    let mut i: usize = 0;
    assert(ctx.facts() == f);
    while i < b.classes.len()
        invariant
            f.bro == b.deep_view(),
            f.measured == measured.deep_view(),
            ctx.facts() == f,
            i <= f.bro.classes.len(),
            count <= i,
            (count as nat, ctx.memo()) == verified_in(f, i as int),
        decreases f.bro.classes.len() - i,
    {
        let name = b.classes.key_at(i);
        assert(name@ == f.bro.classes[i as int].0);
        let size = match measured.get(name) {
            Some(s) => Some(*s),
            None => None,
        };
        let l = ctx.layout(name.as_str());
        if let LayoutStatus::Verified { .. } = l.status(size) {
            count += 1;
        }
        i += 1;
    }
    count
}

} // verus!
