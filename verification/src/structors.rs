//! Allocators and deleters, constructors and destructors, class sizes and
//! singletons, found from the facts about the functions of a module.

use vstd::prelude::*;
use vstd::string::StringExecFns;

use crate::analysis;
use crate::analysis::{Allocation, CallSite, FuncFacts, FuncFactsV, GlobalStore, Target, Val, VtStore};
use crate::model;
use crate::model::{Module, ModuleV, NameSrc, Observed, Singleton, SingletonV, SizeInfo, SizeInfoV};
use crate::names;
use crate::pe::{Pe, PeError, PeV};
use crate::rtti::ClassV;
use crate::table;
use crate::table::{Key, Ordered, Table};
use crate::text;

verus! {

// ---------------------------------------------------------------------------
// Votes.

/// The highest count among the first `n`.
pub open spec fn max_votes<A>(votes: Seq<(A, usize)>, n: int) -> usize
    decreases n,
{
    if n <= 0 {
        0
    } else {
        let m = max_votes(votes, n - 1);
        if votes[n - 1].1 > m {
            votes[n - 1].1
        } else {
            m
        }
    }
}

/// Enough votes to be believed: three at least, and a quarter of the most.
pub open spec fn enough(n: usize, max: usize) -> bool {
    n >= 3 && n * 4 >= max
}

/// Those of the first `n` keys with enough votes, by their votes, most first,
/// then by key.
pub open spec fn ranked<A: Ordered>(votes: Seq<(A, usize)>, max: usize, n: int) -> Seq<((usize, A), ())>
    decreases n,
{
    if n <= 0 {
        Seq::empty()
    } else {
        let s = ranked(votes, max, n - 1);
        let (k, v) = votes[n - 1];
        if enough(v, max) {
            table::put(s, ((usize::MAX - v) as usize, k), ())
        } else {
            s
        }
    }
}

/// The keys with enough votes and their votes, most first, then by key.
pub open spec fn top<A: Ordered>(votes: Seq<(A, usize)>) -> Seq<(A, usize)> {
    let r = ranked(votes, max_votes(votes, votes.len() as int), votes.len() as int);
    Seq::new(r.len(), |i: int| (r[i].0.1, (usize::MAX - r[i].0.0) as usize))
}

/// Model of counted keys.
pub open spec fn counted<K: Key>(v: Seq<(K, usize)>) -> Seq<(K::O, usize)> {
    Seq::new(v.len(), |i: int| (v[i].0.key(), v[i].1))
}

pub fn top_votes<K: Key + Copy>(votes: &Table<K, usize>) -> (r: Vec<(K, usize)>)
    ensures
        counted(r@) == top(votes.deep_view()),
{
    let ghost vs = votes.deep_view();
    let mut max: usize = 0;
    let mut i: usize = 0;
    while i < votes.len()
        invariant
            vs == votes.deep_view(),
            i <= vs.len(),
            max == max_votes(vs, i as int),
        decreases vs.len() - i,
    {
        let n = *votes.value_at(i);
        if n > max {
            max = n;
        }
        i += 1;
    }
    let mut order: Table<(usize, K), ()> = Table::new();
    i = 0;
    while i < votes.len()
        invariant
            vs == votes.deep_view(),
            i <= vs.len(),
            order.deep_view() == ranked(vs, max, i as int),
        decreases vs.len() - i,
    {
        let n = *votes.value_at(i);
        let k = *votes.key_at(i);
        if n >= 3 && n as u128 * 4 >= max as u128 {
            order.insert((usize::MAX - n, k), ());
        }
        i += 1;
    }
    let mut out: Vec<(K, usize)> = Vec::new();
    let ghost all = top(vs);
    i = 0;
    assert(counted(out@) =~= all.take(0));
    while i < order.len()
        invariant
            all.len() == order.deep_view().len(),
            all == Seq::new(
                order.deep_view().len(),
                |j: int| (order.deep_view()[j].0.1, (usize::MAX - order.deep_view()[j].0.0) as usize),
            ),
            i <= order.deep_view().len(),
            counted(out@) == all.take(i as int),
        decreases order.deep_view().len() - i,
    {
        let ghost before = counted(out@);
        let row = order.key_at(i);
        let k = row.1;
        let n = usize::MAX - row.0;
        out.push((k, n));
        proof {
            assert(counted(out@) =~= before.push((k.key(), n)));
            assert(all.take(i + 1) =~= all.take(i as int).push(all[i as int]));
        }
        i += 1;
    }
    assert(all.take(i as int) =~= all);
    out
}

/// A key is one of those listed.
pub open spec fn listed<A>(list: Seq<(A, usize)>, k: A) -> bool {
    exists|i: int| 0 <= i < list.len() && (#[trigger] list[i]).0 == k
}

pub(crate) fn lists_target(list: &Vec<(Target, usize)>, k: Target) -> (r: bool)
    ensures
        r == listed(list@, k),
{
    let mut i: usize = 0;
    while i < list.len()
        invariant
            i <= list@.len(),
            forall|j: int| 0 <= j < i ==> (#[trigger] list@[j]).0 != k,
        decreases list@.len() - i,
    {
        if list[i].0 == k {
            assert(list@[i as int].0 == k);
            return true;
        }
        i += 1;
    }
    false
}

pub(crate) fn lists_address(list: &Vec<(u32, usize)>, k: u32) -> (r: bool)
    ensures
        r == listed(list@, k),
{
    let mut i: usize = 0;
    while i < list.len()
        invariant
            i <= list@.len(),
            forall|j: int| 0 <= j < i ==> (#[trigger] list@[j]).0 != k,
        decreases list@.len() - i,
    {
        if list[i].0 == k {
            assert(list@[i as int].0 == k);
            return true;
        }
        i += 1;
    }
    false
}

// ---------------------------------------------------------------------------
// operator delete: called as (this, const size) from functions that test bit 0
// of the flags argument (scalar deleting dtors).

/// The entries of the primary vtables of the first `n` classes.
pub open spec fn primary_entries(cs: Seq<(Seq<char>, ClassV)>, n: int) -> Seq<(u32, ())>
    decreases n,
{
    if n <= 0 {
        Seq::empty()
    } else {
        let s = primary_entries(cs, n - 1);
        match cs[n - 1].1.primary_vtable() {
            Some(v) => analysis::with_all(s, v.entries, v.entries.len() as int),
            None => s,
        }
    }
}

/// A call that looks like `operator delete(this, size)`.
pub open spec fn is_delete(c: CallSite) -> bool {
    (c.target is Direct || c.target is Import) && c.rcx == Val::This(0) && match c.rdx {
        Val::Const(n) => 8 <= n && n <= 0x100000,
        _ => false,
    }
}

fn looks_like_delete(c: &CallSite) -> (r: bool)
    ensures
        r == is_delete(*c),
{
    let known = match c.target {
        Target::Direct(_) => true,
        Target::Import(_) => true,
        _ => false,
    };
    known && c.rcx == Val::This(0) && match c.rdx {
        Val::Const(n) => 8 <= n && n <= 0x100000,
        _ => false,
    }
}

/// The votes with those of the first `n` calls of a deleting destructor.
pub open spec fn delete_votes_in(votes: Seq<(Target, usize)>, calls: Seq<CallSite>, n: int) -> Seq<(Target, usize)>
    decreases n,
{
    if n <= 0 {
        votes
    } else {
        let s = delete_votes_in(votes, calls, n - 1);
        if is_delete(calls[n - 1]) {
            table::with_vote(s, calls[n - 1].target)
        } else {
            s
        }
    }
}

/// The votes of the first `n` vtable entries.
pub open spec fn delete_votes(m: ModuleV, entries: Seq<(u32, ())>, n: int) -> Seq<(Target, usize)>
    decreases n,
{
    if n <= 0 {
        Seq::empty()
    } else {
        let s = delete_votes(m, entries, n - 1);
        match m.func(m.resolve_entry(entries[n - 1].0).0) {
            Some(f) => if f.tests_arg_bit {
                delete_votes_in(s, f.calls, f.calls.len() as int)
            } else {
                s
            },
            None => s,
        }
    }
}

/// The votes of the stores of vtables into the first bytes of allocations.
pub open spec fn new_votes_in(
    votes: Seq<(u32, usize)>,
    allocs: Seq<Allocation>,
    stores: Seq<VtStore>,
    n: int,
) -> Seq<(u32, usize)>
    decreases n,
{
    if n <= 0 {
        votes
    } else {
        let s = new_votes_in(votes, allocs, stores, n - 1);
        match stores[n - 1].dst {
            Val::Alloc(id, o) => if o == 0 && id < allocs.len() {
                table::with_vote(s, allocs[id as int].allocator)
            } else {
                s
            },
            _ => s,
        }
    }
}

/// operator new: its result receives a vtable store. The votes of the first
/// `n` functions.
pub open spec fn new_votes(fs: Seq<(u32, FuncFactsV)>, n: int) -> Seq<(u32, usize)>
    decreases n,
{
    if n <= 0 {
        Seq::empty()
    } else {
        let f = fs[n - 1].1;
        new_votes_in(new_votes(fs, n - 1), f.allocs, f.vt_stores, f.vt_stores.len() as int)
    }
}

impl ModuleV {
    pub open spec fn deleters_found(self) -> Seq<(Target, usize)> {
        let entries = primary_entries(self.rtti.classes, self.rtti.classes.len() as int);
        top(delete_votes(self, entries, entries.len() as int))
    }

    pub open spec fn allocators_found(self) -> Seq<(u32, usize)> {
        top(new_votes(self.code.funcs, self.code.funcs.len() as int))
    }
}

impl Module {
    fn find_deleters(&self) -> (r: Vec<(Target, usize)>)
        ensures
            r@ == self.deep_view().deleters_found(),
    {
        let ghost m = self.deep_view();
        let ghost cs = m.rtti.classes;
        let mut entries: Table<u32, ()> = Table::new();
        let mut i: usize = 0;
        while i < self.rtti.classes.len()
            invariant
                cs == self.rtti.classes.deep_view(),
                i <= cs.len(),
                entries.deep_view() == primary_entries(cs, i as int),
            decreases cs.len() - i,
        {
            if let Some(v) = self.rtti.classes.value_at(i).primary_vtable() {
                model::insert_all(&mut entries, &v.entries);
            }
            i += 1;
        }
        let mut votes: Table<Target, usize> = Table::new();
        i = 0;
        while i < entries.len()
            invariant
                m == self.deep_view(),
                i <= entries.deep_view().len(),
                votes.deep_view() == delete_votes(m, entries.deep_view(), i as int),
            decreases entries.deep_view().len() - i,
        {
            let (t, _) = self.resolve_entry(*entries.key_at(i));
            if let Some(f) = self.func(t) {
                if f.tests_arg_bit {
                    let ghost before = votes.deep_view();
                    let mut k: usize = 0;
                    while k < f.calls.len()
                        invariant
                            k <= f.calls@.len(),
                            votes.deep_view() == delete_votes_in(before, f.calls@, k as int),
                        decreases f.calls@.len() - k,
                    {
                        if looks_like_delete(&f.calls[k]) {
                            table::vote(&mut votes, f.calls[k].target);
                        }
                        k += 1;
                    }
                }
            }
            i += 1;
        }
        let r = top_votes(&votes);
        assert(counted(r@) =~= r@);
        r
    }

    fn find_allocators(&self) -> (r: Vec<(u32, usize)>)
        ensures
            r@ == self.deep_view().allocators_found(),
    {
        let ghost fs = self.deep_view().code.funcs;
        let mut votes: Table<u32, usize> = Table::new();
        let mut i: usize = 0;
        while i < self.code.funcs.len()
            invariant
                fs == self.code.funcs.deep_view(),
                i <= fs.len(),
                votes.deep_view() == new_votes(fs, i as int),
            decreases fs.len() - i,
        {
            let f = self.code.funcs.value_at(i);
            let ghost before = votes.deep_view();
            let mut k: usize = 0;
            while k < f.vt_stores.len()
                invariant
                    k <= f.vt_stores@.len(),
                    votes.deep_view() == new_votes_in(before, f.allocs@, f.vt_stores@, k as int),
                decreases f.vt_stores@.len() - k,
            {
                if let Val::Alloc(id, 0) = f.vt_stores[k].dst {
                    if (id as usize) < f.allocs.len() {
                        table::vote(&mut votes, f.allocs[id as usize].allocator);
                    }
                }
                k += 1;
            }
            i += 1;
        }
        let r = top_votes(&votes);
        assert(counted(r@) =~= r@);
        r
    }
}

// ---------------------------------------------------------------------------
// Scalar deleting destructors + sized delete => exact sizeof.

/// Sizes observed by class.
pub type Sizes = Seq<(Seq<char>, Seq<(u64, (usize, Seq<char>))>)>;

/// The observations with one more of a size, by a sized delete.
pub open spec fn saw_delete(obs: Sizes, cls: Seq<char>, size: u64) -> Sizes {
    let o = table::list_at(obs, cls);
    let n = match table::get(o, size) {
        Some(e) => e.0,
        None => 0,
    };
    table::put(obs, cls, table::put(o, size, (n.wrapping_add(1), "sized delete"@)))
}

/// The observations with one more of a size, by an allocation.
pub open spec fn saw_new(obs: Sizes, cls: Seq<char>, size: u64) -> Sizes {
    let o = table::list_at(obs, cls);
    let (n, src) = match table::get(o, size) {
        Some(e) => e,
        None => (0, "operator new"@),
    };
    table::put(obs, cls, table::put(o, size, (n.wrapping_add(1), src)))
}

fn record_delete(obs: &mut Table<String, Observed>, cls: &String, size: u64)
    ensures
        final(obs).deep_view() == saw_delete(old(obs).deep_view(), cls@, size),
{
    let mut o: Observed = match obs.take(cls) {
        Some(o) => o,
        None => Table::new(),
    };
    let n: usize = match o.get(&size) {
        Some(e) => e.0,
        None => 0,
    };
    o.insert(size, (n.wrapping_add(1), "sized delete"));
    obs.insert(cls.clone(), o);
}

fn record_new(obs: &mut Table<String, Observed>, cls: &String, size: u64)
    ensures
        final(obs).deep_view() == saw_new(old(obs).deep_view(), cls@, size),
{
    let mut o: Observed = match obs.take(cls) {
        Some(o) => o,
        None => Table::new(),
    };
    let (n, src): (usize, &'static str) = match o.get(&size) {
        Some(e) => (e.0, e.1),
        None => (0, "operator new"),
    };
    o.insert(size, (n.wrapping_add(1), src));
    obs.insert(cls.clone(), o);
}

/// The size that the first call from `i` on hands to a deleter with `this`.
pub open spec fn deleted_size(calls: Seq<CallSite>, deleters: Seq<(Target, usize)>, i: int) -> Option<u64>
    decreases calls.len() - i,
{
    if i < 0 || i >= calls.len() {
        None
    } else {
        match (calls[i].rcx, calls[i].rdx) {
            (Val::This(o), Val::Const(n)) => if o == 0 && listed(deleters, calls[i].target) {
                Some(n)
            } else {
                deleted_size(calls, deleters, i + 1)
            },
            _ => deleted_size(calls, deleters, i + 1),
        }
    }
}

/// The function of the first call from `i` on that gets `this` and is no deleter.
pub open spec fn inner_dtor(calls: Seq<CallSite>, deleters: Seq<(Target, usize)>, i: int) -> Option<u32>
    decreases calls.len() - i,
{
    if i < 0 || i >= calls.len() {
        None
    } else {
        match calls[i].target {
            Target::Direct(d) => if calls[i].rcx == Val::This(0) && !listed(deleters, calls[i].target) {
                Some(d)
            } else {
                inner_dtor(calls, deleters, i + 1)
            },
            _ => inner_dtor(calls, deleters, i + 1),
        }
    }
}

/// A vtable is stored into `this`.
pub open spec fn stores_own_vtable(f: FuncFactsV) -> bool {
    exists|i: int| 0 <= i < f.vt_stores.len() && (#[trigger] f.vt_stores[i]).dst == Val::This(0)
}

/// The first deleting destructor among the entries from `i` on, and the size
/// it deletes.
pub open spec fn deleting_dtor(m: ModuleV, entries: Seq<u32>, i: int) -> Option<(u32, u64)>
    decreases entries.len() - i,
{
    if i < 0 || i >= entries.len() {
        None
    } else {
        let (t, delta) = m.resolve_entry(entries[i]);
        let size = match m.func(t) {
            Some(f) => if delta == 0 && f.tests_arg_bit {
                deleted_size(f.calls, m.deleters, 0)
            } else {
                None
            },
            None => None,
        };
        match size {
            Some(n) => Some((t, n)),
            None => deleting_dtor(m, entries, i + 1),
        }
    }
}

/// Destructors and sizes.
pub ghost struct Dtors {
    pub scalar: Seq<(u32, Seq<char>)>,
    pub inner: Seq<(u32, Seq<char>)>,
    pub sizes: Sizes,
}

/// What the deleting destructor of a class shows.
pub open spec fn with_dtor(m: ModuleV, d: Dtors, c: ClassV) -> Dtors {
    match c.primary_vtable() {
        None => d,
        Some(v) => match deleting_dtor(m, v.entries, 0) {
            None => d,
            Some((t, size)) => Dtors {
                scalar: table::put(d.scalar, t, c.name),
                inner: match m.func(t) {
                    Some(f) => if stores_own_vtable(f) {
                        d.inner
                    } else {
                        match inner_dtor(f.calls, m.deleters, 0) {
                            Some(i) => table::put(d.inner, i, c.name),
                            None => d.inner,
                        }
                    },
                    None => d.inner,
                },
                sizes: saw_delete(d.sizes, c.name, size),
            },
        },
    }
}

/// What the deleting destructors of the first `n` classes show.
pub open spec fn dtors_of(m: ModuleV, n: int) -> Dtors
    decreases n,
{
    if n <= 0 {
        Dtors { scalar: m.scalar_dtors, inner: m.dtors, sizes: Seq::empty() }
    } else {
        with_dtor(m, dtors_of(m, n - 1), m.rtti.classes[n - 1].1)
    }
}

struct FoundDtors {
    scalar: Table<u32, String>,
    inner: Table<u32, String>,
    sizes: Table<String, Observed>,
}

impl DeepView for FoundDtors {
    type V = Dtors;

    closed spec fn deep_view(&self) -> Dtors {
        Dtors { scalar: self.scalar.deep_view(), inner: self.inner.deep_view(), sizes: self.sizes.deep_view() }
    }
}

fn find_deleted_size(calls: &Vec<CallSite>, deleters: &Vec<(Target, usize)>) -> (r: Option<u64>)
    ensures
        r == deleted_size(calls@, deleters@, 0),
{
    let mut i: usize = 0;
    while i < calls.len()
        invariant
            i <= calls@.len(),
            deleted_size(calls@, deleters@, 0) == deleted_size(calls@, deleters@, i as int),
        decreases calls@.len() - i,
    {
        if let (Val::This(0), Val::Const(n)) = (calls[i].rcx, calls[i].rdx) {
            if lists_target(deleters, calls[i].target) {
                return Some(n);
            }
        }
        i += 1;
    }
    None
}

fn find_inner_dtor(calls: &Vec<CallSite>, deleters: &Vec<(Target, usize)>) -> (r: Option<u32>)
    ensures
        r == inner_dtor(calls@, deleters@, 0),
{
    let mut i: usize = 0;
    while i < calls.len()
        invariant
            i <= calls@.len(),
            inner_dtor(calls@, deleters@, 0) == inner_dtor(calls@, deleters@, i as int),
        decreases calls@.len() - i,
    {
        if let Target::Direct(d) = calls[i].target {
            if calls[i].rcx == Val::This(0) && !lists_target(deleters, calls[i].target) {
                return Some(d);
            }
        }
        i += 1;
    }
    None
}

fn has_own_vtable(f: &FuncFacts) -> (r: bool)
    ensures
        r == stores_own_vtable(f.deep_view()),
{
    let ghost fv = f.deep_view();
    let mut i: usize = 0;
    while i < f.vt_stores.len()
        invariant
            fv == f.deep_view(),
            i <= f.vt_stores@.len(),
            forall|k: int| 0 <= k < i ==> (#[trigger] fv.vt_stores[k]).dst != Val::This(0),
        decreases f.vt_stores@.len() - i,
    {
        if f.vt_stores[i].dst == Val::This(0) {
            assert(fv.vt_stores[i as int].dst == Val::This(0));
            return true;
        }
        i += 1;
    }
    false
}

impl Module {
    fn find_deleting_dtor(&self, entries: &Vec<u32>) -> (r: Option<(u32, u64)>)
        ensures
            r == deleting_dtor(self.deep_view(), entries@, 0),
    {
        let mut i: usize = 0;
        while i < entries.len()
            invariant
                i <= entries@.len(),
                deleting_dtor(self.deep_view(), entries@, 0) == deleting_dtor(self.deep_view(), entries@, i as int),
            decreases entries@.len() - i,
        {
            let (t, delta) = self.resolve_entry(entries[i]);
            if delta == 0 {
                if let Some(f) = self.func(t) {
                    if f.tests_arg_bit {
                        if let Some(n) = find_deleted_size(&f.calls, &self.deleters) {
                            return Some((t, n));
                        }
                    }
                }
            }
            i += 1;
        }
        None
    }

    fn find_dtors(&mut self) -> (sizes: Table<String, Observed>)
        ensures
            ({
                let m = old(self).deep_view();
                let d = dtors_of(m, m.rtti.classes.len() as int);
                sizes.deep_view() == d.sizes && final(self).deep_view() == (ModuleV {
                    scalar_dtors: d.scalar,
                    dtors: d.inner,
                    ..m
                })
            }),
    {
        let ghost m = self.deep_view();
        let mut sizes: Table<String, Observed> = Table::new();
        let n = self.rtti.classes.len();
        let mut i: usize = 0;
        while i < n
            invariant
                m == old(self).deep_view(),
                n == m.rtti.classes.len(),
                i <= n,
                self.deep_view() == (ModuleV {
                    scalar_dtors: dtors_of(m, i as int).scalar,
                    dtors: dtors_of(m, i as int).inner,
                    ..m
                }),
                sizes.deep_view() == dtors_of(m, i as int).sizes,
            decreases n - i,
        {
            let c = self.rtti.classes.value_at(i);
            let name = c.name.clone();
            let hit = match c.primary_vtable() {
                Some(v) => {
                    let r = self.find_deleting_dtor(&v.entries);
                    proof {
                        dtor_independent(m, self.deep_view(), v.entries@, 0);
                    }
                    r
                },
                None => None,
            };
            if let Some((t, size)) = hit {
                let inner = match self.func(t) {
                    Some(f) => if has_own_vtable(f) {
                        None
                    } else {
                        find_inner_dtor(&f.calls, &self.deleters)
                    },
                    None => None,
                };
                record_delete(&mut sizes, &name, size);
                if let Some(d) = inner {
                    self.dtors.insert(d, name.clone());
                }
                self.scalar_dtors.insert(t, name);
            }
            i += 1;
        }
        sizes
    }
}

/// Which entry deletes does not depend on the destructors known so far.
proof fn dtor_independent(a: ModuleV, b: ModuleV, entries: Seq<u32>, i: int)
    requires
        a.code == b.code,
        a.deleters == b.deleters,
        0 <= i,
    ensures
        deleting_dtor(a, entries, i) == deleting_dtor(b, entries, i),
    decreases entries.len() - i,
{
    if i < entries.len() {
        resolve_independent(a, b, entries[i], 0, 4);
        dtor_independent(a, b, entries, i + 1);
    }
}

/// Entries resolve by the code alone.
pub proof fn resolve_independent(a: ModuleV, b: ModuleV, rva: u32, delta: i32, n: nat)
    requires
        a.code == b.code,
    ensures
        a.resolve_within(rva, delta, n) == b.resolve_within(rva, delta, n),
        a.func(rva) == b.func(rva),
    decreases n,
{
    if n > 0 {
        match a.trivial_at(rva) {
            Some(analysis::Trivial::Jump(Target::Direct(t))) => {
                resolve_independent(a, b, t, delta, (n - 1) as nat);
            },
            Some(analysis::Trivial::AdjustThunk { delta: d, target }) => {
                resolve_independent(a, b, target, delta.wrapping_add(d), (n - 1) as nat);
            },
            _ => {},
        }
    }
}

// ---------------------------------------------------------------------------
// Constructors: functions storing their class' primary vtable into [this].

/// The classes whose primary vtables the first `n` stores put into `dst`.
pub open spec fn stored_classes(m: ModuleV, stores: Seq<VtStore>, dst: Val, n: int) -> Seq<Seq<char>>
    decreases n,
{
    if n <= 0 {
        Seq::empty()
    } else {
        let s = stored_classes(m, stores, dst, n - 1);
        if stores[n - 1].dst == dst {
            match m.primary_class(stores[n - 1].vt) {
                Some(c) => s.push(c),
                None => s,
            }
        } else {
            s
        }
    }
}

/// Constructors and destructors.
pub ghost struct Structors {
    pub ctors: Seq<(u32, Seq<char>)>,
    pub dtors: Seq<(u32, Seq<char>)>,
}

/// What the vtable stores of a function show. A most-derived vtable stored
/// first is a destructor chain.
pub open spec fn with_structor(m: ModuleV, s: Structors, f: FuncFactsV) -> Structors {
    let prim = stored_classes(m, f.vt_stores, Val::This(0), f.vt_stores.len() as int);
    if table::holds(m.scalar_dtors, f.start) || table::holds(s.dtors, f.start) || prim.len() == 0 {
        s
    } else if prim.first() != prim.last() && m.is_ancestor(prim.last(), prim.first()) {
        Structors { dtors: table::put(s.dtors, f.start, prim.first()), ..s }
    } else {
        Structors { ctors: table::put(s.ctors, f.start, prim.last()), ..s }
    }
}

/// What the vtable stores of the first `n` functions show.
pub open spec fn structors_of(m: ModuleV, n: int) -> Structors
    decreases n,
{
    if n <= 0 {
        Structors { ctors: Seq::empty(), dtors: m.dtors }
    } else {
        with_structor(m, structors_of(m, n - 1), m.code.funcs[n - 1].1)
    }
}

impl Module {
    pub(crate) fn classes_stored(&self, stores: &Vec<VtStore>, dst: Val) -> (r: Vec<String>)
        ensures
            r.deep_view() == stored_classes(self.deep_view(), stores@, dst, stores@.len() as int),
    {
        let ghost m = self.deep_view();
        let mut out: Vec<String> = Vec::new();
        let mut i: usize = 0;
        assert(out.deep_view() =~= Seq::empty());
        while i < stores.len()
            invariant
                m == self.deep_view(),
                i <= stores@.len(),
                out.deep_view() == stored_classes(m, stores@, dst, i as int),
            decreases stores@.len() - i,
        {
            if stores[i].dst == dst {
                if let Some(c) = self.primary_class(stores[i].vt) {
                    let ghost before = out.deep_view();
                    let ghost x = c@;
                    out.push(c);
                    assert(out.deep_view() =~= before.push(x));
                }
            }
            i += 1;
        }
        out
    }

    fn find_ctors(&mut self)
        ensures
            ({
                let m = old(self).deep_view();
                let s = structors_of(m, m.code.funcs.len() as int);
                final(self).deep_view() == (ModuleV { ctors: s.ctors, dtors: s.dtors, ..m })
            }),
    {
        let ghost m = self.deep_view();
        let mut ctors: Table<u32, String> = Table::new();
        let n = self.code.funcs.len();
        let mut i: usize = 0;
        while i < n
            invariant
                m == old(self).deep_view(),
                n == m.code.funcs.len(),
                i <= n,
                self.deep_view() == (ModuleV { dtors: structors_of(m, i as int).dtors, ..m }),
                ctors.deep_view() == structors_of(m, i as int).ctors,
            decreases n - i,
        {
            let f = self.code.funcs.value_at(i);
            let start = f.start;
            let prim = self.classes_stored(&f.vt_stores, Val::This(0));
            proof {
                stored_independent(m, self.deep_view(), f.vt_stores@, Val::This(0), f.vt_stores@.len() as int);
            }
            let ghost names = prim.deep_view();
            if !self.scalar_dtors.contains(&start) && !self.dtors.contains(&start) && prim.len() > 0 {
                let first = prim[0].clone();
                let last = prim[prim.len() - 1].clone();
                assert(first@ == names.first());
                assert(last@ == names.last());
                if !text::same(first.as_str(), last.as_str()) && self.is_ancestor(last.as_str(), first.as_str()) {
                    self.dtors.insert(start, first);
                } else {
                    ctors.insert(start, last);
                }
            }
            i += 1;
        }
        self.ctors = ctors;
    }
}

/// Which classes' vtables are stored depends on the classes alone.
pub proof fn stored_independent(a: ModuleV, b: ModuleV, stores: Seq<VtStore>, dst: Val, n: int)
    requires
        a.rtti == b.rtti,
    ensures
        stored_classes(a, stores, dst, n) == stored_classes(b, stores, dst, n),
    decreases n,
{
    if n > 0 {
        stored_independent(a, b, stores, dst, n - 1);
    }
}

// ---------------------------------------------------------------------------
// Allocations: `new(size)` followed by a vtable store / ctor call.

/// `cands` with the classes whose constructors the first `n` calls run on
/// allocation `id`.
pub open spec fn constructed(m: ModuleV, cands: Seq<Seq<char>>, calls: Seq<CallSite>, id: u32, n: int) -> Seq<Seq<char>>
    decreases n,
{
    if n <= 0 {
        cands
    } else {
        let s = constructed(m, cands, calls, id, n - 1);
        match calls[n - 1].target {
            Target::Direct(d) => if calls[n - 1].rcx == Val::Alloc(id, 0) {
                match table::get(m.ctors, d) {
                    Some(c) => s.push(c),
                    None => s,
                }
            } else {
                s
            },
            _ => s,
        }
    }
}

/// The class among the first `n` with the most bases, the last of those with
/// as many.
pub open spec fn most_derived(m: ModuleV, cands: Seq<Seq<char>>, n: int) -> Option<Seq<char>>
    decreases n,
{
    if n <= 0 {
        None
    } else {
        match most_derived(m, cands, n - 1) {
            Some(b) => if m.base_count(cands[n - 1]) >= m.base_count(b) {
                Some(cands[n - 1])
            } else {
                Some(b)
            },
            None => Some(cands[n - 1]),
        }
    }
}

/// The class that allocation `id` of a function becomes.
pub open spec fn allocated_class(m: ModuleV, f: FuncFactsV, id: u32) -> Option<Seq<char>> {
    let cands = stored_classes(m, f.vt_stores, Val::Alloc(id, 0), f.vt_stores.len() as int);
    let cands = constructed(m, cands, f.calls, id, f.calls.len() as int);
    most_derived(m, cands, cands.len() as int)
}

/// `out` with the globals among the first `n` stores that receive allocation
/// `id`.
pub open spec fn stored_globally(
    out: Seq<SingletonV>,
    class: Option<Seq<char>>,
    stores: Seq<GlobalStore>,
    id: u32,
    accessor: u32,
    size: u64,
    n: int,
) -> Seq<SingletonV>
    decreases n,
{
    if n <= 0 {
        out
    } else {
        let s = stored_globally(out, class, stores, id, accessor, size, n - 1);
        if stores[n - 1].val == Val::Alloc(id, 0) {
            s.push(SingletonV { class, global: stores[n - 1].global, accessor, size })
        } else {
            s
        }
    }
}

/// Sizes and singletons.
pub ghost struct Allocated {
    pub sizes: Sizes,
    pub singletons: Seq<SingletonV>,
}

/// What the first `n` allocations of a function show.
pub open spec fn allocated_in(m: ModuleV, a: Allocated, f: FuncFactsV, n: int) -> Allocated
    decreases n,
{
    if n <= 0 {
        a
    } else {
        let s = allocated_in(m, a, f, n - 1);
        let alloc = f.allocs[n - 1];
        let id = (n - 1) as u32;
        if !listed(m.allocators, alloc.allocator) {
            s
        } else {
            let class = allocated_class(m, f, id);
            Allocated {
                sizes: match class {
                    Some(c) => saw_new(s.sizes, c, alloc.size),
                    None => s.sizes,
                },
                singletons: stored_globally(
                    s.singletons,
                    class,
                    f.global_stores,
                    id,
                    f.start,
                    alloc.size,
                    f.global_stores.len() as int,
                ),
            }
        }
    }
}

/// What the allocations of the first `n` functions show.
pub open spec fn allocated(m: ModuleV, sizes: Sizes, n: int) -> Allocated
    decreases n,
{
    if n <= 0 {
        Allocated { sizes, singletons: Seq::empty() }
    } else {
        let f = m.code.funcs[n - 1].1;
        allocated_in(m, allocated(m, sizes, n - 1), f, f.allocs.len() as int)
    }
}

/// The keys that singletons are ordered by.
pub open spec fn singleton_keys(s: Seq<SingletonV>) -> Seq<(Option<Seq<char>>, u32, u32)> {
    Seq::new(s.len(), |i: int| (s[i].class, s[i].global, s[i].accessor))
}

pub open spec fn same_singleton(a: SingletonV, b: SingletonV) -> bool {
    a.class == b.class && a.global == b.global && a.accessor == b.accessor
}

/// The first `n` singletons, each run of equal ones once.
pub open spec fn distinct(s: Seq<SingletonV>, n: int) -> Seq<SingletonV>
    decreases n,
{
    if n <= 0 {
        Seq::empty()
    } else {
        let d = distinct(s, n - 1);
        if d.len() > 0 && same_singleton(d.last(), s[n - 1]) {
            d
        } else {
            d.push(s[n - 1])
        }
    }
}

/// Singletons in order, each once.
pub open spec fn ordered_singletons(s: Seq<SingletonV>) -> Seq<SingletonV> {
    let o = table::sorted_by(singleton_keys(s), s);
    distinct(o, o.len() as int)
}

fn order_singletons(list: Vec<Singleton>) -> (r: Vec<Singleton>)
    ensures
        r.deep_view() == ordered_singletons(list.deep_view()),
{
    let ghost s = list.deep_view();
    let mut keys: Vec<(Option<String>, u32, u32)> = Vec::new();
    let mut i: usize = 0;
    while i < list.len()
        invariant
            s == list.deep_view(),
            i <= list@.len(),
            table::key_models(keys@) == singleton_keys(s).take(i as int),
            keys@.len() == i,
        decreases list@.len() - i,
    {
        let ghost before = table::key_models(keys@);
        let x = &list[i];
        let k = (model::copy_text(&x.class), x.global, x.accessor);
        let ghost kv = k.key();
        assert(kv == singleton_keys(s)[i as int]) by {
            assert(k.0.deep_view() == s[i as int].class);
        }
        keys.push(k);
        i += 1;
        assert(table::key_models(keys@) =~= before.push(kv));
        assert(singleton_keys(s).take(i as int) =~= before.push(kv));
    }
    assert(singleton_keys(s).take(i as int) =~= singleton_keys(s));
    let o = table::stable_sort(keys, list);
    let ghost ov = o.deep_view();
    let mut out: Vec<Singleton> = Vec::new();
    i = 0;
    assert(out.deep_view() =~= Seq::empty());
    while i < o.len()
        invariant
            ov == o.deep_view(),
            i <= o@.len(),
            out.deep_view() == distinct(ov, i as int),
        decreases o@.len() - i,
    {
        let x = &o[i];
        let same = out.len() > 0 && {
            let y = &out[out.len() - 1];
            assert(out.deep_view().last() == y.deep_view());
            same_class(&x.class, &y.class) && x.global == y.global && x.accessor == y.accessor
        };
        if !same {
            let ghost before = out.deep_view();
            let c = x.clone();
            out.push(c);
            assert(out.deep_view() =~= before.push(ov[i as int]));
        }
        i += 1;
    }
    out
}

fn same_class(a: &Option<String>, b: &Option<String>) -> (r: bool)
    ensures
        r == (a.deep_view() == b.deep_view()),
{
    match (a, b) {
        (None, None) => true,
        (Some(x), Some(y)) => text::same(x.as_str(), y.as_str()),
        _ => false,
    }
}

impl Module {
    fn class_allocated(&self, f: &FuncFacts, id: u32) -> (r: Option<String>)
        ensures
            r.deep_view() == allocated_class(self.deep_view(), f.deep_view(), id),
    {
        let ghost m = self.deep_view();
        let mut cands = self.classes_stored(&f.vt_stores, Val::Alloc(id, 0));
        let ghost first = cands.deep_view();
        let mut i: usize = 0;
        while i < f.calls.len()
            invariant
                m == self.deep_view(),
                i <= f.calls@.len(),
                cands.deep_view() == constructed(m, first, f.calls@, id, i as int),
            decreases f.calls@.len() - i,
        {
            if let Target::Direct(d) = f.calls[i].target {
                if f.calls[i].rcx == Val::Alloc(id, 0) {
                    if let Some(c) = self.ctors.get(&d) {
                        let ghost before = cands.deep_view();
                        cands.push(c.clone());
                        assert(cands.deep_view() =~= before.push(c@));
                    }
                }
            }
            i += 1;
        }
        self.pick_most_derived(&cands)
    }

    pub(crate) fn pick_most_derived(&self, cands: &Vec<String>) -> (r: Option<String>)
        ensures
            r.deep_view() == most_derived(self.deep_view(), cands.deep_view(), cands@.len() as int),
    {
        let ghost m = self.deep_view();
        let ghost cs = cands.deep_view();
        let mut best: Option<usize> = None;
        let mut most: usize = 0;
        let mut i: usize = 0;
        while i < cands.len()
            invariant
                m == self.deep_view(),
                cs == cands.deep_view(),
                i <= cands@.len(),
                match best {
                    Some(b) => b < cands@.len() && most_derived(m, cs, i as int) == Some(cs[b as int]) && most
                        == m.base_count(cs[b as int]),
                    None => i == 0,
                },
            decreases cands@.len() - i,
        {
            let n = self.base_count(cands[i].as_str());
            let better = match best {
                Some(_) => n >= most,
                None => true,
            };
            if better {
                best = Some(i);
                most = n;
            }
            i += 1;
        }
        match best {
            Some(b) => Some(cands[b].clone()),
            None => None,
        }
    }

    fn allocations_of(&self, f: &FuncFacts, sizes: &mut Table<String, Observed>, singletons: &mut Vec<Singleton>)
        ensures
            (Allocated { sizes: final(sizes).deep_view(), singletons: final(singletons).deep_view() }) == allocated_in(
                self.deep_view(),
                (Allocated { sizes: old(sizes).deep_view(), singletons: old(singletons).deep_view() }),
                f.deep_view(),
                f.allocs@.len() as int,
            ),
    {
        let ghost m = self.deep_view();
        let ghost a = Allocated { sizes: sizes.deep_view(), singletons: singletons.deep_view() };
        let mut i: usize = 0;
        while i < f.allocs.len()
            invariant
                m == self.deep_view(),
                a == (Allocated { sizes: old(sizes).deep_view(), singletons: old(singletons).deep_view() }),
                i <= f.allocs@.len(),
                (Allocated { sizes: sizes.deep_view(), singletons: singletons.deep_view() }) == allocated_in(
                    m,
                    a,
                    f.deep_view(),
                    i as int,
                ),
            decreases f.allocs@.len() - i,
        {
            let alloc = f.allocs[i];
            let id = i as u32;
            if lists_address(&self.allocators, alloc.allocator) {
                let class = self.class_allocated(f, id);
                if let Some(c) = &class {
                    record_new(sizes, c, alloc.size);
                }
                let ghost before = singletons.deep_view();
                let mut k: usize = 0;
                while k < f.global_stores.len()
                    invariant
                        k <= f.global_stores@.len(),
                        singletons.deep_view() == stored_globally(
                            before,
                            class.deep_view(),
                            f.global_stores@,
                            id,
                            f.start,
                            alloc.size,
                            k as int,
                        ),
                    decreases f.global_stores@.len() - k,
                {
                    if f.global_stores[k].val == Val::Alloc(id, 0) {
                        let ghost pre = singletons.deep_view();
                        let s = Singleton {
                            class: model::copy_text(&class),
                            global: f.global_stores[k].global,
                            accessor: f.start,
                            size: alloc.size,
                        };
                        let ghost x = s.deep_view();
                        singletons.push(s);
                        assert(singletons.deep_view() =~= pre.push(x));
                    }
                    k += 1;
                }
            }
            i += 1;
        }
    }

    fn find_allocations(&mut self, sizes: &mut Table<String, Observed>)
        ensures
            ({
                let m = old(self).deep_view();
                let a = allocated(m, old(sizes).deep_view(), m.code.funcs.len() as int);
                final(sizes).deep_view() == a.sizes && final(self).deep_view() == (ModuleV {
                    singletons: ordered_singletons(a.singletons),
                    ..m
                })
            }),
    {
        let ghost m = self.deep_view();
        let ghost start = sizes.deep_view();
        let mut singletons: Vec<Singleton> = Vec::new();
        let mut i: usize = 0;
        assert(singletons.deep_view() =~= Seq::empty());
        while i < self.code.funcs.len()
            invariant
                m == self.deep_view(),
                m == old(self).deep_view(),
                start == old(sizes).deep_view(),
                i <= m.code.funcs.len(),
                (Allocated { sizes: sizes.deep_view(), singletons: singletons.deep_view() }) == allocated(
                    m,
                    start,
                    i as int,
                ),
            decreases m.code.funcs.len() - i,
        {
            let f = self.code.funcs.value_at(i);
            self.allocations_of(f, sizes, &mut singletons);
            i += 1;
        }
        self.singletons = order_singletons(singletons);
    }
}

// ---------------------------------------------------------------------------
// Sizes.

/// The size among the first `n` that was observed most often, the greatest of
/// those observed as often; only sized deletes count if `sized`.
pub open spec fn most_observed(obs: Seq<(u64, (usize, Seq<char>))>, sized: bool, n: int) -> Option<(u64, (usize, Seq<char>))>
    decreases n,
{
    if n <= 0 {
        None
    } else {
        let best = most_observed(obs, sized, n - 1);
        let o = obs[n - 1];
        if sized && o.1.1 != "sized delete"@ {
            best
        } else {
            match best {
                Some(b) => if o.1.0 >= b.1.0 {
                    Some(o)
                } else {
                    Some(b)
                },
                None => Some(o),
            }
        }
    }
}

/// The size to believe: that of a sized delete if there was one.
pub open spec fn picked(obs: Seq<(u64, (usize, Seq<char>))>) -> Option<(u64, (usize, Seq<char>))> {
    match most_observed(obs, true, obs.len() as int) {
        Some(o) => Some(o),
        None => most_observed(obs, false, obs.len() as int),
    }
}

/// The sizes of the first `n` classes that were observed.
pub open spec fn sizes_picked(sizes: Seq<(Seq<char>, SizeInfoV)>, obs: Sizes, n: int) -> Seq<(Seq<char>, SizeInfoV)>
    decreases n,
{
    if n <= 0 {
        sizes
    } else {
        let s = sizes_picked(sizes, obs, n - 1);
        match picked(obs[n - 1].1) {
            Some(o) => table::put(
                s,
                obs[n - 1].0,
                SizeInfoV { size: o.0, source: o.1.1, observed: obs[n - 1].1 },
            ),
            None => s,
        }
    }
}

fn find_most_observed(obs: &Observed, sized: bool) -> (r: Option<(u64, usize, &'static str)>)
    ensures
        match r {
            Some(x) => most_observed(obs.deep_view(), sized, obs.deep_view().len() as int) == Some((x.0, (x.1, x.2@))),
            None => most_observed(obs.deep_view(), sized, obs.deep_view().len() as int) is None,
        },
{
    let ghost o = obs.deep_view();
    let mut best: Option<(u64, usize, &'static str)> = None;
    let mut i: usize = 0;
    while i < obs.len()
        invariant
            o == obs.deep_view(),
            i <= o.len(),
            match best {
                Some(x) => most_observed(o, sized, i as int) == Some((x.0, (x.1, x.2@))),
                None => most_observed(o, sized, i as int) is None,
            },
        decreases o.len() - i,
    {
        let k = *obs.key_at(i);
        let v = obs.value_at(i);
        if !sized || text::same(v.1, "sized delete") {
            let better = match best {
                Some(b) => v.0 >= b.1,
                None => true,
            };
            if better {
                best = Some((k, v.0, v.1));
            }
        }
        i += 1;
    }
    best
}

fn copy_observed(obs: &Observed) -> (r: Observed)
    ensures
        r.deep_view() == obs.deep_view(),
{
    let n = obs.len();
    let ghost o = obs.deep_view();
    let mut out: Observed = Table::new();
    let mut i: usize = 0;
    assert(out.deep_view() =~= o.take(0));
    while i < n
        invariant
            o == obs.deep_view(),
            table::ordered(o),
            n == o.len(),
            i <= n,
            out.deep_view() == o.take(i as int),
        decreases n - i,
    {
        let k = *obs.key_at(i);
        let v = obs.value_at(i);
        proof {
            table::put_last(o.take(i as int), k, o[i as int].1);
        }
        out.insert(k, (v.0, v.1));
        i += 1;
        assert(o.take(i as int) =~= o.take(i - 1).push(o[i - 1]));
    }
    assert(o.take(n as int) =~= o);
    out
}

impl Module {
    fn pick_sizes(&mut self, obs: &Table<String, Observed>)
        ensures
            final(self).deep_view() == (ModuleV {
                sizes: sizes_picked(
                    old(self).deep_view().sizes,
                    obs.deep_view(),
                    obs.deep_view().len() as int,
                ),
                ..old(self).deep_view()
            }),
    {
        let ghost m = self.deep_view();
        let ghost o = obs.deep_view();
        let mut i: usize = 0;
        while i < obs.len()
            invariant
                m == old(self).deep_view(),
                o == obs.deep_view(),
                i <= o.len(),
                self.deep_view() == (ModuleV { sizes: sizes_picked(m.sizes, o, i as int), ..m }),
            decreases o.len() - i,
        {
            let seen = obs.value_at(i);
            let pick = match find_most_observed(seen, true) {
                Some(x) => Some(x),
                None => find_most_observed(seen, false),
            };
            if let Some((size, _, source)) = pick {
                let info = SizeInfo { size, source, observed: copy_observed(seen) };
                self.sizes.insert(obs.key_at(i).clone(), info);
            }
            i += 1;
        }
    }
}

// ---------------------------------------------------------------------------
// Names.

/// What a function does for its class.
pub enum Structor {
    Ctor,
    Dtor,
    Scalar,
}

/// The name of a constructor or destructor of a class.
pub open spec fn structor_text(kind: Structor, c: Seq<char>) -> Seq<char> {
    let short = names::unqualified_text(c);
    match kind {
        Structor::Ctor => c + "::"@ + short,
        Structor::Dtor => c + "::~"@ + short,
        Structor::Scalar => c + "::`scalar deleting destructor'"@,
    }
}

pub fn structor_name(kind: &Structor, c: &str) -> (r: String)
    ensures
        r@ == structor_text(*kind, c@),
{
    let short = names::unqualified(c);
    let mut out = String::new();
    out.append(c);
    match kind {
        Structor::Ctor => {
            out.append("::");
            out.append(short);
        },
        Structor::Dtor => {
            out.append("::~");
            out.append(short);
        },
        Structor::Scalar => {
            out.append("::`scalar deleting destructor'");
        },
    }
    assert(out@ =~= structor_text(*kind, c@));
    out
}

/// The module with names for the first `n` functions of a list of structors.
pub open spec fn structors_named(m: ModuleV, list: Seq<(u32, Seq<char>)>, kind: Structor, n: int) -> ModuleV
    decreases n,
{
    if n <= 0 {
        m
    } else {
        structors_named(m, list, kind, n - 1).with_name(
            list[n - 1].0,
            structor_text(kind, list[n - 1].1),
            NameSrc::Inferred,
            false,
        )
    }
}

/// The module with names for the first `n` deleters that are functions.
pub open spec fn deleters_named(m: ModuleV, list: Seq<(Target, usize)>, n: int) -> ModuleV
    decreases n,
{
    if n <= 0 {
        m
    } else {
        let s = deleters_named(m, list, n - 1);
        match list[n - 1].0 {
            Target::Direct(d) => s.with_name(d, "operator delete(void*, size_t)"@, NameSrc::Inferred, true),
            _ => s,
        }
    }
}

/// The module with names for the first `n` allocators.
pub open spec fn allocators_named(m: ModuleV, list: Seq<(u32, usize)>, n: int) -> ModuleV
    decreases n,
{
    if n <= 0 {
        m
    } else {
        allocators_named(m, list, n - 1).with_name(list[n - 1].0, "operator new(size_t)"@, NameSrc::Inferred, true)
    }
}

impl ModuleV {
    /// The module with names for what was found.
    pub open spec fn found_named(self) -> ModuleV {
        let m = structors_named(self, self.ctors, Structor::Ctor, self.ctors.len() as int);
        let m = structors_named(m, self.dtors, Structor::Dtor, self.dtors.len() as int);
        let m = structors_named(m, self.scalar_dtors, Structor::Scalar, self.scalar_dtors.len() as int);
        let m = deleters_named(m, self.deleters, self.deleters.len() as int);
        allocators_named(m, self.allocators, self.allocators.len() as int)
    }

    /// The module with its allocators, deleters, constructors, destructors,
    /// class sizes and singletons.
    pub open spec fn structors_and_sizes_found(self) -> ModuleV {
        let m = ModuleV { deleters: self.deleters_found(), allocators: self.allocators_found(), ..self };
        let d = dtors_of(m, m.rtti.classes.len() as int);
        let m = ModuleV { scalar_dtors: d.scalar, dtors: d.inner, ..m };
        let s = structors_of(m, m.code.funcs.len() as int);
        let m = ModuleV { ctors: s.ctors, dtors: s.dtors, ..m };
        let a = allocated(m, d.sizes, m.code.funcs.len() as int);
        ModuleV {
            singletons: ordered_singletons(a.singletons),
            sizes: sizes_picked(m.sizes, a.sizes, a.sizes.len() as int),
            ..m
        }.found_named()
    }

    /// What is known of a module once its image is loaded.
    pub open spec fn of(pe: PeV) -> ModuleV {
        ModuleV::bare(pe).exports_imports_named().structors_and_sizes_found()
    }
}

fn copy_list(t: &Table<u32, String>) -> (r: Vec<(u32, String)>)
    ensures
        r.deep_view() == t.deep_view(),
{
    let ghost s = t.deep_view();
    let mut out: Vec<(u32, String)> = Vec::new();
    let mut i: usize = 0;
    assert(out.deep_view() =~= s.take(0));
    while i < t.len()
        invariant
            s == t.deep_view(),
            i <= s.len(),
            out.deep_view() == s.take(i as int),
        decreases s.len() - i,
    {
        let ghost before = out.deep_view();
        let row = (*t.key_at(i), t.value_at(i).clone());
        let ghost x = row.deep_view();
        out.push(row);
        i += 1;
        assert(out.deep_view() =~= before.push(x));
        assert(s.take(i as int) =~= before.push(s[i - 1]));
    }
    assert(s.take(i as int) =~= s);
    out
}

impl Module {
    fn name_structors(&mut self, list: &Vec<(u32, String)>, kind: Structor)
        ensures
            final(self).deep_view() == structors_named(
                old(self).deep_view(),
                list.deep_view(),
                kind,
                list@.len() as int,
            ),
    {
        let ghost m = self.deep_view();
        let ghost l = list.deep_view();
        let mut i: usize = 0;
        while i < list.len()
            invariant
                m == old(self).deep_view(),
                l == list.deep_view(),
                i <= list@.len(),
                self.deep_view() == structors_named(m, l, kind, i as int),
            decreases list@.len() - i,
        {
            let name = structor_name(&kind, list[i].1.as_str());
            self.set_name(list[i].0, name, NameSrc::Inferred, false);
            i += 1;
        }
    }

    fn name_found(&mut self)
        ensures
            final(self).deep_view() == old(self).deep_view().found_named(),
    {
        let ghost m = self.deep_view();
        let ctors = copy_list(&self.ctors);
        let dtors = copy_list(&self.dtors);
        let scalars = copy_list(&self.scalar_dtors);
        let deleters = table::copy_all(&self.deleters);
        let allocators = table::copy_all(&self.allocators);
        self.name_structors(&ctors, Structor::Ctor);
        self.name_structors(&dtors, Structor::Dtor);
        self.name_structors(&scalars, Structor::Scalar);
        let ghost s = self.deep_view();
        let mut i: usize = 0;
        while i < deleters.len()
            invariant
                i <= deleters@.len(),
                self.deep_view() == deleters_named(s, deleters@, i as int),
            decreases deleters@.len() - i,
        {
            if let Target::Direct(d) = deleters[i].0 {
                let name = "operator delete(void*, size_t)".to_owned();
                self.set_name(d, name, NameSrc::Inferred, true);
            }
            i += 1;
        }
        let ghost s = self.deep_view();
        i = 0;
        while i < allocators.len()
            invariant
                i <= allocators@.len(),
                self.deep_view() == allocators_named(s, allocators@, i as int),
            decreases allocators@.len() - i,
        {
            let name = "operator new(size_t)".to_owned();
            self.set_name(allocators[i].0, name, NameSrc::Inferred, true);
            i += 1;
        }
    }

    /// Finds allocators, deleters, constructors, destructors, class sizes and
    /// singletons, and names them.
    pub fn find_structors_and_sizes(&mut self)
        ensures
            final(self).deep_view() == old(self).deep_view().structors_and_sizes_found(),
    {
        let deleters = self.find_deleters();
        let allocators = self.find_allocators();
        self.deleters = deleters;
        self.allocators = allocators;
        let mut sizes = self.find_dtors();
        self.find_ctors();
        self.find_allocations(&mut sizes);
        self.pick_sizes(&sizes);
        self.name_found();
    }

    /// Loads a module from the bytes of the file at `path`, whose last
    /// component is `name`.
    pub fn load(path: &str, name: &str, file: &[u8]) -> (r: Result<Module, PeError>)
        ensures
            match r {
                Ok(m) => crate::pe::loaded(file@, path@, name@) matches Ok(pe) && m.deep_view() == ModuleV::of(pe),
                Err(e) => crate::pe::loaded(file@, path@, name@) == Err::<PeV, PeError>(e),
            },
    {
        let pe = Pe::load(path, name, file)?;
        let mut m = Module::bare(pe);
        m.name_exports_imports();
        m.find_structors_and_sizes();
        Ok(m)
    }
}

// ---------------------------------------------------------------------------
// Laws.

proof fn most_observed_is_one(obs: Seq<(u64, (usize, Seq<char>))>, sized: bool, n: int)
    requires
        0 <= n <= obs.len(),
    ensures
        match most_observed(obs, sized, n) {
            Some(o) => (exists|i: int| 0 <= i < n && #[trigger] obs[i] == o) && (sized ==> o.1.1 == "sized delete"@)
                && forall|i: int|
                0 <= i < n && (sized ==> (#[trigger] obs[i]).1.1 == "sized delete"@) ==> obs[i].1.0 <= o.1.0,
            None => forall|i: int| 0 <= i < n ==> sized && (#[trigger] obs[i]).1.1 != "sized delete"@,
        },
    decreases n,
{
    if n > 0 {
        most_observed_is_one(obs, sized, n - 1);
        assert(obs[n - 1] == obs[n - 1]);
    }
}

/// The size that is believed was observed, no other of its kind was observed
/// more often, and a sized delete is believed over anything else.
pub proof fn picked_was_observed(obs: Seq<(u64, (usize, Seq<char>))>)
    ensures
        match picked(obs) {
            Some(o) => obs.contains(o) && (o.1.1 != "sized delete"@ ==> forall|i: int|
                0 <= i < obs.len() ==> (#[trigger] obs[i]).1.1 != "sized delete"@) && forall|i: int|
                0 <= i < obs.len() && (#[trigger] obs[i]).1.1 == o.1.1 ==> obs[i].1.0 <= o.1.0,
            None => obs.len() == 0,
        },
{
    most_observed_is_one(obs, true, obs.len() as int);
    most_observed_is_one(obs, false, obs.len() as int);
    if obs.len() > 0 && picked(obs) is None {
        assert(obs[0] == obs[0]);
    }
}

} // verus!
