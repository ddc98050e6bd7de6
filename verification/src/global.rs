//! The default registry and the functions that work on it.
//!
//! A [`Global`] is the place of the default registry. It starts out empty.
//! The first use puts a registry into it, and from then on that registry
//! stays: it can be replaced by one of the caller's choice only before the
//! first use.
use crate::interner::kept;
use crate::interner::on_record;
use crate::interner::roomy;
use crate::interner::spent;
use crate::interner::started;
use crate::interner::stepped;
use crate::interner::swept_all;
use crate::interner::swept_one;
use crate::interner::total;
use crate::interner::Interner;
use crate::key::Internable;
use crate::key::Probe;
use crate::table::Table;
use crate::token::Tok;
use std::any::TypeId;
use vstd::prelude::*;

verus! {

/// The place of the default registry.
pub struct Global {
    slot: Option<Interner>,
}

impl Global {
    /// Whether the registry has been put in place.
    pub closed spec fn started(&self) -> bool {
        self.slot is Some
    }

    /// The registry, once it is in place.
    pub closed spec fn interner(&self) -> Interner
        recommends
            self.started(),
    {
        self.slot->0
    }

    /// The tables of the registry; none while the place is empty.
    pub open spec fn tables(&self) -> Seq<Table> {
        if self.started() {
            self.interner().tables()
        } else {
            Seq::empty()
        }
    }

    /// Whether every table can issue `n` more identities, and a new table
    /// could too.
    pub open spec fn has_room(&self, n: nat) -> bool {
        roomy(self.tables(), n)
    }

    /// The invariant: a registry that is in place is well formed.
    pub open spec fn wf(&self) -> bool {
        self.started() ==> self.interner().wf()
    }

    /// An empty place.
    pub fn new() -> (global: Global)
        ensures
            !global.started(),
            global.wf(),
    {
        Global { slot: None }
    }

    /// Whether the registry has been put in place.
    pub fn is_started(&self) -> (started: bool)
        ensures
            started == self.started(),
    {
        self.slot.is_some()
    }
}

/// Obtain a reference to the default registry. The first call makes it, with
/// no tables; every later call finds it as the calls before left it.
pub fn get_global(global: &mut Global) -> (interner: &mut Interner)
    requires
        old(global).wf(),
    ensures
        interner.wf(),
        old(global).started() ==> *interner == old(global).interner(),
        !old(global).started() ==> interner.tables().len() == 0 && forall|ty: TypeId|
            interner.place(ty) is None,
        final(global).started(),
        final(global).interner() == *final(interner),
{
    if global.slot.is_none() {
        global.slot = Some(Interner::new());
    }
    global.slot.as_mut().unwrap()
}

/// Set the default registry if it has not been used yet. The answer says
/// whether the registry that `make` gives is now in place. A registry that is
/// already in place stays as it is, and `make` is not called.
pub fn set_global<F: FnOnce() -> Interner>(global: &mut Global, make: F) -> (done: bool)
    requires
        old(global).wf(),
        make.requires(()),
        forall|made: Interner| make.ensures((), made) ==> made.wf(),
    ensures
        final(global).wf(),
        final(global).started(),
        done == !old(global).started(),
        done ==> make.ensures((), final(global).interner()),
        !done ==> *final(global) == *old(global),
{
    if global.slot.is_none() {
        global.slot = Some(make());
        true
    } else {
        false
    }
}

/// Intern something with the default registry.
///
/// The value goes to the table of its type, which is made if this is the
/// first value of that type. That table holds the token from then on, and no
/// other table changes.
pub fn i<Q: Probe + ?Sized>(global: &mut Global, q: &Q) -> (tok: Tok<Q::Owned>)
    requires
        old(global).wf(),
        old(global).has_room(1),
    ensures
        final(global).wf(),
        final(global).started(),
        tok.value().key() == q.probe_key(),
        kept(old(global).tables(), final(global).tables()),
        spent(old(global).tables(), final(global).tables(), 1),
        exists|pos: int|
            0 <= pos < final(global).tables().len() && (#[trigger] final(global).tables()[pos]).holds(
                &tok,
            ),
        on_record(final(global).tables(), tok),
        started(old(global).tables(), final(global).tables(), q.probe_key(), tok.id()) || exists|
            pos: int,
        | #[trigger]
            stepped(old(global).tables(), final(global).tables(), pos, q.probe_key(), tok.id()),
{
    let interner = get_global(global);
    let ghost before = interner.tables();
    assert(before =~= old(global).tables());
    let tok = interner.i(q);
    proof {
        let after = global.tables();
        let pos = choose|pos: int| 0 <= pos < after.len() && (#[trigger] after[pos]).holds(&tok);
        assert(after[pos].holds(&tok));
        if !started(before, after, q.probe_key(), tok.id()) {
            let at = choose|at: int| #[trigger] stepped(before, after, at, q.probe_key(), tok.id());
            assert(stepped(old(global).tables(), after, at, q.probe_key(), tok.id()));
        }
    }
    tok
}

/// Fully resolve a list of interned things: the values of the tokens, in
/// order, each copied out of its storage.
pub fn ev<T: Internable>(tokens: &[Tok<T>]) -> (values: Vec<T>)
    ensures
        values@.len() == tokens@.len(),
        forall|k: int|
            0 <= k < tokens@.len() ==> (#[trigger] values@[k]).key() == tokens@[k].value().key(),
{
    let mut values: Vec<T> = Vec::new();
    let mut k: usize = 0;
    while k < tokens.len()
        invariant
            k <= tokens@.len(),
            values@.len() == k,
            forall|j: int|
                0 <= j < k ==> (#[trigger] values@[j]).key() == tokens@[j].value().key(),
        decreases tokens@.len() - k,
    {
        values.push(tokens[k].value().duplicate());
        k += 1;
    }
    values
}

/// Sweep values of a specific type from the default registry. Useful after a
/// large number of values of one type has been dropped; otherwise use
/// [`sweep`].
///
/// Either the registry has no table for `T`: then nothing changes and the
/// answer is 0. Or that one table is swept, and no other table changes.
pub fn sweep_t<T: Internable>(global: &mut Global) -> (removed: usize)
    requires
        old(global).wf(),
    ensures
        final(global).wf(),
        final(global).started(),
        (removed == 0 && final(global).tables() == old(global).tables()) || exists|pos: int|
         #[trigger]
            swept_one(old(global).tables(), final(global).tables(), pos, removed as nat),
{
    let interner = get_global(global);
    let ghost before = interner.tables();
    assert(before =~= old(global).tables());
    let removed = interner.sweep_t::<T>();
    proof {
        let after = global.tables();
        if !(removed == 0 && after == before) {
            let pos = choose|pos: int| #[trigger] swept_one(before, after, pos, removed as nat);
            assert(swept_one(old(global).tables(), after, pos, removed as nat));
        }
    }
    removed
}

/// Sweep the default registry: every table is swept, and the answer is the
/// number of entries that were removed from all of them together. To sweep
/// the values of one type, use [`sweep_t`].
pub fn sweep(global: &mut Global) -> (removed: usize)
    requires
        old(global).wf(),
        total(old(global).tables()) <= usize::MAX,
    ensures
        final(global).wf(),
        final(global).started(),
        swept_all(old(global).tables(), final(global).tables()),
        removed == total(old(global).tables()) - total(final(global).tables()),
{
    let interner = get_global(global);
    let ghost before = interner.tables();
    assert(before =~= old(global).tables());
    let removed = interner.sweep();
    removed
}

/// Intern a list and its elements in the default registry. See also [`ibv`].
///
/// The list has a token for each item, in order: a token that the registry
/// has issued, for a value with the key of the item.
pub fn iv<T: Internable>(global: &mut Global, items: Vec<T>) -> (tok: Tok<Vec<Tok<T>>>)
    requires
        old(global).wf(),
        old(global).has_room(items@.len() + 1),
    ensures
        final(global).wf(),
        final(global).started(),
        kept(old(global).tables(), final(global).tables()),
        spent(old(global).tables(), final(global).tables(), items@.len() + 1),
        tok.value()@.len() == items@.len(),
        forall|k: int|
            0 <= k < items@.len() ==> (#[trigger] tok.value()@[k]).value().key() == items@[k].key(),
        forall|k: int|
            0 <= k < items@.len() ==> on_record(final(global).tables(), #[trigger] tok.value()@[k]),
        exists|pos: int|
            0 <= pos < final(global).tables().len() && (#[trigger] final(global).tables()[pos]).holds(
                &tok,
            ),
{
    let interner = get_global(global);
    let ghost before = interner.tables();
    assert(before =~= old(global).tables());
    let tok = interner.iv(items);
    proof {
        let after = global.tables();
        let pos = choose|pos: int| 0 <= pos < after.len() && (#[trigger] after[pos]).holds(&tok);
        assert(after[pos].holds(&tok));
    }
    tok
}

/// Intern a list of borrowed items in the default registry. See also [`iv`].
///
/// The list has a token for each item, in order: a token that the registry
/// has issued, for a value with the key of the item.
pub fn ibv<Q: Probe + ?Sized>(global: &mut Global, items: &[&Q]) -> (tok: Tok<Vec<Tok<Q::Owned>>>)
    requires
        old(global).wf(),
        old(global).has_room(items@.len() + 1),
    ensures
        final(global).wf(),
        final(global).started(),
        kept(old(global).tables(), final(global).tables()),
        spent(old(global).tables(), final(global).tables(), items@.len() + 1),
        tok.value()@.len() == items@.len(),
        forall|k: int|
            0 <= k < items@.len() ==> (#[trigger] tok.value()@[k]).value().key()
                == items@[k].probe_key(),
        forall|k: int|
            0 <= k < items@.len() ==> on_record(final(global).tables(), #[trigger] tok.value()@[k]),
        exists|pos: int|
            0 <= pos < final(global).tables().len() && (#[trigger] final(global).tables()[pos]).holds(
                &tok,
            ),
{
    let interner = get_global(global);
    let ghost before = interner.tables();
    assert(before =~= old(global).tables());
    let tok = interner.ibv(items);
    proof {
        let after = global.tables();
        let pos = choose|pos: int| 0 <= pos < after.len() && (#[trigger] after[pos]).holds(&tok);
        assert(after[pos].holds(&tok));
    }
    tok
}

} // verus!
