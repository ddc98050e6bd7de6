//! A table for the values of one type.
use crate::key::item_keys;
use crate::key::list_key;
use crate::key::Internable;
use crate::key::Probe;
use crate::table::issued;
use crate::table::shared;
use crate::table::Table;
use crate::token::same_tokens;
use crate::token::Tok;
use std::marker::PhantomData;
use vstd::prelude::*;

verus! {

/// An interner for the values of type `T`. It holds at most one entry for
/// each key, and the entries of values that no token holds any more stay
/// until [`TypedInterner::sweep`] removes them.
pub struct TypedInterner<T: Internable> {
    table: Table,
    marker: PhantomData<T>,
}

impl<T: Internable> TypedInterner<T> {
    /// The entries: for each stored key, the identity of its token.
    pub closed spec fn entries(&self) -> Map<Seq<u8>, usize> {
        self.table.entries()
    }

    /// The identity of this interner.
    pub closed spec fn spec_id(&self) -> usize {
        self.table.spec_id()
    }

    /// The identity that the next new entry will get.
    pub closed spec fn next_id(&self) -> usize {
        self.table.next_id()
    }

    /// Every identity that the interner has ever issued, with the key that it
    /// was issued for. Sweeping does not shorten this record.
    pub closed spec fn history(&self) -> Map<usize, Seq<u8>> {
        self.table.history()
    }

    /// The invariant of the interner, which every function here keeps.
    pub closed spec fn wf(&self) -> bool {
        self.table.wf()
    }

    /// Whether another identity can be issued.
    pub open spec fn has_room(&self) -> bool {
        self.next_id() < usize::MAX
    }

    /// Whether `tok` was issued by this interner, at some time.
    pub open spec fn recorded(&self, tok: &Tok<T>) -> bool {
        &&& tok.interner_id() == self.spec_id()
        &&& self.history().contains_key(tok.id())
        &&& self.history()[tok.id()] == tok.value().key()
    }

    /// Whether `tok` is the token that this interner holds for its value now.
    pub open spec fn holds(&self, tok: &Tok<T>) -> bool {
        &&& self.recorded(tok)
        &&& self.entries().contains_key(tok.value().key())
        &&& self.entries()[tok.value().key()] == tok.id()
    }

    /// In a well-formed interner every identity is nonzero and below the next
    /// one, no identity stands for two keys, every entry is on record, and
    /// there are finitely many entries.
    pub proof fn lemma_entries(&self)
        requires
            self.wf(),
        ensures
            self.entries().dom().finite(),
            forall|k: Seq<u8>| #[trigger]
                self.entries().contains_key(k) ==> 0 < self.entries()[k] < self.next_id(),
            forall|j: Seq<u8>, k: Seq<u8>|
                self.entries().contains_key(j) && self.entries().contains_key(k) && j != k
                    ==> self.entries()[j] != self.entries()[k],
            forall|k: Seq<u8>| #[trigger]
                self.entries().contains_key(k) ==> self.history().contains_key(self.entries()[k])
                    && self.history()[self.entries()[k]] == k,
            forall|id: usize| #[trigger]
                self.history().contains_key(id) ==> 0 < id < self.next_id(),
    {
        self.table.lemma_entries();
    }

    /// A fresh interner: no entries, and an identity of its own.
    pub fn new() -> (interner: Self)
        ensures
            interner.wf(),
            interner.entries() == Map::<Seq<u8>, usize>::empty(),
            interner.history() == Map::<usize, Seq<u8>>::empty(),
            interner.next_id() == 1,
            interner.spec_id() != 0,
    {
        TypedInterner { table: Table::new(), marker: PhantomData }
    }

    /// The identity of this interner: never zero.
    #[verifier::when_used_as_spec(spec_id)]
    pub fn id(&self) -> (id: usize)
        requires
            self.wf(),
        ensures
            id == self.spec_id(),
            id != 0,
    {
        self.table.id()
    }

    /// Whether another identity can be issued, which interning asks for.
    pub fn can_issue(&self) -> (room: bool)
        ensures
            room == self.has_room(),
    {
        self.table.can_issue()
    }

    /// The number of stored entries: an upper bound on the number of values
    /// that are alive.
    pub fn size(&self) -> (n: usize)
        requires
            self.wf(),
        ensures
            n == self.entries().len(),
    {
        self.table.size()
    }

    /// Removes the entries that are no longer referenced anywhere else, and
    /// returns how many there were. The entries that stay are untouched.
    pub fn sweep(&mut self) -> (removed: usize)
        requires
            old(self).wf(),
        ensures
            final(self).wf(),
            final(self).spec_id() == old(self).spec_id(),
            final(self).next_id() == old(self).next_id(),
            final(self).history() == old(self).history(),
            final(self).entries().submap_of(old(self).entries()),
            removed == old(self).entries().len() - final(self).entries().len(),
    {
        self.table.sweep()
    }

    /// Interns a value, returning its token.
    ///
    /// The token stands for a value with the key of `q`, and the interner
    /// holds it from then on. Either the key had an entry that was still
    /// alive, which is shared as it was, or a new identity is issued.
    pub fn i<Q: Probe<Owned = T> + ?Sized>(&mut self, q: &Q) -> (tok: Tok<T>)
        requires
            old(self).wf(),
            old(self).has_room(),
        ensures
            final(self).wf(),
            final(self).spec_id() == old(self).spec_id(),
            final(self).holds(&tok),
            tok.value().key() == q.probe_key(),
            old(self).history().submap_of(final(self).history()),
            shared(
                old(self).entries(),
                old(self).next_id(),
                final(self).entries(),
                final(self).next_id(),
                q.probe_key(),
                tok.id(),
            ) || issued(
                old(self).entries(),
                old(self).next_id(),
                final(self).entries(),
                final(self).next_id(),
                q.probe_key(),
                tok.id(),
            ),
    {
        self.table.intern(q)
    }
}

impl<T: Internable> TypedInterner<Vec<Tok<T>>> {
    /// Interns a list of tokens: as [`TypedInterner::i`] does, and the list
    /// that the token stands for holds the same tokens as `list`, place by
    /// place, also where the interner had the list before.
    pub fn intern_tokens(&mut self, list: &[Tok<T>]) -> (tok: Tok<Vec<Tok<T>>>)
        requires
            old(self).wf(),
            old(self).has_room(),
        ensures
            final(self).wf(),
            final(self).spec_id() == old(self).spec_id(),
            final(self).holds(&tok),
            tok.value().key() == list_key(item_keys(list@)),
            same_tokens(tok.value()@, list@),
            old(self).history().submap_of(final(self).history()),
            shared(
                old(self).entries(),
                old(self).next_id(),
                final(self).entries(),
                final(self).next_id(),
                list_key(item_keys(list@)),
                tok.id(),
            ) || issued(
                old(self).entries(),
                old(self).next_id(),
                final(self).entries(),
                final(self).next_id(),
                list_key(item_keys(list@)),
                tok.id(),
            ),
    {
        self.table.intern_tokens(list)
    }
}

} // verus!
