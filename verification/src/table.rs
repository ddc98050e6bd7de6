//! A table: one slot for each stored key, and the identity of its token.
//!
//! A table does not keep its values alive. Each slot observes its value
//! through a weak handle; when the last token for a value is dropped the slot
//! is *dead*, and it stays in the table until it is swept or until the same
//! key is interned again.
use crate::handle::address_of;
use crate::handle::recover;
use crate::handle::revive;
use crate::handle::share;
use crate::handle::store;
use crate::handle::weak_key;
use crate::handle::weaken;
use crate::handle::WeakHandle;
use crate::index::index_get;
use crate::index::index_insert;
use crate::index::index_len;
use crate::index::index_new;
use crate::index::index_of;
use crate::index::index_remove;
use crate::index::Index;
use crate::key::Internable;
use crate::key::Probe;
use crate::token::Tok;
use std::sync::Arc;
use vstd::prelude::*;

verus! {

/// One row of a table.
struct Slot {
    key: Vec<u8>,
    id: usize,
    weak: WeakHandle,
}

/// A table of stored keys. Its value type is not part of its own type: the
/// typed front is `TypedInterner`.
///
/// The identity of a table is the address of a small allocation that the
/// table shares with every token that it issues, so that the address is not
/// given to another table while one of them exists. The identities of its
/// tokens are counted up from 1.
pub struct Table {
    slots: Vec<Slot>,
    index: Index,
    anchor: Arc<u8>,
    id: usize,
    next_id: usize,
    record: Ghost<Map<usize, Seq<u8>>>,
}

/// Interning `key` found a live entry and shared it: the table is as before,
/// and `id` is the identity that the entry had.
pub open spec fn shared(
    before: Map<Seq<u8>, usize>,
    before_next: usize,
    after: Map<Seq<u8>, usize>,
    after_next: usize,
    key: Seq<u8>,
    id: usize,
) -> bool {
    &&& before.contains_key(key)
    &&& id == before[key]
    &&& after == before
    &&& after_next == before_next
}

/// Interning `key` found no entry, or a dead one, and issued a new identity:
/// `id` is the next unused one, and the table now maps `key` to it.
pub open spec fn issued(
    before: Map<Seq<u8>, usize>,
    before_next: usize,
    after: Map<Seq<u8>, usize>,
    after_next: usize,
    key: Seq<u8>,
    id: usize,
) -> bool {
    &&& id == before_next
    &&& after == before.insert(key, id)
    &&& after_next == before_next + 1
}

/// The order of a table after `key` was interned: as it was if the key had an
/// entry, dead or alive, and with the key at the end if it had none.
pub open spec fn placed(order: Seq<Seq<u8>>, entries: Map<Seq<u8>, usize>, key: Seq<u8>) -> Seq<
    Seq<u8>,
> {
    if entries.contains_key(key) {
        order
    } else {
        order.push(key)
    }
}

/// The keys that an observation found dead, among those from place `from`
/// on: `alive` says of each place of `order` whether its value was still
/// held.
pub open spec fn dead_from(order: Seq<Seq<u8>>, alive: Seq<bool>, from: int) -> Set<Seq<u8>> {
    Set::new(
        |k: Seq<u8>|
            exists|p: int| from <= p < order.len() && (#[trigger] order[p]) == k && !alive[p],
    )
}

/// The keys that an observation found dead.
pub open spec fn dead_keys(order: Seq<Seq<u8>>, alive: Seq<bool>) -> Set<Seq<u8>> {
    dead_from(order, alive, 0)
}

/// The number of places that an observation found dead.
pub open spec fn count_dead(alive: Seq<bool>) -> nat
    decreases alive.len(),
{
    if alive.len() == 0 {
        0
    } else {
        (if alive[0] {
            0nat
        } else {
            1nat
        }) + count_dead(alive.skip(1))
    }
}

impl Table {
    /// The entries of the table: for each stored key, the identity of its
    /// token.
    pub closed spec fn entries(&self) -> Map<Seq<u8>, usize> {
        Map::new(
            |k: Seq<u8>| index_of(self.index).contains_key(k),
            |k: Seq<u8>| self.slots@[index_of(self.index)[k] as int].id,
        )
    }

    /// The identity of the table.
    pub closed spec fn spec_id(&self) -> usize {
        self.id
    }

    /// The identity that the next new entry will get. Identities are issued
    /// in increasing order and never twice.
    pub closed spec fn next_id(&self) -> usize {
        self.next_id
    }

    /// Every identity that the table has ever issued, with the key that it
    /// was issued for. Sweeping does not shorten this record.
    pub closed spec fn history(&self) -> Map<usize, Seq<u8>> {
        self.record@
    }

    /// Whether another identity can be issued.
    pub open spec fn has_room(&self) -> bool {
        self.next_id() < usize::MAX
    }

    /// Whether `tok` was issued by this table, at some time.
    pub open spec fn recorded<T: Internable>(&self, tok: &Tok<T>) -> bool {
        &&& tok.interner_id() == self.spec_id()
        &&& self.history().contains_key(tok.id())
        &&& self.history()[tok.id()] == tok.value().key()
    }

    /// Whether `tok` is the token that this table holds for its value now.
    pub open spec fn holds<T: Internable>(&self, tok: &Tok<T>) -> bool {
        &&& self.recorded(tok)
        &&& self.entries().contains_key(tok.value().key())
        &&& self.entries()[tok.value().key()] == tok.id()
    }

    /// The keys of the entries, in the order in which the table goes through
    /// them when it looks which of them are alive. Interning keeps the order
    /// and adds new keys at the end; removing entries may change it.
    pub closed spec fn order(&self) -> Seq<Seq<u8>> {
        self.slots@.map_values(|s: Slot| s.key@)
    }

    /// The invariant of a table: the index and the slots agree, every slot
    /// observes a value with the slot's key, and identities are nonzero,
    /// below the next one, and different from slot to slot.
    pub closed spec fn wf(&self) -> bool {
        let map = index_of(self.index);
        &&& self.id != 0
        &&& self.next_id >= 1
        &&& forall|k: Seq<u8>| #[trigger]
            map.contains_key(k) ==> map[k] < self.slots@.len() && self.slots@[map[k] as int].key@
                == k
        &&& forall|p: int|
            0 <= p < self.slots@.len() ==> map.contains_key((#[trigger] self.slots@[p]).key@)
                && map[self.slots@[p].key@] == p
        &&& forall|p: int|
            0 <= p < self.slots@.len() ==> weak_key((#[trigger] self.slots@[p]).weak)
                == self.slots@[p].key@
        &&& forall|p: int|
            0 <= p < self.slots@.len() ==> 0 < (#[trigger] self.slots@[p]).id < self.next_id
        &&& forall|p: int, q: int|
            0 <= p < q < self.slots@.len() ==> (#[trigger] self.slots@[p]).id != (
            #[trigger] self.slots@[q]).id
        &&& forall|p: int|
            0 <= p < self.slots@.len() ==> self.record@.contains_key((#[trigger] self.slots@[p]).id)
                && self.record@[self.slots@[p].id] == self.slots@[p].key@
        &&& forall|id: usize| #[trigger] self.record@.contains_key(id) ==> 0 < id < self.next_id
    }

    /// In a well-formed table every identity is nonzero and below the next
    /// one, no identity stands for two keys, every entry is on record, and
    /// there are finitely many entries.
    pub proof fn lemma_entries(&self)
        requires
            self.wf(),
        ensures
            self.entries().dom().finite(),
            forall|k: Seq<u8>| #[trigger]
                self.entries().contains_key(k) ==> 0 < self.entries()[k] < self.next_id(),
            forall|j: Seq<u8>, k: Seq<u8>|
                self.entries().contains_key(j) && self.entries().contains_key(k) && j != k
                    ==> self.entries()[j] != self.entries()[k],
            forall|k: Seq<u8>| #[trigger]
                self.entries().contains_key(k) ==> self.history().contains_key(self.entries()[k])
                    && self.history()[self.entries()[k]] == k,
            forall|id: usize| #[trigger]
                self.history().contains_key(id) ==> 0 < id < self.next_id(),
    {
        self.lemma_count();
        assert forall|k: Seq<u8>| #[trigger] self.entries().contains_key(k) implies self.history().contains_key(
            self.entries()[k],
        ) && self.history()[self.entries()[k]] == k by {
            let p = index_of(self.index)[k] as int;
            assert(self.slots@[p].key@ == k);
        }
        assert forall|j: Seq<u8>, k: Seq<u8>|
            self.entries().contains_key(j) && self.entries().contains_key(k) && j
                != k implies self.entries()[j] != self.entries()[k] by {
            let map = index_of(self.index);
            let p = map[j] as int;
            let q = map[k] as int;
            assert(self.slots@[p].key@ == j);
            assert(self.slots@[q].key@ == k);
            assert(p != q);
            if p < q {
                assert(self.slots@[p].id != self.slots@[q].id);
            } else {
                assert(self.slots@[q].id != self.slots@[p].id);
            }
        }
    }

    proof fn lemma_count(&self)
        requires
            self.wf(),
        ensures
            self.entries().dom().finite(),
            self.entries().len() == self.slots@.len(),
    {
        self.lemma_order();
    }

    /// The order of a well-formed table names every entry once.
    pub proof fn lemma_order(&self)
        requires
            self.wf(),
        ensures
            self.order().no_duplicates(),
            self.order().to_set() == self.entries().dom(),
            self.order().len() == self.entries().len(),
            self.entries().dom().finite(),
    {
        let keys = self.order();
        let map = index_of(self.index);
        assert forall|p: int, q: int|
            0 <= p < keys.len() && 0 <= q < keys.len() && p != q implies keys[p] != keys[q] by {
            assert(map[self.slots@[p].key@] == p);
            assert(map[self.slots@[q].key@] == q);
        }
        assert(keys.to_set() =~= self.entries().dom()) by {
            assert forall|k: Seq<u8>| keys.to_set().contains(k) implies self.entries().dom().contains(
                k,
            ) by {
                let p = choose|p: int| 0 <= p < keys.len() && keys[p] == k;
                assert(map.contains_key(self.slots@[p].key@));
            }
            assert forall|k: Seq<u8>| self.entries().dom().contains(k) implies keys.to_set().contains(
                k,
            ) by {
                let p = map[k] as int;
                assert(keys[p] == k);
            }
        }
        keys.unique_seq_to_set();
        vstd::seq_lib::seq_to_set_is_finite(keys);
    }

    /// An empty table with an identity of its own.
    pub fn new() -> (table: Table)
        ensures
            table.wf(),
            table.entries() == Map::<Seq<u8>, usize>::empty(),
            table.history() == Map::<usize, Seq<u8>>::empty(),
            table.order() == Seq::<Seq<u8>>::empty(),
            table.next_id() == 1,
            table.id() != 0,
    {
        let anchor = Arc::new(0u8);
        let id = address_of(&anchor);
        let table = Table {
            slots: Vec::new(),
            index: index_new(),
            anchor,
            id,
            next_id: 1,
            record: Ghost(Map::empty()),
        };
        assert(table.entries() =~= Map::<Seq<u8>, usize>::empty());
        assert(table.order() =~= Seq::<Seq<u8>>::empty());
        table
    }

    /// The identity of the table: never zero. Every token that the table
    /// issues carries it.
    #[verifier::when_used_as_spec(spec_id)]
    pub fn id(&self) -> (id: usize)
        requires
            self.wf(),
        ensures
            id == self.spec_id(),
            id != 0,
    {
        self.id
    }

    /// Whether another identity can be issued, which interning asks for.
    pub fn can_issue(&self) -> (room: bool)
        ensures
            room == self.has_room(),
    {
        self.next_id < usize::MAX
    }

    /// How many more identities can be issued.
    pub fn spare(&self) -> (n: usize)
        ensures
            n == usize::MAX - self.next_id(),
    {
        usize::MAX - self.next_id
    }

    /// The number of entries, dead ones included.
    pub fn size(&self) -> (n: usize)
        requires
            self.wf(),
        ensures
            n == self.entries().len(),
    {
        let n = index_len(&self.index);
        assert(self.entries().dom() =~= index_of(self.index).dom());
        n
    }

    /// Looks `key` up and, if it has an entry whose value is of type `T` and
    /// still held by some token, returns a strong handle to that value.
    ///
    /// Whether a value is still held is decided outside this library, so the
    /// answer may be `None` for a key that has an entry.
    pub fn lookup<T: Internable>(&self, key: &Vec<u8>) -> (live: Option<Arc<T>>)
        requires
            self.wf(),
        ensures
            live matches Some(a) ==> self.entries().contains_key(key@) && a.key() == key@,
    {
        match index_get(&self.index, key) {
            Some(pos) => {
                match revive(&self.slots[pos].weak) {
                    Some(stored) => recover::<T>(stored),
                    None => None,
                }
            },
            None => None,
        }
    }

    /// The token of the entry in the slot at `pos`, whose value is `data`.
    fn share_at<T: Internable>(&self, pos: usize, data: Arc<T>) -> (tok: Tok<T>)
        requires
            self.wf(),
            pos < self.slots@.len(),
            data.key() == self.slots@[pos as int].key@,
        ensures
            *tok.value() == *data,
            self.holds(&tok),
            tok.id() == self.entries()[data.key()],
    {
        Tok::new(data, share(&self.anchor), self.slots[pos].id, self.id)
    }

    /// Stores the value of `q` anew, under the next identity, in the slot at
    /// `pos`, which has its key.
    fn renew_at<Q: Probe + ?Sized>(&mut self, pos: usize, q: &Q, key: Vec<u8>) -> (tok: Tok<
        Q::Owned,
    >)
        requires
            old(self).wf(),
            old(self).has_room(),
            key@ == q.probe_key(),
            pos < old(self).slots@.len(),
            old(self).slots@[pos as int].key@ == key@,
        ensures
            final(self).wf(),
            final(self).id == old(self).id,
            final(self).holds(&tok),
            tok.value().key() == key@,
            final(self).history() == old(self).history().insert(tok.id(), key@),
            final(self).order() == old(self).order(),
            issued(
                old(self).entries(),
                old(self).next_id(),
                final(self).entries(),
                final(self).next_id(),
                key@,
                tok.id(),
            ),
    {
        let id = self.next_id;
        let data = Arc::new(q.to_stored());
        let stored = store(share(&data));
        let weak = weaken(&stored);
        self.slots[pos] = Slot { key, id, weak };
        self.next_id = id + 1;
        self.record = Ghost(self.record@.insert(id, key@));
        assert(self.entries() =~= old(self).entries().insert(key@, id));
        assert(self.order() =~= old(self).order());
        Tok::new(data, share(&self.anchor), id, self.id)
    }

    /// Stores the value of `q`, whose key has no entry, under the next
    /// identity in a new slot.
    fn mint<Q: Probe + ?Sized>(&mut self, q: &Q, key: Vec<u8>) -> (tok: Tok<Q::Owned>)
        requires
            old(self).wf(),
            old(self).has_room(),
            key@ == q.probe_key(),
            !old(self).entries().contains_key(key@),
        ensures
            final(self).wf(),
            final(self).id == old(self).id,
            final(self).holds(&tok),
            tok.value().key() == key@,
            final(self).history() == old(self).history().insert(tok.id(), key@),
            final(self).order() == old(self).order().push(key@),
            issued(
                old(self).entries(),
                old(self).next_id(),
                final(self).entries(),
                final(self).next_id(),
                key@,
                tok.id(),
            ),
    {
        let id = self.next_id;
        let data = Arc::new(q.to_stored());
        let stored = store(share(&data));
        let weak = weaken(&stored);
        let pos = self.slots.len();
        let copy = vstd::slice::slice_to_vec(key.as_slice());
        let _ = index_insert(&mut self.index, copy, pos);
        self.slots.push(Slot { key, id, weak });
        self.next_id = id + 1;
        self.record = Ghost(self.record@.insert(id, key@));
        assert(self.entries() =~= old(self).entries().insert(key@, id));
        assert(self.order() =~= old(self).order().push(key@));
        Tok::new(data, share(&self.anchor), id, self.id)
    }

    /// Gives out the token for `q`, given what [`Table::lookup`] found for its
    /// key.
    ///
    /// With a live value in hand the entry is shared as it is. Without one,
    /// the value is stored anew under the next identity: in place of the dead
    /// entry if the key has one, in a new entry otherwise. `live` is meant to
    /// be the answer of the lookup: a handle made in another way would get
    /// the identity of the entry without sharing its storage.
    pub fn settle<Q: Probe + ?Sized>(
        &mut self,
        q: &Q,
        key: Vec<u8>,
        live: Option<Arc<Q::Owned>>,
    ) -> (tok: Tok<Q::Owned>)
        requires
            old(self).wf(),
            old(self).has_room(),
            key@ == q.probe_key(),
            live matches Some(a) ==> old(self).entries().contains_key(key@) && a.key() == key@,
        ensures
            final(self).wf(),
            final(self).id() == old(self).id(),
            tok.value().key() == q.probe_key(),
            final(self).holds(&tok),
            final(self).order() == placed(old(self).order(), old(self).entries(), key@),
            live matches Some(a) ==> *tok.value() == *a,
            old(self).history().submap_of(final(self).history()),
            live is Some ==> final(self).history() == old(self).history(),
            live is None ==> final(self).history() == old(self).history().insert(tok.id(), key@),
            live is Some ==> shared(
                old(self).entries(),
                old(self).next_id(),
                final(self).entries(),
                final(self).next_id(),
                key@,
                tok.id(),
            ),
            live is None ==> issued(
                old(self).entries(),
                old(self).next_id(),
                final(self).entries(),
                final(self).next_id(),
                key@,
                tok.id(),
            ),
    {
        proof {
            old(self).lemma_entries();
        }
        match index_get(&self.index, &key) {
            Some(pos) => {
                match live {
                    Some(data) => self.share_at(pos, data),
                    None => self.renew_at(pos, q, key),
                }
            },
            None => self.mint(q, key),
        }
    }

    /// Interns `q`: returns the token of its key, which the table holds from
    /// then on.
    ///
    /// If the key has an entry whose value some token still holds, that
    /// entry is shared as it is. If not, the value is stored anew under the
    /// next identity: in place of the dead entry if the key has one, in a new
    /// entry otherwise. This is [`Table::lookup`] and then [`Table::settle`],
    /// which says which of these happens for each answer of the lookup.
    pub fn intern<Q: Probe + ?Sized>(&mut self, q: &Q) -> (tok: Tok<Q::Owned>)
        requires
            old(self).wf(),
            old(self).has_room(),
        ensures
            final(self).wf(),
            final(self).id() == old(self).id(),
            tok.value().key() == q.probe_key(),
            final(self).holds(&tok),
            final(self).order() == placed(old(self).order(), old(self).entries(), q.probe_key()),
            old(self).history().submap_of(final(self).history()),
            shared(
                old(self).entries(),
                old(self).next_id(),
                final(self).entries(),
                final(self).next_id(),
                q.probe_key(),
                tok.id(),
            ) || issued(
                old(self).entries(),
                old(self).next_id(),
                final(self).entries(),
                final(self).next_id(),
                q.probe_key(),
                tok.id(),
            ),
    {
        let key = q.probe_bytes();
        let live = self.lookup::<Q::Owned>(&key);
        self.settle(q, key, live)
    }

    /// Takes the slot at `pos` out of the table.
    fn remove_at(&mut self, pos: usize)
        requires
            old(self).wf(),
            pos < old(self).slots@.len(),
        ensures
            final(self).wf(),
            final(self).id == old(self).id,
            final(self).next_id == old(self).next_id,
            final(self).record@ == old(self).record@,
            final(self).entries() == old(self).entries().remove(old(self).slots@[pos as int].key@),
            final(self).slots@.len() + 1 == old(self).slots@.len(),
            forall|p: int| 0 <= p < pos ==> final(self).slots@[p] == old(self).slots@[p],
    {
        let last = self.slots.len() - 1;
        let _ = index_remove(&mut self.index, &self.slots[pos].key);
        let _ = self.slots.swap_remove(pos);
        if pos < last {
            let copy = vstd::slice::slice_to_vec(self.slots[pos].key.as_slice());
            let _ = index_insert(&mut self.index, copy, pos);
        }
        assert(self.entries() =~= old(self).entries().remove(old(self).slots@[pos as int].key@));
    }

    /// Looks at every entry, in order, and says of each whether its value is
    /// still held by some token.
    ///
    /// That is decided outside this library, when the weak handle of the
    /// entry is revived; all that is known of the answer is that it has one
    /// place for each entry.
    pub fn liveness(&self) -> (alive: Vec<bool>)
        requires
            self.wf(),
        ensures
            alive@.len() == self.order().len(),
    {
        let mut alive: Vec<bool> = Vec::new();
        let mut p: usize = 0;
        while p < self.slots.len()
            invariant
                p <= self.slots@.len(),
                alive@.len() == p,
            decreases self.slots@.len() - p,
        {
            alive.push(revive(&self.slots[p].weak).is_some());
            p += 1;
        }
        alive
    }

    /// Removes the entries that `alive` marks as dead, and returns how many
    /// there were. `alive` has one place for each entry, in the order of the
    /// table, as [`Table::liveness`] gives it.
    ///
    /// Exactly the marked entries go. The others keep their identity.
    pub fn discard(&mut self, alive: &Vec<bool>) -> (removed: usize)
        requires
            old(self).wf(),
            alive@.len() == old(self).order().len(),
        ensures
            final(self).wf(),
            final(self).id() == old(self).id(),
            final(self).next_id() == old(self).next_id(),
            final(self).history() == old(self).history(),
            final(self).entries() == old(self).entries().remove_keys(
                dead_keys(old(self).order(), alive@),
            ),
            removed == count_dead(alive@),
            removed == old(self).entries().len() - final(self).entries().len(),
    {
        let mut removed: usize = 0;
        let mut p: usize = self.slots.len();
        proof {
            self.lemma_count();
            assert(alive@.skip(p as int) =~= Seq::<bool>::empty());
            assert(self.entries() =~= old(self).entries().remove_keys(
                dead_from(old(self).order(), alive@, p as int),
            ));
        }
        while p > 0
            invariant
                self.wf(),
                self.id == old(self).id,
                self.next_id == old(self).next_id,
                self.record@ == old(self).record@,
                p <= self.slots@.len(),
                alive@.len() == old(self).slots@.len(),
                forall|q: int| 0 <= q < p ==> self.slots@[q] == old(self).slots@[q],
                self.entries() == old(self).entries().remove_keys(
                    dead_from(old(self).order(), alive@, p as int),
                ),
                removed == count_dead(alive@.skip(p as int)),
                removed + self.slots@.len() == old(self).slots@.len(),
                old(self).slots@.len() <= usize::MAX,
            decreases p,
        {
            p -= 1;
            let ghost before = self.entries();
            let ghost gone = old(self).order()[p as int];
            proof {
                assert(alive@.skip(p as int).skip(1) =~= alive@.skip(p as int + 1));
                assert(alive@.skip(p as int)[0] == alive@[p as int]);
                assert(self.slots@[p as int] == old(self).slots@[p as int]);
            }
            if !alive[p] {
                self.remove_at(p);
                removed += 1;
                assert(self.entries() =~= old(self).entries().remove_keys(
                    dead_from(old(self).order(), alive@, p as int),
                )) by {
                    let first = old(self).entries();
                    let was = dead_from(old(self).order(), alive@, p as int + 1);
                    let now = dead_from(old(self).order(), alive@, p as int);
                    assert(self.entries() == before.remove(gone));
                    assert(now.contains(gone));
                    assert forall|k: Seq<u8>| now.contains(k) <==> was.contains(k) || k == gone by {
                        if was.contains(k) {
                            let q = choose|q: int|
                                p + 1 <= q < old(self).order().len() && (
                                #[trigger] old(self).order()[q]) == k && !alive@[q];
                            assert(p <= q);
                        }
                    }
                }
            } else {
                assert(dead_from(old(self).order(), alive@, p as int) =~= dead_from(
                    old(self).order(),
                    alive@,
                    p as int + 1,
                )) by {
                    let was = dead_from(old(self).order(), alive@, p as int + 1);
                    let now = dead_from(old(self).order(), alive@, p as int);
                    assert forall|k: Seq<u8>| now.contains(k) implies was.contains(k) by {
                        let q = choose|q: int|
                            p <= q < old(self).order().len() && (#[trigger] old(self).order()[q])
                                == k && !alive@[q];
                        assert(q != p);
                    }
                    assert forall|k: Seq<u8>| was.contains(k) implies now.contains(k) by {
                        let q = choose|q: int|
                            p + 1 <= q < old(self).order().len() && (
                            #[trigger] old(self).order()[q]) == k && !alive@[q];
                        assert(p <= q);
                    }
                }
            }
        }
        proof {
            self.lemma_count();
            assert(alive@.skip(0) =~= alive@);
        }
        removed
    }

    /// Removes every entry whose value no token holds any more, and returns
    /// how many it removed. Entries that stay keep their identity.
    ///
    /// Which values are still held is decided outside this library:
    /// [`Table::liveness`] asks, and [`Table::discard`] removes exactly the
    /// entries that the answer marks as dead.
    pub fn sweep(&mut self) -> (removed: usize)
        requires
            old(self).wf(),
        ensures
            final(self).wf(),
            final(self).id() == old(self).id(),
            final(self).next_id() == old(self).next_id(),
            final(self).history() == old(self).history(),
            final(self).entries().submap_of(old(self).entries()),
            removed == old(self).entries().len() - final(self).entries().len(),
    {
        let alive = self.liveness();
        self.discard(&alive)
    }
}

} // verus!
