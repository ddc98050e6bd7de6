//! The registry: one table for each type of value, made on demand.
use crate::index::type_of;
use crate::index::directory_get;
use crate::index::directory_insert;
use crate::index::directory_new;
use crate::index::directory_of;
use crate::index::Directory;
use crate::key::item_keys;
use crate::key::list_key;
use crate::key::Internable;
use crate::key::Probe;
use crate::table::issued;
use crate::table::shared;
use crate::table::Table;
use crate::token::joined;
use crate::token::same_token;
use crate::token::same_tokens;
use crate::token::Tok;
use crate::typed_interner::TypedInterner;
use std::any::TypeId;
use vstd::prelude::*;

verus! {

/// Operations that can be executed on an interner without knowing the type
/// of its values.
pub trait AnyInterner {
    /// The invariant of the interner.
    spec fn sound(&self) -> bool;

    /// The entries: for each stored key, the identity of its token.
    spec fn contents(&self) -> Map<Seq<u8>, usize>;

    /// Removes the entries that nothing refers to any more, and returns how
    /// many there were. The entries that stay are untouched.
    fn sweep(&mut self) -> (removed: usize)
        requires
            old(self).sound(),
        ensures
            final(self).sound(),
            final(self).contents().submap_of(old(self).contents()),
            removed == old(self).contents().len() - final(self).contents().len(),
    ;
}

impl AnyInterner for Table {
    open spec fn sound(&self) -> bool {
        self.wf()
    }

    open spec fn contents(&self) -> Map<Seq<u8>, usize> {
        self.entries()
    }

    fn sweep(&mut self) -> (removed: usize) {
        Table::sweep(self)
    }
}

impl<T: Internable> AnyInterner for TypedInterner<T> {
    open spec fn sound(&self) -> bool {
        self.wf()
    }

    open spec fn contents(&self) -> Map<Seq<u8>, usize> {
        self.entries()
    }

    fn sweep(&mut self) -> (removed: usize) {
        TypedInterner::sweep(self)
    }
}

/// A table as it is when it is made: empty, and about to issue identity 1.
pub open spec fn fresh(table: Table) -> bool {
    &&& table.wf()
    &&& table.entries() == Map::<Seq<u8>, usize>::empty()
    &&& table.history() == Map::<usize, Seq<u8>>::empty()
    &&& table.next_id() == 1
}

/// The registry has been asked for a table and answered `pos`: either its
/// tables are as before, or one fresh table was added at the end, at `pos`.
pub open spec fn provided(before: Seq<Table>, after: Seq<Table>, pos: int) -> bool {
    &&& 0 <= pos < after.len()
    &&& after == before || {
        &&& pos == before.len()
        &&& after.drop_last() == before
        &&& fresh(after.last())
    }
}

/// The table at `pos` has interned `key` and answered `id`; the other tables
/// are as before.
pub open spec fn stepped(
    before: Seq<Table>,
    after: Seq<Table>,
    pos: int,
    key: Seq<u8>,
    id: usize,
) -> bool {
    &&& 0 <= pos < before.len()
    &&& after.len() == before.len()
    &&& forall|p: int| 0 <= p < before.len() && p != pos ==> after[p] == before[p]
    &&& after[pos].wf()
    &&& after[pos].id() == before[pos].id()
    &&& before[pos].history().submap_of(after[pos].history())
    &&& shared(
        before[pos].entries(),
        before[pos].next_id(),
        after[pos].entries(),
        after[pos].next_id(),
        key,
        id,
    ) || issued(
        before[pos].entries(),
        before[pos].next_id(),
        after[pos].entries(),
        after[pos].next_id(),
        key,
        id,
    )
}

/// A table was added at the end for `key`, which got the first identity of
/// that table; the other tables are as before.
pub open spec fn started(before: Seq<Table>, after: Seq<Table>, key: Seq<u8>, id: usize) -> bool {
    &&& after.len() == before.len() + 1
    &&& after.drop_last() == before
    &&& after.last().wf()
    &&& issued(
        Map::<Seq<u8>, usize>::empty(),
        1,
        after.last().entries(),
        after.last().next_id(),
        key,
        id,
    )
}

/// A sweep has taken `before` to `after` and removed `removed` entries: the
/// entries that are left are as they were, and nothing else has changed.
pub open spec fn swept(before: Table, after: Table, removed: nat) -> bool {
    &&& after.wf()
    &&& after.id() == before.id()
    &&& after.next_id() == before.next_id()
    &&& after.history() == before.history()
    &&& after.entries().submap_of(before.entries())
    &&& removed == before.entries().len() - after.entries().len()
}

/// The table at `pos` was swept, and the other tables are as before.
pub open spec fn swept_one(before: Seq<Table>, after: Seq<Table>, pos: int, removed: nat) -> bool {
    &&& 0 <= pos < before.len()
    &&& after.len() == before.len()
    &&& forall|p: int| 0 <= p < before.len() && p != pos ==> after[p] == before[p]
    &&& swept(before[pos], after[pos], removed)
}

/// Every table of `before` is still in its place in `after`, under the same
/// identity.
pub open spec fn kept(before: Seq<Table>, after: Seq<Table>) -> bool {
    &&& before.len() <= after.len()
    &&& forall|p: int|
        0 <= p < before.len() ==> (#[trigger] after[p]).id() == before[p].id()
            && before[p].history().submap_of(after[p].history())
}

/// Every table of the row can issue `n` more identities, and so could a new
/// table.
pub open spec fn roomy(tables: Seq<Table>, n: nat) -> bool {
    &&& n < usize::MAX
    &&& forall|p: int| 0 <= p < tables.len() ==> (#[trigger] tables[p]).next_id() + n <= usize::MAX
}

/// Going from `before` to `after` has used at most `used` identities of each
/// table: where there was room for `n + used` more, there is room for `n`.
pub open spec fn spent(before: Seq<Table>, after: Seq<Table>, used: nat) -> bool {
    forall|n: nat| roomy(before, n + used) ==> #[trigger] roomy(after, n)
}

/// What one step uses and what the next step uses add up.
pub proof fn lemma_spent_twice(
    first: Seq<Table>,
    second: Seq<Table>,
    third: Seq<Table>,
    one: nat,
    two: nat,
)
    requires
        spent(first, second, one),
        spent(second, third, two),
    ensures
        spent(first, third, one + two),
{
    assert forall|n: nat| roomy(first, n + (one + two)) implies #[trigger] roomy(third, n) by {
        assert(roomy(second, n + two));
    }
}

/// The number of entries in a row of tables.
pub open spec fn total(tables: Seq<Table>) -> nat
    decreases tables.len(),
{
    if tables.len() == 0 {
        0
    } else {
        total(tables.drop_last()) + tables.last().entries().len()
    }
}

/// Every table of `after` is the table at the same place in `before` after a
/// sweep.
pub open spec fn swept_all(before: Seq<Table>, after: Seq<Table>) -> bool {
    &&& after.len() == before.len()
    &&& forall|p: int|
        0 <= p < before.len() ==> swept(
            #[trigger] before[p],
            after[p],
            (before[p].entries().len() - after[p].entries().len()) as nat,
        )
}

/// Whether some table of the row has issued `tok`, at some time.
pub open spec fn on_record<T: Internable>(tables: Seq<Table>, tok: Tok<T>) -> bool {
    exists|pos: int| 0 <= pos < tables.len() && (#[trigger] tables[pos]).recorded(&tok)
}

/// The place of the table with identity `id`: the first one, should the row
/// have more than one.
pub open spec fn home(tables: Seq<Table>, id: usize, pos: int) -> bool {
    &&& 0 <= pos < tables.len()
    &&& tables[pos].id() == id
    &&& forall|q: int| 0 <= q < pos ==> (#[trigger] tables[q]).id() != id
}

/// What is on record stays on record while the tables are kept.
pub proof fn lemma_kept_on_record<T: Internable>(before: Seq<Table>, after: Seq<Table>, tok: Tok<T>)
    requires
        kept(before, after),
        on_record(before, tok),
    ensures
        on_record(after, tok),
{
    let pos = choose|pos: int| 0 <= pos < before.len() && (#[trigger] before[pos]).recorded(&tok);
    assert(after[pos].id() == before[pos].id());
    assert(before[pos].history().submap_of(after[pos].history()));
    assert(before[pos].history().dom().contains(tok.id()));
    assert(after[pos].recorded(&tok));
}

/// What is on record for a token is on record for every token that is the
/// same.
pub proof fn lemma_same_on_record<T: Internable>(tables: Seq<Table>, a: Tok<T>, b: Tok<T>)
    requires
        same_token(a, b),
        on_record(tables, b),
    ensures
        on_record(tables, a),
{
    let pos = choose|pos: int| 0 <= pos < tables.len() && (#[trigger] tables[pos]).recorded(&b);
    assert(tables[pos].recorded(&a));
}

/// What is kept over one step and then over another is kept over both.
pub proof fn lemma_kept_twice(first: Seq<Table>, second: Seq<Table>, third: Seq<Table>)
    requires
        kept(first, second),
        kept(second, third),
    ensures
        kept(first, third),
{
    assert forall|p: int| 0 <= p < first.len() implies (#[trigger] third[p]).id() == first[p].id()
        && first[p].history().submap_of(third[p].history()) by {
        assert(second[p].id() == first[p].id());
        vstd::map_lib::lemma_submap_of_trans(
            first[p].history(),
            second[p].history(),
            third[p].history(),
        );
    }
}

/// Asking for a table and then interning in it either steps a table that
/// was there or starts a new one. Either way the tables that were there are
/// kept, and at most one identity of the room of each is used.
pub proof fn lemma_provided_then_stepped(
    first: Seq<Table>,
    between: Seq<Table>,
    last: Seq<Table>,
    pos: int,
    key: Seq<u8>,
    id: usize,
)
    requires
        provided(first, between, pos),
        stepped(between, last, pos, key, id),
    ensures
        kept(first, last),
        between == first ==> stepped(first, last, pos, key, id),
        between != first ==> started(first, last, key, id),
        spent(first, last, 1),
{
    if between != first {
        assert(last.drop_last() =~= first) by {
            assert forall|p: int| 0 <= p < first.len() implies last[p] == first[p] by {
                assert(between.drop_last()[p] == first[p]);
            }
        }
    }
    assert forall|p: int| 0 <= p < first.len() implies (#[trigger] last[p]).id() == first[p].id()
        && first[p].history().submap_of(last[p].history()) by {
        if between != first {
            assert(between.drop_last()[p] == first[p]);
        }
    }
    assert forall|n: nat| roomy(first, n + 1) implies #[trigger] roomy(last, n) by {
        assert forall|p: int| 0 <= p < last.len() implies (#[trigger] last[p]).next_id() + n
            <= usize::MAX by {
            if p < first.len() {
                assert(first[p].next_id() + n + 1 <= usize::MAX);
                if between != first {
                    assert(between.drop_last()[p] == first[p]);
                }
            }
        }
    }
}

/// A row of tables has no more entries than a longer row that starts with it.
proof fn lemma_total_prefix(tables: Seq<Table>, n: int)
    requires
        0 <= n <= tables.len(),
    ensures
        total(tables.take(n)) <= total(tables),
    decreases tables.len() - n,
{
    if n == tables.len() {
        assert(tables.take(n) =~= tables);
    } else {
        lemma_total_prefix(tables, n + 1);
        assert(tables.take(n + 1).drop_last() =~= tables.take(n));
    }
}

/// A collection of interners, one for each type of value. It can intern
/// anything that is [`Internable`].
pub struct Interner {
    tables: Vec<Table>,
    directory: Directory,
}

impl Interner {
    /// The tables of the registry, in the order in which they were made.
    pub closed spec fn tables(&self) -> Seq<Table> {
        self.tables@
    }

    /// The position of the table for the type with identity `ty`, if the
    /// registry has one.
    pub closed spec fn place(&self, ty: TypeId) -> Option<int> {
        if directory_of(self.directory).contains_key(ty) {
            Some(directory_of(self.directory)[ty] as int)
        } else {
            None
        }
    }

    /// The invariant of the registry: every table is well formed, every type
    /// identity that it knows leads to one of its tables, and no two lead to
    /// the same table.
    pub closed spec fn wf(&self) -> bool {
        &&& forall|p: int| 0 <= p < self.tables@.len() ==> (#[trigger] self.tables@[p]).wf()
        &&& forall|k: TypeId| #[trigger]
            directory_of(self.directory).contains_key(k) ==> directory_of(self.directory)[k] < self.tables@.len()
        &&& forall|j: TypeId, k: TypeId|
            #![trigger directory_of(self.directory)[j], directory_of(self.directory)[k]]
            directory_of(self.directory).contains_key(j) && directory_of(self.directory).contains_key(k) && j != k
                ==> directory_of(self.directory)[j] != directory_of(self.directory)[k]
    }

    /// Whether every table can issue `n` more identities, and a new table
    /// could too.
    pub open spec fn has_room(&self, n: nat) -> bool {
        roomy(self.tables(), n)
    }

    /// What the invariant says to the outside: every table is well formed,
    /// and the registry has at most one table for a type and at most one
    /// type for a table.
    pub proof fn lemma_wf(&self)
        requires
            self.wf(),
        ensures
            forall|p: int| 0 <= p < self.tables().len() ==> (#[trigger] self.tables()[p]).wf(),
            forall|k: TypeId|
                (#[trigger] self.place(k)) is Some ==> 0 <= self.place(k).unwrap()
                    < self.tables().len(),
            forall|j: TypeId, k: TypeId|
                #![trigger self.place(j), self.place(k)]
                self.place(j) is Some && self.place(j) == self.place(k) ==> j == k,
    {
        assert forall|j: TypeId, k: TypeId|
            #![trigger self.place(j), self.place(k)]
            self.place(j) is Some && self.place(j) == self.place(k) implies j == k by {
            if j != k {
                assert(directory_of(self.directory)[j] != directory_of(self.directory)[k]);
            }
        }
    }

    /// Create a new interner: a registry without tables.
    pub fn new() -> (interner: Interner)
        ensures
            interner.wf(),
            interner.tables().len() == 0,
            forall|k: TypeId| interner.place(k) is None,
    {
        Interner { tables: Vec::new(), directory: directory_new() }
    }

    /// Whether every table can issue `n` more identities, and a new table
    /// could too: what interning `n` values asks for.
    pub fn can_issue(&self, n: usize) -> (room: bool)
        ensures
            room == self.has_room(n as nat),
    {
        if n == usize::MAX {
            return false;
        }
        let mut p: usize = 0;
        while p < self.tables.len()
            invariant
                p <= self.tables@.len(),
                n < usize::MAX,
                forall|q: int|
                    0 <= q < p ==> (#[trigger] self.tables@[q]).next_id() + n <= usize::MAX,
            decreases self.tables@.len() - p,
        {
            if self.tables[p].spare() < n {
                return false;
            }
            p += 1;
        }
        true
    }

    /// The number of entries in all tables together, if that number fits a
    /// `usize`, which sweeping all tables asks for.
    pub fn size(&self) -> (n: Option<usize>)
        requires
            self.wf(),
        ensures
            n is Some == (total(self.tables()) <= usize::MAX),
            n matches Some(t) ==> t == total(self.tables()),
    {
        let mut sum: usize = 0;
        let mut p: usize = 0;
        while p < self.tables.len()
            invariant
                self.wf(),
                p <= self.tables@.len(),
                sum == total(self.tables@.take(p as int)),
            decreases self.tables@.len() - p,
        {
            let n = self.tables[p].size();
            proof {
                lemma_total_prefix(self.tables@, p as int + 1);
                assert(self.tables@.take(p as int + 1).drop_last() =~= self.tables@.take(p as int));
            }
            if n > usize::MAX - sum {
                return None;
            }
            sum += n;
            p += 1;
        }
        assert(self.tables@.take(p as int) =~= self.tables@);
        Some(sum)
    }

    /// The position of the table for the type with identity `ty`. The
    /// table is made, empty, if the registry has none for that type.
    pub fn table_for(&mut self, ty: TypeId) -> (pos: usize)
        requires
            old(self).wf(),
        ensures
            final(self).wf(),
            final(self).place(ty) == Some(pos as int),
            forall|k: TypeId| k != ty ==> final(self).place(k) == old(self).place(k),
            provided(old(self).tables(), final(self).tables(), pos as int),
            old(self).place(ty) is Some ==> {
                &&& old(self).place(ty) == Some(pos as int)
                &&& final(self).tables() == old(self).tables()
            },
            old(self).place(ty) is None ==> final(self).tables().len() == old(self).tables().len()
                + 1,
    {
        match directory_get(&self.directory, &ty) {
            Some(pos) => pos,
            None => {
                let pos = self.tables.len();
                self.tables.push(Table::new());
                let _ = directory_insert(&mut self.directory, ty, pos);
                assert(self.tables@.drop_last() =~= old(self).tables@);
                pos
            },
        }
    }

    /// Get or create the table for the values of type `T`: the answer is its
    /// position.
    ///
    /// The type is found by its identity, which this library takes from the
    /// compiler; [`Interner::table_for`] says what happens for each identity.
    pub fn get_interner<T: Internable>(&mut self) -> (pos: usize)
        requires
            old(self).wf(),
        ensures
            final(self).wf(),
            provided(old(self).tables(), final(self).tables(), pos as int),
    {
        let ty = type_of::<T>();
        self.table_for(ty)
    }

    /// Interns `q` in the table at `pos`.
    pub fn intern_at<Q: Probe + ?Sized>(&mut self, pos: usize, q: &Q) -> (tok: Tok<Q::Owned>)
        requires
            old(self).wf(),
            pos < old(self).tables().len(),
            old(self).tables()[pos as int].has_room(),
        ensures
            final(self).wf(),
            forall|k: TypeId| final(self).place(k) == old(self).place(k),
            tok.value().key() == q.probe_key(),
            final(self).tables()[pos as int].holds(&tok),
            stepped(old(self).tables(), final(self).tables(), pos as int, q.probe_key(), tok.id()),
    {
        self.tables[pos].intern(q)
    }

    /// Interns `q` in the table for the type with identity `ty`, which is
    /// made if the registry has none.
    pub fn intern_in<Q: Probe + ?Sized>(&mut self, ty: TypeId, q: &Q) -> (tok: Tok<Q::Owned>)
        requires
            old(self).wf(),
            old(self).has_room(1),
        ensures
            final(self).wf(),
            tok.value().key() == q.probe_key(),
            kept(old(self).tables(), final(self).tables()),
            spent(old(self).tables(), final(self).tables(), 1),
            forall|k: TypeId| k != ty ==> final(self).place(k) == old(self).place(k),
            final(self).place(ty) matches Some(pos) && 0 <= pos < final(self).tables().len()
                && final(self).tables()[pos].holds(&tok),
            match old(self).place(ty) {
                Some(pos) => {
                    &&& final(self).place(ty) == Some(pos)
                    &&& stepped(
                        old(self).tables(),
                        final(self).tables(),
                        pos,
                        q.probe_key(),
                        tok.id(),
                    )
                },
                None => {
                    &&& final(self).place(ty) == Some(old(self).tables().len() as int)
                    &&& started(old(self).tables(), final(self).tables(), q.probe_key(), tok.id())
                },
            },
    {
        let pos = self.table_for(ty);
        let ghost between = self.tables@;
        let tok = self.intern_at(pos, q);
        proof {
            lemma_provided_then_stepped(
                old(self).tables@,
                between,
                self.tables@,
                pos as int,
                q.probe_key(),
                tok.id(),
            );
        }
        tok
    }

    /// Intern something.
    ///
    /// The value goes to the table of its type, which is made if this is the
    /// first value of that type. That table holds the token from then on, and
    /// no other table changes. This is [`Interner::intern_in`] for the
    /// identity of the type, which says which table that is.
    pub fn i<Q: Probe + ?Sized>(&mut self, q: &Q) -> (tok: Tok<Q::Owned>)
        requires
            old(self).wf(),
            old(self).has_room(1),
        ensures
            final(self).wf(),
            tok.value().key() == q.probe_key(),
            kept(old(self).tables(), final(self).tables()),
            spent(old(self).tables(), final(self).tables(), 1),
            exists|pos: int|
                0 <= pos < final(self).tables().len() && (#[trigger] final(self).tables()[pos]).holds(
                    &tok,
                ),
            on_record(final(self).tables(), tok),
            started(old(self).tables(), final(self).tables(), q.probe_key(), tok.id()) || exists|
                pos: int,
            | #[trigger]
                stepped(old(self).tables(), final(self).tables(), pos, q.probe_key(), tok.id()),
    {
        let ty = type_of::<Q::Owned>();
        let tok = self.intern_in(ty, q);
        proof {
            let pos = self.place(ty).unwrap();
            assert(self.tables()[pos].holds(&tok));
            assert(self.tables()[pos].recorded(&tok));
            if old(self).place(ty) is Some {
                assert(stepped(old(self).tables(), self.tables(), pos, q.probe_key(), tok.id()));
            }
        }
        tok
    }

    /// Interns each of `items`, in order, and returns their tokens.
    fn intern_each<Q: Probe + ?Sized>(&mut self, items: &[&Q]) -> (toks: Vec<Tok<Q::Owned>>)
        requires
            old(self).wf(),
            old(self).has_room(items@.len() + 1),
        ensures
            final(self).wf(),
            final(self).has_room(1),
            kept(old(self).tables(), final(self).tables()),
            spent(old(self).tables(), final(self).tables(), items@.len()),
            toks@.len() == items@.len(),
            forall|k: int|
                0 <= k < items@.len() ==> (#[trigger] toks@[k]).value().key()
                    == items@[k].probe_key(),
            forall|k: int|
                0 <= k < items@.len() ==> on_record(final(self).tables(), #[trigger] toks@[k]),
    {
        let mut toks: Vec<Tok<Q::Owned>> = Vec::new();
        let mut k: usize = 0;
        while k < items.len()
            invariant
                self.wf(),
                k <= items@.len(),
                self.has_room((items@.len() - k + 1) as nat),
                kept(old(self).tables(), self.tables()),
                spent(old(self).tables(), self.tables(), k as nat),
                toks@.len() == k,
                forall|j: int|
                    0 <= j < k ==> (#[trigger] toks@[j]).value().key() == items@[j].probe_key(),
                forall|j: int| 0 <= j < k ==> on_record(self.tables(), #[trigger] toks@[j]),
            decreases items@.len() - k,
        {
            assert(self.has_room(1));
            let ghost room = (items@.len() - k) as nat;
            let ghost before = self.tables();
            let ghost sofar = toks@;
            let tok = self.i(items[k]);
            assert(self.has_room(room));
            proof {
                lemma_kept_twice(old(self).tables(), before, self.tables());
                lemma_spent_twice(old(self).tables(), before, self.tables(), k as nat, 1);
                assert forall|j: int| 0 <= j < k implies on_record(self.tables(), #[trigger] sofar[j]) by {
                    lemma_kept_on_record(before, self.tables(), sofar[j]);
                }
            }
            toks.push(tok);
            k += 1;
        }
        toks
    }

    /// Interns a list of tokens in the table at `pos`. The list that the
    /// answer stands for holds the same tokens as `list`, place by place.
    pub fn intern_tokens_at<T: Internable>(&mut self, pos: usize, list: &[Tok<T>]) -> (tok: Tok<
        Vec<Tok<T>>,
    >)
        requires
            old(self).wf(),
            pos < old(self).tables().len(),
            old(self).tables()[pos as int].has_room(),
        ensures
            final(self).wf(),
            forall|k: TypeId| final(self).place(k) == old(self).place(k),
            tok.value().key() == list_key(item_keys(list@)),
            same_tokens(tok.value()@, list@),
            final(self).tables()[pos as int].holds(&tok),
            stepped(
                old(self).tables(),
                final(self).tables(),
                pos as int,
                list_key(item_keys(list@)),
                tok.id(),
            ),
    {
        self.tables[pos].intern_tokens(list)
    }

    /// Intern a list of borrowed items and its elements. See also
    /// [`Interner::iv`].
    ///
    /// Each item is interned in the table of its type, and then the list of
    /// their tokens is interned as a value in its own right: the answer is
    /// the token of that list. The list has a token for each item, in order:
    /// a token that this registry has issued, for a value with the key of
    /// the item.
    pub fn ibv<Q: Probe + ?Sized>(&mut self, items: &[&Q]) -> (tok: Tok<Vec<Tok<Q::Owned>>>)
        requires
            old(self).wf(),
            old(self).has_room(items@.len() + 1),
        ensures
            final(self).wf(),
            kept(old(self).tables(), final(self).tables()),
            spent(old(self).tables(), final(self).tables(), items@.len() + 1),
            tok.value()@.len() == items@.len(),
            forall|k: int|
                0 <= k < items@.len() ==> (#[trigger] tok.value()@[k]).value().key()
                    == items@[k].probe_key(),
            forall|k: int|
                0 <= k < items@.len() ==> on_record(final(self).tables(), #[trigger] tok.value()@[k]),
            exists|pos: int|
                0 <= pos < final(self).tables().len() && (#[trigger] final(self).tables()[pos]).holds(
                    &tok,
                ),
    {
        let toks = self.intern_each(items);
        let ghost before = self.tables();
        let pos = self.get_interner::<Vec<Tok<Q::Owned>>>();
        let ghost between = self.tables();
        let tok = self.intern_tokens_at(pos, toks.as_slice());
        proof {
            lemma_provided_then_stepped(
                before,
                between,
                self.tables(),
                pos as int,
                list_key(item_keys(toks@)),
                tok.id(),
            );
            lemma_kept_twice(old(self).tables(), before, self.tables());
            lemma_spent_twice(old(self).tables(), before, self.tables(), items@.len(), 1);
            assert(self.tables()[pos as int].holds(&tok));
            assert forall|k: int| 0 <= k < items@.len() implies (#[trigger] tok.value()@[k]).value().key()
                == items@[k].probe_key() && on_record(self.tables(), tok.value()@[k]) by {
                assert(same_token(tok.value()@[k], toks@[k]));
                assert(on_record(before, toks@[k]));
                lemma_kept_on_record(before, self.tables(), toks@[k]);
                lemma_same_on_record(self.tables(), tok.value()@[k], toks@[k]);
            }
        }
        tok
    }

    /// Intern a list and its elements. See also [`Interner::ibv`].
    ///
    /// Each item is interned in the table of its type, and then the list of
    /// their tokens is interned as a value in its own right: the answer is
    /// the token of that list. The list has a token for each item, in order:
    /// a token that this registry has issued, for a value with the key of
    /// the item.
    pub fn iv<T: Internable>(&mut self, items: Vec<T>) -> (tok: Tok<Vec<Tok<T>>>)
        requires
            old(self).wf(),
            old(self).has_room(items@.len() + 1),
        ensures
            final(self).wf(),
            kept(old(self).tables(), final(self).tables()),
            spent(old(self).tables(), final(self).tables(), items@.len() + 1),
            tok.value()@.len() == items@.len(),
            forall|k: int|
                0 <= k < items@.len() ==> (#[trigger] tok.value()@[k]).value().key()
                    == items@[k].key(),
            forall|k: int|
                0 <= k < items@.len() ==> on_record(final(self).tables(), #[trigger] tok.value()@[k]),
            exists|pos: int|
                0 <= pos < final(self).tables().len() && (#[trigger] final(self).tables()[pos]).holds(
                    &tok,
                ),
    {
        let mut refs: Vec<&T> = Vec::new();
        let mut k: usize = 0;
        while k < items.len()
            invariant
                k <= items@.len(),
                refs@.len() == k,
                forall|j: int| 0 <= j < k ==> *(#[trigger] refs@[j]) == items@[j],
            decreases items@.len() - k,
        {
            refs.push(&items[k]);
            k += 1;
        }
        let tok = self.ibv(refs.as_slice());
        proof {
            assert forall|k: int| 0 <= k < items@.len() implies (#[trigger] tok.value()@[k]).value().key()
                == items@[k].key() by {
                assert(*refs@[k] == items@[k]);
            }
        }
        tok
    }

    /// The place of the table with identity `id`, if the registry has one:
    /// the table that issued every token with that identity of its interner.
    pub fn home_of(&self, id: usize) -> (found: Option<usize>)
        requires
            self.wf(),
        ensures
            found matches Some(pos) ==> home(self.tables(), id, pos as int),
            found is None ==> forall|q: int|
                0 <= q < self.tables().len() ==> (#[trigger] self.tables()[q]).id() != id,
    {
        let mut p: usize = 0;
        while p < self.tables.len()
            invariant
                self.wf(),
                p <= self.tables@.len(),
                forall|q: int| 0 <= q < p ==> (#[trigger] self.tables@[q]).id() != id,
            decreases self.tables@.len() - p,
        {
            if self.tables[p].id() == id {
                return Some(p);
            }
            p += 1;
        }
        None
    }

    /// Whether a table of this registry has the identity that `tok` carries,
    /// as one has for every token that the registry issued.
    pub open spec fn knows<T: Internable>(&self, tok: &Tok<T>) -> bool {
        exists|pos: int|
            0 <= pos < self.tables().len() && (#[trigger] self.tables()[pos]).id()
                == tok.interner_id()
    }

    /// Interns the list `head` and then `tail` in the table that issued
    /// `owner`.
    fn intern_joined<T: Internable>(
        &mut self,
        owner: &Tok<Vec<Tok<T>>>,
        head: &[Tok<T>],
        tail: &[Tok<T>],
    ) -> (tok: Tok<Vec<Tok<T>>>)
        requires
            old(self).wf(),
            old(self).has_room(1),
            old(self).knows(owner),
        ensures
            final(self).wf(),
            forall|k: TypeId| final(self).place(k) == old(self).place(k),
            kept(old(self).tables(), final(self).tables()),
            spent(old(self).tables(), final(self).tables(), 1),
            owner.comparable(&tok),
            tok.value().key() == list_key(item_keys(head@ + tail@)),
            same_tokens(tok.value()@, head@ + tail@),
            exists|pos: int|
                {
                    &&& #[trigger] home(old(self).tables(), owner.interner_id(), pos)
                    &&& final(self).tables()[pos].holds(&tok)
                    &&& stepped(
                        old(self).tables(),
                        final(self).tables(),
                        pos,
                        list_key(item_keys(head@ + tail@)),
                        tok.id(),
                    )
                },
    {
        let list = joined(head, tail);
        match self.home_of(owner.interner_id()) {
            Some(pos) => {
                let tok = self.intern_tokens_at(pos, list.as_slice());
                proof {
                    assert(home(old(self).tables(), owner.interner_id(), pos as int));
                    assert forall|n: nat| roomy(old(self).tables(), n + 1) implies #[trigger] roomy(
                        self.tables(),
                        n,
                    ) by {
                        assert forall|p: int| 0 <= p < self.tables().len() implies (
                        #[trigger] self.tables()[p]).next_id() + n <= usize::MAX by {
                            assert(old(self).tables()[p].next_id() + n + 1 <= usize::MAX);
                            if p != pos {
                                assert(self.tables()[p] == old(self).tables()[p]);
                            }
                        }
                    }
                    assert forall|p: int| 0 <= p < old(self).tables().len() implies (
                    #[trigger] self.tables()[p]).id() == old(self).tables()[p].id() && old(
                        self,
                    ).tables()[p].history().submap_of(self.tables()[p].history()) by {
                        if p != pos {
                            assert(self.tables()[p] == old(self).tables()[p]);
                        }
                    }
                }
                tok
            },
            None => {
                proof {
                    let pos = choose|pos: int|
                        0 <= pos < self.tables().len() && (#[trigger] self.tables()[pos]).id()
                            == owner.interner_id();
                    assert(self.tables()[pos].id() != owner.interner_id());
                }
                vstd::pervasive::unreached()
            },
        }
    }

    /// Add a suffix to an interned list of this registry: the token of the
    /// list that holds the tokens of `list` and then those of `suffix`. It
    /// is interned in the table that issued `list`.
    pub fn append<T: Internable>(&mut self, list: &Tok<Vec<Tok<T>>>, suffix: &[Tok<T>]) -> (tok:
        Tok<Vec<Tok<T>>>)
        requires
            old(self).wf(),
            old(self).has_room(1),
            old(self).knows(list),
        ensures
            final(self).wf(),
            forall|k: TypeId| final(self).place(k) == old(self).place(k),
            kept(old(self).tables(), final(self).tables()),
            spent(old(self).tables(), final(self).tables(), 1),
            list.comparable(&tok),
            tok.value().key() == list_key(item_keys(list.value()@ + suffix@)),
            same_tokens(tok.value()@, list.value()@ + suffix@),
            exists|pos: int|
                {
                    &&& #[trigger] home(old(self).tables(), list.interner_id(), pos)
                    &&& final(self).tables()[pos].holds(&tok)
                    &&& stepped(
                        old(self).tables(),
                        final(self).tables(),
                        pos,
                        list_key(item_keys(list.value()@ + suffix@)),
                        tok.id(),
                    )
                },
    {
        self.intern_joined(list, list.value().as_slice(), suffix)
    }

    /// Add a prefix to an interned list of this registry: the token of the
    /// list that holds the tokens of `prefix` and then those of `list`. It
    /// is interned in the table that issued `list`.
    pub fn prepend<T: Internable>(&mut self, list: &Tok<Vec<Tok<T>>>, prefix: &[Tok<T>]) -> (tok:
        Tok<Vec<Tok<T>>>)
        requires
            old(self).wf(),
            old(self).has_room(1),
            old(self).knows(list),
        ensures
            final(self).wf(),
            forall|k: TypeId| final(self).place(k) == old(self).place(k),
            kept(old(self).tables(), final(self).tables()),
            spent(old(self).tables(), final(self).tables(), 1),
            list.comparable(&tok),
            tok.value().key() == list_key(item_keys(prefix@ + list.value()@)),
            same_tokens(tok.value()@, prefix@ + list.value()@),
            exists|pos: int|
                {
                    &&& #[trigger] home(old(self).tables(), list.interner_id(), pos)
                    &&& final(self).tables()[pos].holds(&tok)
                    &&& stepped(
                        old(self).tables(),
                        final(self).tables(),
                        pos,
                        list_key(item_keys(prefix@ + list.value()@)),
                        tok.id(),
                    )
                },
    {
        self.intern_joined(list, prefix, list.value().as_slice())
    }

    /// Sweeps the table at `pos`.
    pub fn sweep_at(&mut self, pos: usize) -> (removed: usize)
        requires
            old(self).wf(),
            pos < old(self).tables().len(),
        ensures
            final(self).wf(),
            forall|k: TypeId| final(self).place(k) == old(self).place(k),
            swept_one(old(self).tables(), final(self).tables(), pos as int, removed as nat),
    {
        self.tables[pos].sweep()
    }

    /// Sweeps the table for the type with identity `ty`. A registry that
    /// has no such table is left alone, and the answer is 0.
    pub fn sweep_type(&mut self, ty: TypeId) -> (removed: usize)
        requires
            old(self).wf(),
        ensures
            final(self).wf(),
            forall|k: TypeId| final(self).place(k) == old(self).place(k),
            match old(self).place(ty) {
                Some(pos) => swept_one(
                    old(self).tables(),
                    final(self).tables(),
                    pos,
                    removed as nat,
                ),
                None => removed == 0 && final(self).tables() == old(self).tables(),
            },
    {
        match directory_get(&self.directory, &ty) {
            None => 0,
            Some(pos) => self.sweep_at(pos),
        }
    }

    /// Sweep values of a specific type. Useful after a large number of
    /// values of one type has been dropped; otherwise use [`Interner::sweep`].
    ///
    /// Either the registry has no table for `T`: then nothing changes and the
    /// answer is 0. Or that one table is swept, and no other table changes.
    pub fn sweep_t<T: Internable>(&mut self) -> (removed: usize)
        requires
            old(self).wf(),
        ensures
            final(self).wf(),
            forall|k: TypeId| final(self).place(k) == old(self).place(k),
            (removed == 0 && final(self).tables() == old(self).tables()) || exists|pos: int|
             #[trigger]
                swept_one(old(self).tables(), final(self).tables(), pos, removed as nat),
    {
        let ty = type_of::<T>();
        let removed = self.sweep_type(ty);
        proof {
            if old(self).place(ty) is Some {
                let pos = old(self).place(ty).unwrap();
                assert(swept_one(old(self).tables(), self.tables(), pos, removed as nat));
            }
        }
        removed
    }

    /// Sweep all values not referenced by anything other than the interner.
    ///
    /// Every table is swept, and the answer is the number of entries that
    /// were removed from all of them together.
    pub fn sweep(&mut self) -> (removed: usize)
        requires
            old(self).wf(),
            total(old(self).tables()) <= usize::MAX,
        ensures
            final(self).wf(),
            forall|k: TypeId| final(self).place(k) == old(self).place(k),
            swept_all(old(self).tables(), final(self).tables()),
            removed == total(old(self).tables()) - total(final(self).tables()),
    {
        let mut removed: usize = 0;
        let mut p: usize = 0;
        while p < self.tables.len()
            invariant
                self.wf(),
                p <= self.tables@.len(),
                self.tables@.len() == old(self).tables@.len(),
                total(old(self).tables@) <= usize::MAX,
                forall|k: TypeId| self.place(k) == old(self).place(k),
                forall|q: int| p <= q < self.tables@.len() ==> self.tables@[q] == old(self).tables@[q],
                forall|q: int|
                    0 <= q < p ==> swept(
                        #[trigger] old(self).tables@[q],
                        self.tables@[q],
                        (old(self).tables@[q].entries().len() - self.tables@[q].entries().len()) as nat,
                    ),
                removed == total(old(self).tables@.take(p as int)) - total(
                    self.tables@.take(p as int),
                ),
                total(self.tables@.take(p as int)) <= total(old(self).tables@.take(p as int)),
            decreases self.tables@.len() - p,
        {
            let ghost before = self.tables@;
            let n = self.sweep_at(p);
            proof {
                let first = old(self).tables@;
                let after = self.tables@;
                lemma_total_prefix(first, p as int + 1);
                assert(first.take(p as int + 1).drop_last() =~= first.take(p as int));
                assert(after.take(p as int + 1).drop_last() =~= after.take(p as int));
                assert(after.take(p as int) =~= before.take(p as int));
                assert(before[p as int] == first[p as int]);
                assert(swept(first[p as int], after[p as int], n as nat));
            }
            removed += n;
            p += 1;
        }
        proof {
            assert(self.tables@.take(p as int) =~= self.tables@);
            assert(old(self).tables@.take(p as int) =~= old(self).tables@);
        }
        removed
    }
}

impl Default for Interner {
    /// A registry without tables.
    fn default() -> (interner: Interner)
        ensures
            interner.wf(),
            interner.tables().len() == 0,
    {
        Interner::new()
    }
}

} // verus!
