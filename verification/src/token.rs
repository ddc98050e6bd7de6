//! The handles that callers hold.
use crate::global::ev;
use crate::global::Global;
use crate::interner::kept;
use crate::interner::on_record;
use crate::interner::spent;
use crate::interner::started;
use crate::interner::stepped;
use crate::handle::recover;
use crate::handle::revive;
use crate::handle::share;
use crate::handle::store;
use crate::handle::weak_key;
use crate::handle::weaken;
use crate::handle::WeakHandle;
use crate::key::encode_list;
use crate::key::framable;
use crate::key::item_keys;
use crate::key::lemma_list_key;
use crate::key::lemma_word_then;
use crate::key::list_key;
use crate::key::push_word;
use crate::key::word_bytes;
use crate::key::Internable;
use crate::key::Probe;
use crate::table::issued;
use crate::table::placed;
use crate::table::shared;
use crate::table::Table;
use crate::typed_interner::TypedInterner;
use std::cmp::Ordering;
use std::marker::PhantomData;
use std::ops::Deref;
use std::sync::Arc;
use vstd::prelude::*;

verus! {

/// A shared handle to a stored value.
///
/// A token owns its value together with every other token for that value, and
/// it keeps the identity of the table that issued it reserved for as long as
/// it exists. Two tokens of one table are equal exactly when their identities
/// are. Tokens of different tables must not be compared.
pub struct Tok<T: Internable> {
    data: Arc<T>,
    anchor: Arc<u8>,
    id: usize,
    interner_id: usize,
}

/// A handle that observes a stored value without keeping it, or its table's
/// identity, alive.
pub struct WeakTok<T: Internable> {
    value: WeakHandle,
    table: WeakHandle,
    id: usize,
    interner_id: usize,
    marker: PhantomData<T>,
}

impl<T: Internable> Tok<T> {
    #[verifier::type_invariant]
    spec fn nonzero(&self) -> bool {
        self.id != 0 && self.interner_id != 0
    }

    /// The identity of this token within its table.
    pub closed spec fn spec_id(&self) -> usize {
        self.id
    }

    /// The identity of the table that issued this token.
    pub closed spec fn spec_interner_id(&self) -> usize {
        self.interner_id
    }

    /// The value that this token stands for.
    pub closed spec fn spec_value(&self) -> &T {
        &*self.data
    }

    /// Whether two tokens were issued by the same table, so that they may be
    /// compared.
    pub open spec fn comparable(&self, other: &Self) -> bool {
        self.spec_interner_id() == other.spec_interner_id()
    }

    /// Makes a token. Only tables do this.
    pub(crate) fn new(data: Arc<T>, anchor: Arc<u8>, id: usize, interner_id: usize) -> (tok: Self)
        requires
            id != 0,
            interner_id != 0,
        ensures
            *tok.spec_value() == *data,
            tok.spec_id() == id,
            tok.spec_interner_id() == interner_id,
    {
        Tok { data, anchor, id, interner_id }
    }

    /// The identity of the token: never zero, and the same for two tokens of
    /// one table exactly when they are equal.
    #[verifier::when_used_as_spec(spec_id)]
    pub fn id(&self) -> (id: usize)
        ensures
            id == self.spec_id(),
            id != 0,
    {
        proof {
            use_type_invariant(self);
        }
        self.id
    }

    /// The identity of the issuing table: never zero.
    #[verifier::when_used_as_spec(spec_interner_id)]
    pub fn interner_id(&self) -> (id: usize)
        ensures
            id == self.spec_interner_id(),
            id != 0,
    {
        proof {
            use_type_invariant(self);
        }
        self.interner_id
    }

    /// The identity as a plain integer.
    pub fn usize(&self) -> (id: usize)
        ensures
            id == self.spec_id(),
            id != 0,
    {
        self.id()
    }

    /// The stored value.
    #[verifier::when_used_as_spec(spec_value)]
    pub fn value(&self) -> (value: &T)
        ensures
            value == self.spec_value(),
    {
        &*self.data
    }

    /// States that two tokens come from the same table. Comparing tokens of
    /// different tables is an error of the caller, and the comparisons below
    /// do not accept them.
    pub fn assert_comparable(&self, other: &Self)
        requires
            self.comparable(other),
        ensures
            self.interner_id() == other.interner_id(),
    {
    }

    /// Whether two tokens of one table stand for the same stored value.
    pub fn eq(&self, other: &Self) -> (same: bool)
        requires
            self.comparable(other),
        ensures
            same == (self.id() == other.id()),
    {
        self.assert_comparable(other);
        self.id == other.id
    }

    /// The order of two tokens of one table: the order of their identities.
    pub fn cmp(&self, other: &Self) -> (order: Ordering)
        requires
            self.comparable(other),
        ensures
            order == Ordering::Less <==> self.id() < other.id(),
            order == Ordering::Equal <==> self.id() == other.id(),
            order == Ordering::Greater <==> self.id() > other.id(),
    {
        self.assert_comparable(other);
        if self.id < other.id {
            Ordering::Less
        } else if self.id == other.id {
            Ordering::Equal
        } else {
            Ordering::Greater
        }
    }

    /// The order of two tokens of one table, which always exists.
    pub fn partial_cmp(&self, other: &Self) -> (order: Option<Ordering>)
        requires
            self.comparable(other),
        ensures
            order == Some(Ordering::Less) <==> self.id() < other.id(),
            order == Some(Ordering::Equal) <==> self.id() == other.id(),
            order == Some(Ordering::Greater) <==> self.id() > other.id(),
    {
        Some(self.cmp(other))
    }
}

impl<T: Internable> Deref for Tok<T> {
    type Target = T;

    /// The stored value.
    fn deref(&self) -> (value: &T)
        ensures
            value == self.spec_value(),
    {
        &*self.data
    }
}

impl<T: Internable> Clone for Tok<T> {
    /// Another token for the same value, with the same identity.
    fn clone(&self) -> (copy: Self)
        ensures
            copy == *self,
    {
        proof {
            use_type_invariant(self);
        }
        Tok {
            data: share(&self.data),
            anchor: share(&self.anchor),
            id: self.id,
            interner_id: self.interner_id,
        }
    }
}

impl<T: Internable> WeakTok<T> {
    #[verifier::type_invariant]
    spec fn nonzero(&self) -> bool {
        self.id != 0 && self.interner_id != 0
    }

    /// The identity of the token that this handle was made from.
    pub closed spec fn id(&self) -> usize {
        self.id
    }

    /// The identity of the table that issued that token.
    pub closed spec fn interner_id(&self) -> usize {
        self.interner_id
    }

    /// The key of the value that this handle observes.
    pub closed spec fn key(&self) -> Seq<u8> {
        weak_key(self.value)
    }

    /// A weak handle to the value and to the table identity of `tok`.
    pub fn new(tok: &Tok<T>) -> (weak: Self)
        ensures
            weak.id() == tok.id(),
            weak.interner_id() == tok.interner_id(),
            weak.key() == tok.value().key(),
    {
        proof {
            use_type_invariant(tok);
        }
        let value = store(share(&tok.data));
        let table = store(share(&tok.anchor));
        WeakTok {
            value: weaken(&value),
            table: weaken(&table),
            id: tok.id,
            interner_id: tok.interner_id,
            marker: PhantomData,
        }
    }

    /// The token that this handle gives when reviving its value gave `data`
    /// and reviving its table identity gave `anchor`: a token if both were
    /// revived, and nothing if either was not.
    pub(crate) fn restore(&self, data: Option<Arc<T>>, anchor: Option<Arc<u8>>) -> (tok: Option<
        Tok<T>,
    >)
        requires
            data matches Some(a) ==> a.key() == self.key(),
        ensures
            tok is Some == (data is Some && anchor is Some),
            tok matches Some(t) ==> {
                &&& t.id() == self.id()
                &&& t.interner_id() == self.interner_id()
                &&& t.value().key() == self.key()
                &&& data matches Some(a) && *t.value() == *a
            },
    {
        proof {
            use_type_invariant(self);
        }
        match (data, anchor) {
            (Some(data), Some(anchor)) => Some(Tok::new(data, anchor, self.id, self.interner_id)),
            _ => None,
        }
    }

    /// A token for the observed value, if the value and the table identity
    /// are both still held by someone else. Which of the two answers comes
    /// back depends on what the rest of the program has dropped: this
    /// function revives the two weak handles, and [`WeakTok::restore`] says
    /// what it returns for each outcome of that.
    pub fn upgrade(&self) -> (tok: Option<Tok<T>>)
        ensures
            tok matches Some(t) ==> {
                &&& t.id() == self.id()
                &&& t.interner_id() == self.interner_id()
                &&& t.value().key() == self.key()
            },
    {
        let data = match revive(&self.value) {
            Some(stored) => recover::<T>(stored),
            None => None,
        };
        let anchor = match revive(&self.table) {
            Some(stored) => recover::<u8>(stored),
            None => None,
        };
        self.restore(data, anchor)
    }
}

/// Whether two tokens have the same two identities and stand for values with
/// the same key.
pub open spec fn same_token<T: Internable>(a: Tok<T>, b: Tok<T>) -> bool {
    &&& a.id() == b.id()
    &&& a.interner_id() == b.interner_id()
    &&& a.value().key() == b.value().key()
}

/// Whether two lists hold the same tokens, place by place.
pub open spec fn same_tokens<T: Internable>(a: Seq<Tok<T>>, b: Seq<Tok<T>>) -> bool {
    &&& a.len() == b.len()
    &&& forall|k: int| 0 <= k < a.len() ==> same_token(#[trigger] a[k], b[k])
}

/// Tokens have the same key exactly when they are the same token.
pub proof fn lemma_token_key<T: Internable>(a: Tok<T>, b: Tok<T>)
    ensures
        a.key() == b.key() <==> same_token(a, b),
{
    let rest_a = word_bytes(a.id() as u64) + a.value().key();
    let rest_b = word_bytes(b.id() as u64) + b.value().key();
    assert(a.key() =~= word_bytes(a.interner_id() as u64) + rest_a);
    assert(b.key() =~= word_bytes(b.interner_id() as u64) + rest_b);
    if a.key() == b.key() {
        lemma_word_then(a.interner_id() as u64, rest_a, b.interner_id() as u64, rest_b);
        lemma_word_then(a.id() as u64, a.value().key(), b.id() as u64, b.value().key());
    }
}

/// Lists of tokens have the same keys, place by place, exactly when they
/// hold the same tokens.
pub proof fn lemma_same_tokens<T: Internable>(a: Seq<Tok<T>>, b: Seq<Tok<T>>)
    ensures
        item_keys(a) == item_keys(b) <==> same_tokens(a, b),
{
    if item_keys(a) == item_keys(b) {
        assert(a.len() == item_keys(a).len());
        assert(b.len() == item_keys(b).len());
        assert forall|k: int| 0 <= k < a.len() implies same_token(#[trigger] a[k], b[k]) by {
            assert(item_keys(a)[k] == a[k].key());
            assert(item_keys(b)[k] == b[k].key());
            lemma_token_key(a[k], b[k]);
        }
    }
    if same_tokens(a, b) {
        assert forall|k: int| 0 <= k < a.len() implies item_keys(a)[k] == item_keys(b)[k] by {
            assert(same_token(a[k], b[k]));
            lemma_token_key(a[k], b[k]);
        }
        assert(item_keys(a) =~= item_keys(b));
    }
}

/// A list with the key of a list of tokens whose keys were computed holds
/// the same tokens.
pub proof fn lemma_token_list_key<T: Internable>(a: Seq<Tok<T>>, b: Seq<Tok<T>>)
    requires
        framable(item_keys(b)),
        list_key(item_keys(a)) == list_key(item_keys(b)),
    ensures
        item_keys(a) == item_keys(b),
        same_tokens(a, b),
{
    lemma_list_key(item_keys(a), item_keys(b));
    lemma_same_tokens(a, b);
}

/// Lists that hold the same tokens keep doing so when the same tokens are
/// put before or behind them.
pub proof fn lemma_same_tokens_joined<T: Internable>(
    a: Seq<Tok<T>>,
    b: Seq<Tok<T>>,
    c: Seq<Tok<T>>,
    d: Seq<Tok<T>>,
)
    requires
        same_tokens(a, b),
        same_tokens(c, d),
    ensures
        same_tokens(a + c, b + d),
{
    assert forall|k: int| 0 <= k < (a + c).len() implies same_token(#[trigger] (a + c)[k], (b + d)[k]) by {
        if k < a.len() {
            assert(same_token(a[k], b[k]));
        } else {
            assert(same_token(c[k - a.len()], d[k - a.len()]));
        }
    }
}

/// Lays two lists of tokens end to end.
pub(crate) fn joined<T: Internable>(head: &[Tok<T>], tail: &[Tok<T>]) -> (list: Vec<Tok<T>>)
    ensures
        list@ == head@ + tail@,
{
    let mut list: Vec<Tok<T>> = Vec::new();
    let mut k: usize = 0;
    while k < head.len()
        invariant
            k <= head@.len(),
            list@ == head@.take(k as int),
        decreases head@.len() - k,
    {
        list.push(head[k].clone());
        assert(list@ =~= head@.take(k as int + 1));
        k += 1;
    }
    assert(head@.take(k as int) =~= head@);
    let mut j: usize = 0;
    while j < tail.len()
        invariant
            j <= tail@.len(),
            list@ == head@ + tail@.take(j as int),
        decreases tail@.len() - j,
    {
        list.push(tail[j].clone());
        assert(list@ =~= head@ + tail@.take(j as int + 1));
        j += 1;
    }
    assert(tail@.take(j as int) =~= tail@);
    list
}

impl<T: Internable> Tok<T> {
    /// Intern something with the default registry.
    pub fn i<Q: Probe<Owned = T> + ?Sized>(global: &mut Global, q: &Q) -> (tok: Self)
        requires
            old(global).wf(),
            old(global).has_room(1),
        ensures
            final(global).wf(),
            final(global).started(),
            tok.value().key() == q.probe_key(),
            kept(old(global).tables(), final(global).tables()),
            spent(old(global).tables(), final(global).tables(), 1),
            on_record(final(global).tables(), tok),
            exists|pos: int|
                0 <= pos < final(global).tables().len() && (
                #[trigger] final(global).tables()[pos]).holds(&tok),
            started(old(global).tables(), final(global).tables(), q.probe_key(), tok.id())
                || exists|pos: int| #[trigger]
                stepped(old(global).tables(), final(global).tables(), pos, q.probe_key(), tok.id()),
    {
        crate::global::i(global, q)
    }
}

impl Table {
    /// Interns a list of tokens: returns the token of the list, which the
    /// table holds from then on.
    ///
    /// This is [`Table::intern`] for a list of tokens, of which more is
    /// known: the list that the token stands for holds the same tokens as
    /// `list`, place by place, also where the table had the list before.
    pub fn intern_tokens<T: Internable>(&mut self, list: &[Tok<T>]) -> (tok: Tok<Vec<Tok<T>>>)
        requires
            old(self).wf(),
            old(self).has_room(),
        ensures
            final(self).wf(),
            final(self).id() == old(self).id(),
            final(self).holds(&tok),
            tok.value().key() == list_key(item_keys(list@)),
            same_tokens(tok.value()@, list@),
            final(self).order() == placed(
                old(self).order(),
                old(self).entries(),
                list_key(item_keys(list@)),
            ),
            old(self).history().submap_of(final(self).history()),
            shared(
                old(self).entries(),
                old(self).next_id(),
                final(self).entries(),
                final(self).next_id(),
                list_key(item_keys(list@)),
                tok.id(),
            ) || issued(
                old(self).entries(),
                old(self).next_id(),
                final(self).entries(),
                final(self).next_id(),
                list_key(item_keys(list@)),
                tok.id(),
            ),
    {
        let key = encode_list(list);
        let live = self.lookup::<Vec<Tok<T>>>(&key);
        let tok = self.settle(list, key, live);
        proof {
            lemma_token_list_key(tok.value()@, list@);
        }
        tok
    }
}

impl<T: Internable> Tok<Vec<Tok<T>>> {
    /// The values of the tokens of this list, in order, each copied out of
    /// its storage.
    pub fn ev(&self) -> (values: Vec<T>)
        ensures
            values@.len() == self.value()@.len(),
            forall|k: int|
                0 <= k < values@.len() ==> (#[trigger] values@[k]).key()
                    == self.value()@[k].value().key(),
    {
        ev(self.value().as_slice())
    }

    /// Add a suffix to the interned list: the token of the list that holds
    /// the tokens of this one and then those of `suffix`. `interner` has to
    /// be the interner that issued this token; for a token of a registry
    /// there is [`Interner::append`].
    pub fn append(&self, interner: &mut TypedInterner<Vec<Tok<T>>>, suffix: &[Tok<T>]) -> (tok:
        Self)
        requires
            old(interner).wf(),
            old(interner).has_room(),
            self.interner_id() == old(interner).spec_id(),
        ensures
            final(interner).wf(),
            final(interner).spec_id() == old(interner).spec_id(),
            final(interner).holds(&tok),
            self.comparable(&tok),
            tok.value().key() == list_key(item_keys(self.value()@ + suffix@)),
            same_tokens(tok.value()@, self.value()@ + suffix@),
            shared(
                old(interner).entries(),
                old(interner).next_id(),
                final(interner).entries(),
                final(interner).next_id(),
                list_key(item_keys(self.value()@ + suffix@)),
                tok.id(),
            ) || issued(
                old(interner).entries(),
                old(interner).next_id(),
                final(interner).entries(),
                final(interner).next_id(),
                list_key(item_keys(self.value()@ + suffix@)),
                tok.id(),
            ),
    {
        let list = joined(self.value().as_slice(), suffix);
        interner.intern_tokens(list.as_slice())
    }

    /// Add a prefix to the interned list: the token of the list that holds
    /// the tokens of `prefix` and then those of this one. `interner` has to
    /// be the interner that issued this token; for a token of a registry
    /// there is [`Interner::prepend`].
    pub fn prepend(&self, interner: &mut TypedInterner<Vec<Tok<T>>>, prefix: &[Tok<T>]) -> (tok:
        Self)
        requires
            old(interner).wf(),
            old(interner).has_room(),
            self.interner_id() == old(interner).spec_id(),
        ensures
            final(interner).wf(),
            final(interner).spec_id() == old(interner).spec_id(),
            final(interner).holds(&tok),
            self.comparable(&tok),
            tok.value().key() == list_key(item_keys(prefix@ + self.value()@)),
            same_tokens(tok.value()@, prefix@ + self.value()@),
            shared(
                old(interner).entries(),
                old(interner).next_id(),
                final(interner).entries(),
                final(interner).next_id(),
                list_key(item_keys(prefix@ + self.value()@)),
                tok.id(),
            ) || issued(
                old(interner).entries(),
                old(interner).next_id(),
                final(interner).entries(),
                final(interner).next_id(),
                list_key(item_keys(prefix@ + self.value()@)),
                tok.id(),
            ),
    {
        let list = joined(prefix, self.value().as_slice());
        interner.intern_tokens(list.as_slice())
    }
}

/// A token is itself a storable value, so a list of tokens can be stored like
/// any other value. Its key is its two identities and then the key of its
/// value: what a list of tokens stands for can be read off the key of the
/// list.
impl<T: Internable> Internable for Tok<T> {
    open spec fn key(&self) -> Seq<u8> {
        word_bytes(self.spec_interner_id() as u64) + word_bytes(self.spec_id() as u64)
            + self.spec_value().key()
    }

    fn encode(&self) -> (bytes: Vec<u8>) {
        let mut out: Vec<u8> = Vec::new();
        push_word(&mut out, self.interner_id as u64);
        push_word(&mut out, self.id as u64);
        let mut part = self.value().encode();
        out.append(&mut part);
        out
    }

    fn duplicate(&self) -> (copy: Self) {
        self.clone()
    }
}

} // verus!
