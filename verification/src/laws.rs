//! What holds of the library as a whole.
//!
//! Each law below is stated over what the functions of the library promise,
//! and proved from that alone.
//!
//! The library cannot see whether a value is still held by a token: the
//! standard library decides that when a weak handle is revived. A law that
//! speaks of a value that is still held therefore speaks of an interning that
//! *shared* the entry, which is what interning does when it finds the value
//! alive and only then.
use crate::key::framable;
use crate::key::item_keys;
use crate::key::lemma_text_key;
use crate::key::list_key;
use crate::key::Internable;
use crate::table::issued;
use crate::table::shared;
use crate::token::lemma_same_tokens;
use crate::token::lemma_same_tokens_joined;
use crate::token::lemma_token_list_key;
use crate::token::same_token;
use crate::token::same_tokens;
use crate::token::Tok;
use crate::typed_interner::TypedInterner;
use vstd::prelude::*;

verus! {

/// Interning is idempotent: while the value of a token is held, interning
/// the value again gives a token with the same identity, and the interner is
/// left as it was.
///
/// `held` is a token that `before` holds. Interning its key then took the
/// interner to `after` and gave `again`, by sharing the entry.
pub proof fn law_idempotence<T: Internable>(
    before: &TypedInterner<T>,
    after: &TypedInterner<T>,
    held: &Tok<T>,
    again: &Tok<T>,
)
    requires
        before.wf(),
        before.holds(held),
        shared(
            before.entries(),
            before.next_id(),
            after.entries(),
            after.next_id(),
            held.value().key(),
            again.id(),
        ),
    ensures
        again.id() == held.id(),
        after.entries() == before.entries(),
        after.next_id() == before.next_id(),
{
}

/// Whatever interning finds, the token that it gives for the key of a held
/// token has either the identity of that token or an identity that was never
/// issued before.
pub proof fn law_same_or_new<T: Internable>(
    before: &TypedInterner<T>,
    after: &TypedInterner<T>,
    held: &Tok<T>,
    again: &Tok<T>,
)
    requires
        before.wf(),
        before.holds(held),
        shared(
            before.entries(),
            before.next_id(),
            after.entries(),
            after.next_id(),
            held.value().key(),
            again.id(),
        ) || issued(
            before.entries(),
            before.next_id(),
            after.entries(),
            after.next_id(),
            held.value().key(),
            again.id(),
        ),
    ensures
        again.id() == held.id() || {
            &&& again.id() == before.next_id()
            &&& !before.history().contains_key(again.id())
            &&& again.id() > held.id()
        },
{
    before.lemma_entries();
}

/// Tokens are distinct: two tokens that one interner has issued for values
/// with different keys have different identities, whenever each was issued.
pub proof fn law_distinctness<T: Internable>(interner: &TypedInterner<T>, a: &Tok<T>, b: &Tok<T>)
    requires
        interner.recorded(a),
        interner.recorded(b),
        a.value().key() != b.value().key(),
    ensures
        a.id() != b.id(),
{
}

/// Tokens for different strings have different identities.
pub proof fn law_distinct_strings(interner: &TypedInterner<String>, a: &Tok<String>, b: &Tok<String>)
    requires
        interner.recorded(a),
        interner.recorded(b),
        a.value()@ != b.value()@,
    ensures
        a.id() != b.id(),
{
    if a.value().key() == b.value().key() {
        lemma_text_key(a.value()@, b.value()@);
    }
}

/// A token stays on record: what an interner has issued once, every later
/// state of that interner has issued too. No function of the library takes
/// anything out of the record of an interner or changes its identity.
pub proof fn law_record_is_kept<T: Internable>(
    then: &TypedInterner<T>,
    now: &TypedInterner<T>,
    tok: &Tok<T>,
)
    requires
        then.recorded(tok),
        now.spec_id() == then.spec_id(),
        then.history().submap_of(now.history()),
    ensures
        now.recorded(tok),
{
    assert(then.history().dom().contains(tok.id()));
}

/// An interner holds one token for each key: two tokens that it holds for
/// values with the same key have the same identity, and may be compared.
pub proof fn law_one_token_per_key<T: Internable>(interner: &TypedInterner<T>, a: &Tok<T>, b: &Tok<T>)
    requires
        interner.holds(a),
        interner.holds(b),
        a.value().key() == b.value().key(),
    ensures
        a.id() == b.id(),
        a.comparable(b),
{
}

/// Tokens of different interners are never comparable.
pub proof fn law_domains<T: Internable>(
    one: &TypedInterner<T>,
    two: &TypedInterner<T>,
    a: &Tok<T>,
    b: &Tok<T>,
)
    requires
        one.recorded(a),
        two.recorded(b),
        one.spec_id() != two.spec_id(),
    ensures
        !a.comparable(b),
{
}

/// A sweep accounts for every entry: the entries that are left are entries
/// that were there, under the same identity, and the number that a sweep
/// reports is exactly the number of keys that are gone.
pub proof fn law_sweep<T: Internable>(before: &TypedInterner<T>, after: &TypedInterner<T>, removed: nat)
    requires
        before.wf(),
        after.entries().submap_of(before.entries()),
        removed == before.entries().len() - after.entries().len(),
    ensures
        after.entries().dom().finite(),
        forall|k: Seq<u8>| #[trigger]
            after.entries().contains_key(k) ==> before.entries().contains_key(k)
                && after.entries()[k] == before.entries()[k],
        removed == before.entries().dom().difference(after.entries().dom()).len(),
        removed == 0 ==> after.entries() == before.entries(),
{
    before.lemma_entries();
    let was = before.entries().dom();
    let is = after.entries().dom();
    assert(is.subset_of(was));
    vstd::set_lib::lemma_len_subset(is, was);
    vstd::set_lib::lemma_set_difference_len(was, is);
    assert(was.intersect(is) =~= is);
    if removed == 0 {
        vstd::set_lib::lemma_subset_equality(is, was);
        assert(after.entries() =~= before.entries());
    }
}

/// Lists of tokens are stored once: a list has the key of a list of tokens
/// whose keys were computed, and so the same entry, exactly when it holds the
/// same tokens in the same order.
pub proof fn law_list_key<T: Internable>(a: Seq<Tok<T>>, b: Seq<Tok<T>>)
    requires
        framable(item_keys(b)),
    ensures
        list_key(item_keys(a)) == list_key(item_keys(b)) <==> same_tokens(a, b),
{
    if list_key(item_keys(a)) == list_key(item_keys(b)) {
        lemma_token_list_key(a, b);
    }
    lemma_same_tokens(a, b);
}

/// Lists are deduplicated: while a list is held, interning a list of the same
/// tokens again gives a token with the same identity.
///
/// `first` is a list token that `interner` holds. Interning the list `toks`
/// then gave `again`, by sharing the entry. If `toks` holds the same tokens
/// as the list of `first`, which it does when the items were interned again
/// while their tokens were held, the two list tokens have the same identity.
pub proof fn law_list_dedup<T: Internable>(
    interner: &TypedInterner<Vec<Tok<T>>>,
    after: &TypedInterner<Vec<Tok<T>>>,
    first: &Tok<Vec<Tok<T>>>,
    toks: Seq<Tok<T>>,
    again: &Tok<Vec<Tok<T>>>,
)
    requires
        interner.wf(),
        interner.holds(first),
        same_tokens(first.value()@, toks),
        shared(
            interner.entries(),
            interner.next_id(),
            after.entries(),
            after.next_id(),
            list_key(item_keys(toks)),
            again.id(),
        ),
    ensures
        again.id() == first.id(),
        after.entries() == interner.entries(),
{
    lemma_same_tokens(first.value()@, toks);
}

/// Appending and then prepending gives the list that is made in one piece.
///
/// `list` holds the tokens `base`; `longer` is what appending `suffix` to it
/// gives, and `longest` what prepending `prefix` to that gives. Then
/// `longest` holds the tokens of `prefix`, `base` and `suffix`, in that
/// order, and has the key of that list, so that an interner holds one entry
/// for both.
pub proof fn law_round_trip<T: Internable>(
    base: Seq<Tok<T>>,
    suffix: Seq<Tok<T>>,
    prefix: Seq<Tok<T>>,
    list: &Tok<Vec<Tok<T>>>,
    longer: &Tok<Vec<Tok<T>>>,
    longest: &Tok<Vec<Tok<T>>>,
)
    requires
        same_tokens(list.value()@, base),
        same_tokens(longer.value()@, list.value()@ + suffix),
        same_tokens(longest.value()@, prefix + longer.value()@),
    ensures
        same_tokens(longest.value()@, prefix + base + suffix),
        longest.value().key() == list_key(item_keys(prefix + base + suffix)),
{
    let first = list.value()@;
    let second = longer.value()@;
    let third = longest.value()@;
    lemma_same_tokens(suffix, suffix);
    lemma_same_tokens(prefix, prefix);
    assert(same_tokens(suffix, suffix));
    assert(same_tokens(prefix, prefix));
    lemma_same_tokens_joined(first, base, suffix, suffix);
    lemma_same_tokens(second, first + suffix);
    lemma_same_tokens(first + suffix, base + suffix);
    lemma_same_tokens(second, base + suffix);
    lemma_same_tokens_joined(prefix, prefix, second, base + suffix);
    lemma_same_tokens(third, prefix + second);
    lemma_same_tokens(prefix + second, prefix + (base + suffix));
    lemma_same_tokens(third, prefix + (base + suffix));
    assert(prefix + base + suffix =~= prefix + (base + suffix));
}

/// What a token of a list resolves to: the list holds the same tokens as
/// `toks`, so its values have the keys of the values of `toks`, place by
/// place.
pub proof fn law_list_values<T: Internable>(list: &Tok<Vec<Tok<T>>>, toks: Seq<Tok<T>>)
    requires
        same_tokens(list.value()@, toks),
    ensures
        list.value()@.len() == toks.len(),
        forall|k: int|
            0 <= k < toks.len() ==> (#[trigger] list.value()@[k]).value().key()
                == toks[k].value().key(),
{
    assert forall|k: int| 0 <= k < toks.len() implies (#[trigger] list.value()@[k]).value().key()
        == toks[k].value().key() by {
        assert(same_token(list.value()@[k], toks[k]));
    }
}

} // verus!
