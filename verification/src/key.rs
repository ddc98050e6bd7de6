//! What a value must offer to be stored in a table.
//!
//! Two values are one value to a table when they have the same *key*: a
//! sequence of bytes that the value's type derives from it. Equality of tokens
//! then reduces to equality of keys at the moment of interning, and to
//! equality of identities afterwards.
use vstd::prelude::*;

verus! {

/// A type whose values can be stored in a table and shared between threads.
///
/// The key is what a table knows of a value: to a table, values are equal
/// exactly when their keys are. A type should therefore give values that it
/// holds to be different different keys. The types of this crate do: their
/// keys can be read back ([`lemma_text_key`], [`lemma_word_bytes`],
/// [`lemma_list_key`]).
pub trait Internable: Sized + Send + Sync + 'static {
    /// The key of this value. Values with the same key are stored once.
    spec fn key(&self) -> Seq<u8>;

    /// Computes the key.
    fn encode(&self) -> (bytes: Vec<u8>)
        ensures
            bytes@ == self.key(),
    ;

    /// Another value with the same key.
    fn duplicate(&self) -> (copy: Self)
        ensures
            copy.key() == self.key(),
    ;
}

/// A borrowed form of a storable value, such as `str` for `String`: enough to
/// look the value up, and to make the stored form when the lookup fails.
pub trait Probe {
    /// The type under which a value of this form is stored.
    type Owned: Internable;

    /// The key of the value that this probe stands for.
    spec fn probe_key(&self) -> Seq<u8>;

    /// Computes the key.
    fn probe_bytes(&self) -> (bytes: Vec<u8>)
        ensures
            bytes@ == self.probe_key(),
    ;

    /// The stored form, with the same key.
    fn to_stored(&self) -> (value: Self::Owned)
        ensures
            value.key() == self.probe_key(),
    ;
}

/// Every storable value is a probe for itself.
impl<T: Internable> Probe for T {
    type Owned = T;

    open spec fn probe_key(&self) -> Seq<u8> {
        self.key()
    }

    fn probe_bytes(&self) -> (bytes: Vec<u8>) {
        self.encode()
    }

    fn to_stored(&self) -> (value: T) {
        self.duplicate()
    }
}

/// The eight bytes of a 64-bit word, least significant first.
pub open spec fn word_bytes(x: u64) -> Seq<u8> {
    seq![
        (x % 0x100) as u8,
        (x / 0x100 % 0x100) as u8,
        (x / 0x1_0000 % 0x100) as u8,
        (x / 0x100_0000 % 0x100) as u8,
        (x / 0x1_0000_0000 % 0x100) as u8,
        (x / 0x100_0000_0000 % 0x100) as u8,
        (x / 0x1_0000_0000_0000 % 0x100) as u8,
        (x / 0x100_0000_0000_0000 % 0x100) as u8,
    ]
}

/// A key preceded by its length, so that framed keys can be laid end to end
/// and still be told apart.
pub open spec fn frame(key: Seq<u8>) -> Seq<u8> {
    word_bytes(key.len() as u64) + key
}

/// The framed keys of a row, laid end to end.
pub open spec fn laid(keys: Seq<Seq<u8>>) -> Seq<u8>
    decreases keys.len(),
{
    if keys.len() == 0 {
        Seq::empty()
    } else {
        laid(keys.drop_last()) + frame(keys.last())
    }
}

/// The key of a list: the framed keys of its items, in order.
///
/// A frame can only tell the length of a key that fits a word. A list with a
/// longer key among its items has the one byte 0 for its key, which is the
/// key of no other list; no key that was computed is that long.
pub open spec fn list_key(keys: Seq<Seq<u8>>) -> Seq<u8> {
    if framable(keys) {
        laid(keys)
    } else {
        seq![0u8]
    }
}

/// The keys of the items of a list.
pub open spec fn item_keys<U: Internable>(items: Seq<U>) -> Seq<Seq<u8>> {
    items.map_values(|u: U| u.key())
}

/// Whether the length of every key of the row fits a word, as the length of
/// every key that was computed does.
pub open spec fn framable(keys: Seq<Seq<u8>>) -> bool {
    forall|i: int| 0 <= i < keys.len() ==> (#[trigger] keys[i]).len() <= u64::MAX
}

/// Words with the same bytes are the same word.
pub proof fn lemma_word_bytes(x: u64, y: u64)
    requires
        word_bytes(x) == word_bytes(y),
    ensures
        x == y,
{
    let a = word_bytes(x);
    let b = word_bytes(y);
    assert(a[0] == b[0] && a[1] == b[1] && a[2] == b[2] && a[3] == b[3]);
    assert(a[4] == b[4] && a[5] == b[5] && a[6] == b[6] && a[7] == b[7]);
    assert(x % 0x100 == y % 0x100);
    assert(x / 0x100 % 0x100 == y / 0x100 % 0x100);
    assert(x / 0x1_0000 % 0x100 == y / 0x1_0000 % 0x100);
    assert(x / 0x100_0000 % 0x100 == y / 0x100_0000 % 0x100);
    assert(x / 0x1_0000_0000 % 0x100 == y / 0x1_0000_0000 % 0x100);
    assert(x / 0x100_0000_0000 % 0x100 == y / 0x100_0000_0000 % 0x100);
    assert(x / 0x1_0000_0000_0000 % 0x100 == y / 0x1_0000_0000_0000 % 0x100);
    assert(x / 0x100_0000_0000_0000 % 0x100 == y / 0x100_0000_0000_0000 % 0x100);
    assert(x == y) by (bit_vector)
        requires
            x % 0x100u64 == y % 0x100u64,
            x / 0x100u64 % 0x100u64 == y / 0x100u64 % 0x100u64,
            x / 0x1_0000u64 % 0x100u64 == y / 0x1_0000u64 % 0x100u64,
            x / 0x100_0000u64 % 0x100u64 == y / 0x100_0000u64 % 0x100u64,
            x / 0x1_0000_0000u64 % 0x100u64 == y / 0x1_0000_0000u64 % 0x100u64,
            x / 0x100_0000_0000u64 % 0x100u64 == y / 0x100_0000_0000u64 % 0x100u64,
            x / 0x1_0000_0000_0000u64 % 0x100u64 == y / 0x1_0000_0000_0000u64 % 0x100u64,
            x / 0x100_0000_0000_0000u64 % 0x100u64 == y / 0x100_0000_0000_0000u64 % 0x100u64,
    ;
}

/// What is laid starts with the frame of the first key, and goes on with what
/// is laid of the rest.
pub proof fn lemma_laid_front(keys: Seq<Seq<u8>>)
    requires
        keys.len() > 0,
    ensures
        laid(keys) == frame(keys[0]) + laid(keys.skip(1)),
    decreases keys.len(),
{
    if keys.len() == 1 {
        assert(keys.drop_last() =~= Seq::<Seq<u8>>::empty());
        assert(keys.skip(1) =~= Seq::<Seq<u8>>::empty());
        assert(laid(keys) =~= frame(keys[0]) + laid(keys.skip(1)));
    } else {
        let front = keys.drop_last();
        lemma_laid_front(front);
        assert(front.skip(1) =~= keys.skip(1).drop_last());
        assert(keys.skip(1).last() == keys.last());
        assert(front[0] == keys[0]);
        assert(laid(keys) =~= frame(keys[0]) + laid(keys.skip(1)));
    }
}

/// A word says where it ends: two words, each followed by something, that
/// read the same are the same word followed by the same.
pub proof fn lemma_word_then(x: u64, after: Seq<u8>, y: u64, then: Seq<u8>)
    requires
        word_bytes(x) + after == word_bytes(y) + then,
    ensures
        x == y,
        after == then,
{
    let whole = word_bytes(x) + after;
    assert(word_bytes(x).len() == 8 && word_bytes(y).len() == 8);
    assert(word_bytes(x) =~= whole.subrange(0, 8));
    assert(word_bytes(y) =~= (word_bytes(y) + then).subrange(0, 8));
    lemma_word_bytes(x, y);
    assert(after =~= whole.subrange(8, whole.len() as int));
    assert(then =~= (word_bytes(y) + then).subrange(8, whole.len() as int));
}

/// A frame says where its key ends: two framed keys, each followed by
/// something, that read the same are the same key followed by the same.
pub proof fn lemma_frame(first: Seq<u8>, after: Seq<u8>, second: Seq<u8>, then: Seq<u8>)
    requires
        first.len() <= u64::MAX,
        second.len() <= u64::MAX,
        frame(first) + after == frame(second) + then,
    ensures
        first == second,
        after == then,
{
    let whole = frame(first) + after;
    let word_a = word_bytes(first.len() as u64);
    let word_b = word_bytes(second.len() as u64);
    assert(word_a.len() == 8 && word_b.len() == 8);
    assert(word_a =~= whole.subrange(0, 8));
    assert(word_b =~= (frame(second) + then).subrange(0, 8));
    lemma_word_bytes(first.len() as u64, second.len() as u64);
    let n = first.len() as int;
    assert(second.len() == n);
    assert(first =~= whole.subrange(8, 8 + n));
    assert(second =~= (frame(second) + then).subrange(8, 8 + n));
    assert(after =~= whole.subrange(8 + n, whole.len() as int));
    assert(then =~= (frame(second) + then).subrange(8 + n, whole.len() as int));
}

/// What is left of a framable row after its first key is framable.
proof fn lemma_framable_rest(keys: Seq<Seq<u8>>)
    requires
        framable(keys),
        keys.len() > 0,
    ensures
        framable(keys.skip(1)),
        keys[0].len() <= u64::MAX,
{
    assert forall|i: int| 0 <= i < keys.skip(1).len() implies (#[trigger] keys.skip(1)[i]).len()
        <= u64::MAX by {
        assert(keys.skip(1)[i] == keys[i + 1]);
    }
}

/// Rows with the same first key and the same rest are the same row.
proof fn lemma_same_row(a: Seq<Seq<u8>>, b: Seq<Seq<u8>>)
    requires
        a.len() > 0,
        b.len() > 0,
        a[0] == b[0],
        a.skip(1) == b.skip(1),
    ensures
        a == b,
{
    assert(a.len() == a.skip(1).len() + 1);
    assert(b.len() == b.skip(1).len() + 1);
    assert forall|i: int| 0 <= i < a.len() implies a[i] == b[i] by {
        if i > 0 {
            assert(a[i] == a.skip(1)[i - 1]);
            assert(b[i] == b.skip(1)[i - 1]);
        }
    }
    assert(a =~= b);
}

/// What is laid of a row with a key in it has eight bytes or more.
proof fn lemma_laid_long(keys: Seq<Seq<u8>>)
    requires
        keys.len() > 0,
    ensures
        laid(keys).len() >= 8,
{
    lemma_laid_front(keys);
    assert(word_bytes(keys[0].len() as u64).len() == 8);
}

/// Rows of framable keys that are laid the same are the same row.
pub proof fn lemma_laid(a: Seq<Seq<u8>>, b: Seq<Seq<u8>>)
    requires
        framable(a),
        framable(b),
        laid(a) == laid(b),
    ensures
        a == b,
    decreases a.len(),
{
    if a.len() == 0 {
        if b.len() > 0 {
            lemma_laid_long(b);
        }
        assert(a =~= b);
    } else if b.len() == 0 {
        lemma_laid_long(a);
    } else {
        lemma_laid_front(a);
        lemma_laid_front(b);
        lemma_framable_rest(a);
        lemma_framable_rest(b);
        lemma_frame(a[0], laid(a.skip(1)), b[0], laid(b.skip(1)));
        lemma_laid(a.skip(1), b.skip(1));
        lemma_same_row(a, b);
    }
}

/// A list with the key of a list of framable items has the same items.
pub proof fn lemma_list_key(a: Seq<Seq<u8>>, b: Seq<Seq<u8>>)
    requires
        framable(b),
        list_key(a) == list_key(b),
    ensures
        a == b,
{
    if !framable(a) {
        if b.len() > 0 {
            lemma_laid_long(b);
        }
        assert(list_key(a).len() == 1);
    } else {
        lemma_laid(a, b);
    }
}

/// Strings with the same key are the same string.
pub proof fn lemma_text_key(a: Seq<char>, b: Seq<char>)
    requires
        vstd::utf8::encode_utf8(a) == vstd::utf8::encode_utf8(b),
    ensures
        a == b,
{
    vstd::utf8::encode_utf8_decode_utf8(a);
    vstd::utf8::encode_utf8_decode_utf8(b);
}

/// Appends the eight bytes of `x` to `out`.
pub fn push_word(out: &mut Vec<u8>, x: u64)
    ensures
        final(out)@ == old(out)@ + word_bytes(x),
{
    out.push((x % 0x100) as u8);
    out.push((x / 0x100 % 0x100) as u8);
    out.push((x / 0x1_0000 % 0x100) as u8);
    out.push((x / 0x100_0000 % 0x100) as u8);
    out.push((x / 0x1_0000_0000 % 0x100) as u8);
    out.push((x / 0x100_0000_0000 % 0x100) as u8);
    out.push((x / 0x1_0000_0000_0000 % 0x100) as u8);
    out.push((x / 0x100_0000_0000_0000 % 0x100) as u8);
    assert(out@ =~= old(out)@ + word_bytes(x));
}

/// The key of a list of storable items. Every item's key was computed, so
/// every one can be framed.
pub fn encode_list<U: Internable>(items: &[U]) -> (bytes: Vec<u8>)
    ensures
        bytes@ == list_key(item_keys(items@)),
        framable(item_keys(items@)),
{
    let mut out: Vec<u8> = Vec::new();
    let mut i: usize = 0;
    while i < items.len()
        invariant
            i <= items.len(),
            out@ == laid(item_keys(items@.take(i as int))),
            framable(item_keys(items@.take(i as int))),
        decreases items.len() - i,
    {
        let mut part = items[i].encode();
        let n = part.len();
        proof {
            let before = item_keys(items@.take(i as int));
            let after = item_keys(items@.take(i as int + 1));
            assert(after.drop_last() =~= before);
            assert(after.last() == items@[i as int].key());
            assert forall|j: int| 0 <= j < after.len() implies (#[trigger] after[j]).len()
                <= u64::MAX by {
                if j < i {
                    assert(after[j] == before[j]);
                }
            }
        }
        push_word(&mut out, n as u64);
        out.append(&mut part);
        i += 1;
    }
    assert(items@.take(i as int) =~= items@);
    out
}

/// A copy of a list, item by item.
pub fn duplicate_list<U: Internable>(items: &[U]) -> (copy: Vec<U>)
    ensures
        item_keys(copy@) == item_keys(items@),
{
    let mut out: Vec<U> = Vec::new();
    let mut i: usize = 0;
    while i < items.len()
        invariant
            i <= items.len(),
            item_keys(out@) == item_keys(items@.take(i as int)),
        decreases items.len() - i,
    {
        let item = items[i].duplicate();
        let ghost before = out@;
        out.push(item);
        proof {
            let grown = items@.take(i as int + 1);
            assert(grown.drop_last() =~= items@.take(i as int));
            assert(item_keys(out@) =~= item_keys(before).push(item.key()));
            assert(item_keys(grown) =~= item_keys(grown.drop_last()).push(grown.last().key()));
        }
        i += 1;
    }
    assert(items@.take(i as int) =~= items@);
    out
}

impl<U: Internable> Internable for Vec<U> {
    open spec fn key(&self) -> Seq<u8> {
        list_key(item_keys(self@))
    }

    fn encode(&self) -> (bytes: Vec<u8>) {
        encode_list(self.as_slice())
    }

    fn duplicate(&self) -> (copy: Self) {
        duplicate_list(self.as_slice())
    }
}

/// A slice is the borrowed form of a vector.
impl<U: Internable> Probe for [U] {
    type Owned = Vec<U>;

    open spec fn probe_key(&self) -> Seq<u8> {
        list_key(item_keys(self@))
    }

    fn probe_bytes(&self) -> (bytes: Vec<u8>) {
        encode_list(self)
    }

    fn to_stored(&self) -> (value: Vec<U>) {
        duplicate_list(self)
    }
}

impl Internable for String {
    open spec fn key(&self) -> Seq<u8> {
        vstd::utf8::encode_utf8(self@)
    }

    fn encode(&self) -> (bytes: Vec<u8>) {
        vstd::slice::slice_to_vec(self.as_str().as_bytes())
    }

    fn duplicate(&self) -> (copy: Self) {
        self.clone()
    }
}

/// A string slice is the borrowed form of a string.
impl Probe for str {
    type Owned = String;

    open spec fn probe_key(&self) -> Seq<u8> {
        vstd::utf8::encode_utf8(self@)
    }

    fn probe_bytes(&self) -> (bytes: Vec<u8>) {
        vstd::slice::slice_to_vec(self.as_bytes())
    }

    fn to_stored(&self) -> (value: String) {
        self.to_owned()
    }
}

impl Internable for u8 {
    open spec fn key(&self) -> Seq<u8> {
        seq![*self]
    }

    fn encode(&self) -> (bytes: Vec<u8>) {
        let mut out: Vec<u8> = Vec::new();
        out.push(*self);
        assert(out@ =~= seq![*self]);
        out
    }

    fn duplicate(&self) -> (copy: Self) {
        *self
    }
}

impl Internable for bool {
    open spec fn key(&self) -> Seq<u8> {
        seq![if *self { 1u8 } else { 0u8 }]
    }

    fn encode(&self) -> (bytes: Vec<u8>) {
        let mut out: Vec<u8> = Vec::new();
        out.push(if *self { 1u8 } else { 0u8 });
        assert(out@ =~= seq![if *self { 1u8 } else { 0u8 }]);
        out
    }

    fn duplicate(&self) -> (copy: Self) {
        *self
    }
}

impl Internable for char {
    open spec fn key(&self) -> Seq<u8> {
        word_bytes(*self as u64)
    }

    fn encode(&self) -> (bytes: Vec<u8>) {
        let mut out: Vec<u8> = Vec::new();
        push_word(&mut out, *self as u64);
        out
    }

    fn duplicate(&self) -> (copy: Self) {
        *self
    }
}

impl Internable for u16 {
    open spec fn key(&self) -> Seq<u8> {
        word_bytes(*self as u64)
    }

    fn encode(&self) -> (bytes: Vec<u8>) {
        let mut out: Vec<u8> = Vec::new();
        push_word(&mut out, *self as u64);
        out
    }

    fn duplicate(&self) -> (copy: Self) {
        *self
    }
}

impl Internable for u32 {
    open spec fn key(&self) -> Seq<u8> {
        word_bytes(*self as u64)
    }

    fn encode(&self) -> (bytes: Vec<u8>) {
        let mut out: Vec<u8> = Vec::new();
        push_word(&mut out, *self as u64);
        out
    }

    fn duplicate(&self) -> (copy: Self) {
        *self
    }
}

impl Internable for u64 {
    open spec fn key(&self) -> Seq<u8> {
        word_bytes(*self)
    }

    fn encode(&self) -> (bytes: Vec<u8>) {
        let mut out: Vec<u8> = Vec::new();
        push_word(&mut out, *self);
        out
    }

    fn duplicate(&self) -> (copy: Self) {
        *self
    }
}

impl Internable for usize {
    open spec fn key(&self) -> Seq<u8> {
        word_bytes(*self as u64)
    }

    fn encode(&self) -> (bytes: Vec<u8>) {
        let mut out: Vec<u8> = Vec::new();
        push_word(&mut out, *self as u64);
        out
    }

    fn duplicate(&self) -> (copy: Self) {
        *self
    }
}

/// A signed number is shifted into the unsigned range, which keeps its order
/// and loses nothing.
impl Internable for i8 {
    open spec fn key(&self) -> Seq<u8> {
        word_bytes((*self + 0x80) as u64)
    }

    fn encode(&self) -> (bytes: Vec<u8>) {
        let mut out: Vec<u8> = Vec::new();
        let shifted: i64 = *self as i64 + 0x80;
        push_word(&mut out, shifted as u64);
        out
    }

    fn duplicate(&self) -> (copy: Self) {
        *self
    }
}

impl Internable for i16 {
    open spec fn key(&self) -> Seq<u8> {
        word_bytes((*self + 0x8000) as u64)
    }

    fn encode(&self) -> (bytes: Vec<u8>) {
        let mut out: Vec<u8> = Vec::new();
        let shifted: i64 = *self as i64 + 0x8000;
        push_word(&mut out, shifted as u64);
        out
    }

    fn duplicate(&self) -> (copy: Self) {
        *self
    }
}

impl Internable for i32 {
    open spec fn key(&self) -> Seq<u8> {
        word_bytes((*self + 0x8000_0000) as u64)
    }

    fn encode(&self) -> (bytes: Vec<u8>) {
        let mut out: Vec<u8> = Vec::new();
        let shifted: i64 = *self as i64 + 0x8000_0000;
        push_word(&mut out, shifted as u64);
        out
    }

    fn duplicate(&self) -> (copy: Self) {
        *self
    }
}

impl Internable for i64 {
    open spec fn key(&self) -> Seq<u8> {
        word_bytes((*self + 0x8000_0000_0000_0000) as u64)
    }

    fn encode(&self) -> (bytes: Vec<u8>) {
        let mut out: Vec<u8> = Vec::new();
        let shifted: i128 = *self as i128 + 0x8000_0000_0000_0000;
        push_word(&mut out, shifted as u64);
        out
    }

    fn duplicate(&self) -> (copy: Self) {
        *self
    }
}

impl Internable for isize {
    open spec fn key(&self) -> Seq<u8> {
        word_bytes((*self + 0x8000_0000_0000_0000) as u64)
    }

    fn encode(&self) -> (bytes: Vec<u8>) {
        let mut out: Vec<u8> = Vec::new();
        let shifted: i128 = *self as i128 + 0x8000_0000_0000_0000;
        push_word(&mut out, shifted as u64);
        out
    }

    fn duplicate(&self) -> (copy: Self) {
        *self
    }
}

} // verus!
