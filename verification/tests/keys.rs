use intern_all::instance::TypedInterner;
use intern_all::interner::AnyInterner;
use intern_all::key::encode_list;
use intern_all::key::push_word;
use intern_all::key::Internable;
use intern_all::key::Probe;
use intern_all::table::Table;

#[test]
fn a_word_is_eight_bytes_least_significant_first() {
    let mut out = vec![9u8];
    push_word(&mut out, 0x0102_0304_0506_0708);
    assert_eq!(out, vec![9, 8, 7, 6, 5, 4, 3, 2, 1]);
    let mut out = Vec::new();
    push_word(&mut out, u64::MAX);
    assert_eq!(out, vec![255; 8]);
    let mut out = Vec::new();
    push_word(&mut out, 0);
    assert_eq!(out, vec![0; 8]);
}

#[test]
fn strings_are_keyed_by_their_bytes() {
    assert_eq!("ab".probe_bytes(), vec![b'a', b'b']);
    assert_eq!("ab".to_string().encode(), vec![b'a', b'b']);
    assert_eq!("".probe_bytes(), Vec::<u8>::new());
    assert_eq!("é".probe_bytes(), vec![0xc3, 0xa9]);
    assert_eq!("ab".to_stored(), "ab".to_string());
    assert_eq!("ab".to_string().duplicate(), "ab".to_string());
}

#[test]
fn numbers_are_keyed_by_their_words() {
    assert_eq!(5u8.encode(), vec![5]);
    assert_eq!(0x0102u32.encode(), vec![2, 1, 0, 0, 0, 0, 0, 0]);
    assert_eq!(0x0102u64.encode(), vec![2, 1, 0, 0, 0, 0, 0, 0]);
    assert_eq!(3usize.encode(), vec![3, 0, 0, 0, 0, 0, 0, 0]);
    assert_eq!(0i32.encode(), vec![0, 0, 0, 0x80, 0, 0, 0, 0]);
    assert_eq!((-1i32).encode(), vec![0xff, 0xff, 0xff, 0x7f, 0, 0, 0, 0]);
    assert_eq!(i32::MIN.encode(), vec![0; 8]);
    assert_eq!(i32::MAX.encode(), vec![0xff, 0xff, 0xff, 0xff, 0, 0, 0, 0]);
    assert_eq!(0i64.encode(), vec![0, 0, 0, 0, 0, 0, 0, 0x80]);
    assert_eq!(i64::MIN.encode(), vec![0; 8]);
    assert_eq!(i64::MAX.encode(), vec![0xff; 8]);
    assert_eq!(7u64.duplicate(), 7);
    assert_eq!((-7i32).duplicate(), -7);
    assert_eq!(0x0102u16.encode(), vec![2, 1, 0, 0, 0, 0, 0, 0]);
    assert_eq!(0i8.encode(), vec![0x80, 0, 0, 0, 0, 0, 0, 0]);
    assert_eq!(i8::MIN.encode(), vec![0; 8]);
    assert_eq!(i8::MAX.encode(), vec![0xff, 0, 0, 0, 0, 0, 0, 0]);
    assert_eq!(0i16.encode(), vec![0, 0x80, 0, 0, 0, 0, 0, 0]);
    assert_eq!((-1i16).encode(), vec![0xff, 0x7f, 0, 0, 0, 0, 0, 0]);
    assert_eq!(0isize.encode(), vec![0, 0, 0, 0, 0, 0, 0, 0x80]);
    assert_eq!(1isize.encode(), vec![1, 0, 0, 0, 0, 0, 0, 0x80]);
    assert_eq!((-1isize).encode(), vec![0xff, 0xff, 0xff, 0xff, 0xff, 0xff, 0xff, 0x7f]);
}

#[test]
fn flags_and_characters_are_keyed_too() {
    assert_eq!(true.encode(), vec![1]);
    assert_eq!(false.encode(), vec![0]);
    assert_eq!('a'.encode(), vec![0x61, 0, 0, 0, 0, 0, 0, 0]);
    assert_eq!('€'.encode(), vec![0xac, 0x20, 0, 0, 0, 0, 0, 0]);
    assert_eq!(true.duplicate(), true);
    assert_eq!('x'.duplicate(), 'x');
    let mut table: TypedInterner<char> = TypedInterner::new();
    let a = table.i(&'a');
    let b = table.i(&'b');
    assert_ne!(a.id(), b.id());
    assert_eq!(table.i(&'a').id(), a.id());
    assert_eq!(*a.value(), 'a');
}

#[test]
fn tables_know_how_much_room_they_have() {
    let mut table = Table::new();
    assert!(table.can_issue());
    assert_eq!(table.spare(), usize::MAX - 1);
    let _a = table.intern("a");
    assert_eq!(table.spare(), usize::MAX - 2);
    let _again = table.intern("a");
    assert_eq!(table.spare(), usize::MAX - 2);
    let mut typed: TypedInterner<String> = TypedInterner::new();
    assert!(typed.can_issue());
    let _b = typed.i("b");
    assert!(typed.can_issue());
}

#[test]
fn lists_are_keyed_by_their_framed_items() {
    let list = vec!["ab".to_string(), "c".to_string()];
    let expected = vec![2, 0, 0, 0, 0, 0, 0, 0, b'a', b'b', 1, 0, 0, 0, 0, 0, 0, 0, b'c'];
    assert_eq!(list.encode(), expected);
    assert_eq!(list[..].probe_bytes(), expected);
    assert_eq!(encode_list(&list), expected);
    assert_eq!(Vec::<String>::new().encode(), Vec::<u8>::new());
    // The frames tell "ab", "c" from "a", "bc".
    let other = vec!["a".to_string(), "bc".to_string()];
    assert_ne!(other.encode(), expected);
    assert_eq!(list[..].to_stored(), list);
    assert_eq!(list.duplicate(), list);
}

#[test]
fn tokens_are_keyed_by_their_identities_and_their_value() {
    let mut table: TypedInterner<String> = TypedInterner::new();
    let _first = table.i("first");
    let tok = table.i("second");
    let mut expected = Vec::new();
    push_word(&mut expected, tok.interner_id() as u64);
    push_word(&mut expected, 2);
    expected.extend_from_slice(b"second");
    assert_eq!(tok.encode(), expected);
    assert_eq!(tok.duplicate().id(), tok.id());
    // A list of tokens frames the key of each.
    let list = vec![tok.clone()];
    let mut framed = Vec::new();
    push_word(&mut framed, expected.len() as u64);
    framed.extend_from_slice(&expected);
    assert_eq!(list.encode(), framed);
}

#[test]
fn a_table_interns_lists_of_tokens() {
    let mut items = Table::new();
    let mut lists = Table::new();
    let a = items.intern("a");
    let b = items.intern("b");
    let ab = lists.intern_tokens(&[a.clone(), b.clone()]);
    assert_eq!(ab.id(), 1);
    assert_eq!(ab.value().len(), 2);
    assert_eq!(ab.value()[0].id(), a.id());
    assert_eq!(ab.value()[1].id(), b.id());
    assert_eq!(ab.value()[0].value().as_str(), "a");
    assert_eq!(ab.value()[1].value().as_str(), "b");
    let again = lists.intern_tokens(&[a.clone(), b.clone()]);
    assert_eq!(again.id(), ab.id());
    let same = lists.intern(&[a.clone(), b.clone()][..]);
    assert_eq!(same.id(), ab.id());
    let ba = lists.intern_tokens(&[b, a]);
    assert_ne!(ba.id(), ab.id());
    assert_eq!(lists.size(), 2);
    let mut typed: TypedInterner<Vec<intern_all::Tok<String>>> = TypedInterner::new();
    let one = typed.intern_tokens(ab.value());
    let two = typed.i(&ab.value()[..]);
    assert_eq!(one.id(), two.id());
    assert_eq!(one.ev(), vec!["a".to_string(), "b".to_string()]);
}

#[test]
fn lookup_and_settle_are_the_two_halves_of_interning() {
    let mut table = Table::new();
    let key = "foo".probe_bytes();
    assert!(table.lookup::<String>(&key).is_none());
    let foo = table.settle("foo", key.clone(), None);
    assert_eq!(foo.id(), 1);
    assert_eq!(table.size(), 1);
    let live = table.lookup::<String>(&key);
    assert!(live.is_some());
    let again = table.settle("foo", key.clone(), live);
    assert_eq!(again.id(), 1);
    assert_eq!(table.size(), 1);
    // Without a live value the entry is renewed in place.
    let renewed = table.settle("foo", key.clone(), None);
    assert_eq!(renewed.id(), 2);
    assert_eq!(table.size(), 1);
    assert_eq!(renewed.interner_id(), table.id());
    // A value of another type under the same key is not handed out.
    assert!(table.lookup::<u8>(&key).is_none());
    drop(foo);
    drop(again);
    drop(renewed);
    assert!(table.lookup::<String>(&key).is_none());
}

#[test]
fn liveness_has_one_answer_for_each_entry() {
    let mut table = Table::new();
    assert_eq!(table.liveness(), Vec::<bool>::new());
    let a = table.intern("a");
    let b = table.intern("b");
    let c = table.intern("c");
    assert_eq!(table.liveness(), vec![true, true, true]);
    drop(b);
    assert_eq!(table.liveness(), vec![true, false, true]);
    drop(a);
    drop(c);
    assert_eq!(table.liveness(), vec![false, false, false]);
    assert_eq!(table.size(), 3);
}

#[test]
fn discard_removes_exactly_the_marked_entries() {
    let mut table = Table::new();
    let a = table.intern("a");
    let b = table.intern("b");
    let c = table.intern("c");
    let d = table.intern("d");
    assert_eq!(table.discard(&vec![true, true, true, true]), 0);
    assert_eq!(table.size(), 4);
    assert_eq!(table.discard(&vec![true, false, true, false]), 2);
    assert_eq!(table.size(), 2);
    assert_eq!(table.intern("a").id(), a.id());
    assert_eq!(table.intern("c").id(), c.id());
    assert_eq!(table.size(), 2);
    // The entries of "b" and "d" are gone, though their tokens are held.
    let again = table.intern("b");
    assert_ne!(again.id(), b.id());
    assert_eq!(again.id(), 5);
    assert_ne!(table.intern("d").id(), d.id());
    assert_eq!(table.size(), 4);
    assert_eq!(table.discard(&vec![false, false, false, false]), 4);
    assert_eq!(table.size(), 0);
    assert_eq!(table.discard(&Vec::new()), 0);
}

#[test]
fn sweeping_the_middle_keeps_the_rest_findable() {
    let mut table = Table::new();
    let names = ["a", "b", "c", "d", "e", "f"];
    let mut toks: Vec<_> = names.iter().map(|n| Some(table.intern(*n))).collect();
    toks[1] = None;
    toks[3] = None;
    toks[5] = None;
    assert_eq!(table.sweep(), 3);
    assert_eq!(table.size(), 3);
    for (place, name) in names.iter().enumerate() {
        if let Some(tok) = &toks[place] {
            assert_eq!(table.intern(*name).id(), tok.id());
        }
    }
    assert_eq!(table.size(), 3);
    toks.clear();
    assert_eq!(table.sweep(), 3);
    assert_eq!(table.size(), 0);
}

#[test]
fn any_interner_sweeps_without_the_value_type() {
    fn sweep_it<I: AnyInterner>(interner: &mut I) -> usize {
        interner.sweep()
    }
    let mut typed: TypedInterner<u64> = TypedInterner::new();
    let kept = typed.i(&1u64);
    drop(typed.i(&2u64));
    assert_eq!(sweep_it(&mut typed), 1);
    assert_eq!(typed.i(&1u64).id(), kept.id());
    let mut table = Table::new();
    drop(table.intern("x"));
    assert_eq!(sweep_it(&mut table), 1);
}
