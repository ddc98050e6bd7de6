use std::any::TypeId;
use std::cmp::Ordering;

use intern_all::ev;
use intern_all::get_global;
use intern_all::i;
use intern_all::ibv;
use intern_all::instance::Interner;
use intern_all::instance::TypedInterner;
use intern_all::iv;
use intern_all::set_global;
use intern_all::sweep;
use intern_all::sweep_t;
use intern_all::Cache;
use intern_all::Global;
use intern_all::Tok;
use intern_all::WeakTok;

#[test]
fn statics() {
    let mut global = Global::new();
    let mut site_a: Cache<Tok<String>> = Cache::new();
    let mut site_b: Cache<Tok<String>> = Cache::new();
    let a = site_a.get_or_init(|| i(&mut global, "foo")).clone();
    let b = site_b.get_or_init(|| i(&mut global, "foo")).clone();
    let c = i(&mut global, "foo");
    assert!(a.eq(&b));
    assert!(a.eq(&c));
    let mut site_v = Cache::new();
    let v = site_v
        .get_or_init(|| {
            let items = [i(&mut global, "foo"), i(&mut global, "bar"), i(&mut global, "baz")];
            i(&mut global, &items[..])
        })
        .clone();
    // The list is stored as a vector of tokens.
    let list: Tok<Vec<Tok<String>>> = v;
    assert_eq!(list.ev(), vec!["foo".to_string(), "bar".to_string(), "baz".to_string()]);
}

#[test]
fn basics() {
    let mut global = Global::new();
    let mut site_a1: Cache<Tok<String>> = Cache::new();
    let mut site_a2: Cache<Tok<String>> = Cache::new();
    let mut site_b: Cache<Tok<String>> = Cache::new();
    let a1 = site_a1.get_or_init(|| i(&mut global, "foo")).clone();
    let a2 = site_a2.get_or_init(|| i(&mut global, "foo")).clone();
    let b = site_b.get_or_init(|| i(&mut global, "bar")).clone();
    assert!(a1.eq(&a2));
    assert!(!a1.eq(&b));
}

#[test]
fn test_string() {
    let mut interner = Interner::new();
    let key1 = interner.i("foo");
    let key2 = interner.i(&"foo".to_string());
    assert!(key1.eq(&key2));
}

#[test]
fn test_slice() {
    let mut interner = Interner::new();
    let key1 = interner.i(&vec![1, 2, 3]);
    let key2 = interner.i(&[1, 2, 3][..]);
    assert!(key1.eq(&key2));
}

#[test]
fn test_str_slice() {
    let mut interner = Interner::new();
    let key1 = interner.iv(vec!["a".to_string(), "b".to_string(), "c".to_string()]);
    let key2 = interner.ibv(&vec!["a", "b", "c"]);
    assert!(key1.eq(&key2));
}

#[test]
fn tl_cache_correct() {
    let mut site: Cache<i32> = Cache::new();
    let my_cached_value = site.get_or_init(|| 1).clone();
    assert_eq!(my_cached_value, 1)
}

#[test]
fn cache_computes_once() {
    let mut calls = 0;
    let mut site: Cache<u32> = Cache::new();
    let first = *site.get_or_init(|| {
        calls += 1;
        7
    });
    let second = *site.get_or_init(|| {
        calls += 1;
        9
    });
    assert_eq!(first, 7);
    assert_eq!(second, 7);
    assert_eq!(calls, 1);
}

#[test]
fn interning_twice_gives_the_same_token() {
    let mut table: TypedInterner<String> = TypedInterner::new();
    let a = table.i("foo");
    let b = table.i("foo");
    assert_eq!(a.id(), b.id());
    assert_eq!(a.usize(), b.usize());
    assert_eq!(a.interner_id(), b.interner_id());
    assert!(a.eq(&b));
    assert_eq!(a.cmp(&b), Ordering::Equal);
    assert_eq!(a.partial_cmp(&b), Some(Ordering::Equal));
    assert_eq!(table.size(), 1);
}

#[test]
fn unequal_values_get_different_tokens() {
    let mut table: TypedInterner<String> = TypedInterner::new();
    let foo = table.i("foo");
    let bar = table.i("bar");
    assert_ne!(foo.id(), bar.id());
    assert!(!foo.eq(&bar));
    assert_eq!(foo.cmp(&bar), foo.id().cmp(&bar.id()));
    assert_eq!(bar.cmp(&foo), bar.id().cmp(&foo.id()));
    assert_eq!(table.size(), 2);
}

#[test]
fn identities_start_at_one_and_count_up() {
    let mut table: TypedInterner<String> = TypedInterner::new();
    let foo = table.i("foo");
    let bar = table.i("bar");
    let again = table.i("foo");
    assert_eq!(foo.id(), 1);
    assert_eq!(bar.id(), 2);
    assert_eq!(again.id(), 1);
    assert_eq!(foo.cmp(&bar), Ordering::Less);
    assert_eq!(bar.cmp(&foo), Ordering::Greater);
    assert_eq!(foo.partial_cmp(&bar), Some(Ordering::Less));
}

#[test]
fn tokens_give_their_value_back() {
    let mut table: TypedInterner<String> = TypedInterner::new();
    let foo = table.i("foo");
    assert_eq!(foo.value().as_str(), "foo");
    let copy = foo.clone();
    assert_eq!(copy.value().as_str(), "foo");
    assert_eq!(copy.id(), foo.id());
    assert!(std::ptr::eq(copy.value(), foo.value()));
    let again = table.i(&"foo".to_string());
    assert!(std::ptr::eq(again.value(), foo.value()));
}

#[test]
fn tokens_of_two_registries_are_not_comparable() {
    let mut one = Interner::new();
    let mut two = Interner::new();
    let a = one.i("foo");
    let b = two.i("foo");
    assert_ne!(a.interner_id(), 0);
    assert_ne!(b.interner_id(), 0);
    assert_ne!(a.interner_id(), b.interner_id());
}

#[test]
fn tokens_of_two_tables_are_not_comparable() {
    let mut one: TypedInterner<String> = TypedInterner::new();
    let mut two: TypedInterner<String> = TypedInterner::new();
    let a = one.i("foo");
    let b = two.i("foo");
    assert_eq!(a.interner_id(), one.id());
    assert_eq!(b.interner_id(), two.id());
    assert_ne!(one.id(), two.id());
}

#[test]
fn sweep_removes_exactly_the_dead_entries() {
    let mut table: TypedInterner<String> = TypedInterner::new();
    let keep = table.i("keep");
    let drop_one = table.i("one");
    let drop_two = table.i("two");
    assert_eq!(table.size(), 3);
    assert_eq!(table.sweep(), 0);
    assert_eq!(table.size(), 3);
    drop(drop_one);
    drop(drop_two);
    assert_eq!(table.size(), 3);
    assert_eq!(table.sweep(), 2);
    assert_eq!(table.size(), 1);
    let again = table.i("keep");
    assert_eq!(again.id(), keep.id());
    assert_eq!(table.sweep(), 0);
}

#[test]
fn a_clone_keeps_the_entry_alive() {
    let mut table: TypedInterner<String> = TypedInterner::new();
    let foo = table.i("foo");
    let copy = foo.clone();
    drop(foo);
    assert_eq!(table.sweep(), 0);
    assert_eq!(table.i("foo").id(), copy.id());
    drop(copy);
    assert_eq!(table.sweep(), 1);
    assert_eq!(table.size(), 0);
}

#[test]
fn a_dead_entry_is_replaced_in_place() {
    let mut table: TypedInterner<String> = TypedInterner::new();
    let foo = table.i("foo");
    let bar = table.i("bar");
    let old_id = foo.id();
    drop(foo);
    assert_eq!(table.size(), 2);
    let foo = table.i("foo");
    assert_eq!(table.size(), 2);
    assert_ne!(foo.id(), old_id);
    assert_eq!(foo.id(), 3);
    assert_ne!(foo.id(), bar.id());
    assert_eq!(table.i("foo").id(), foo.id());
    assert_eq!(table.sweep(), 0);
}

#[test]
fn concrete_scenario() {
    let mut interner = Interner::new();
    let foo1 = interner.i("foo");
    let foo2 = interner.i("foo");
    assert!(foo1.eq(&foo2));
    let bar = interner.i("bar");
    assert!(!foo1.eq(&bar));
    let list1 = interner.ibv(&["a", "b"]);
    let list2 = interner.ibv(&["a", "b"]);
    assert!(list1.eq(&list2));
    let first_id = foo1.id();
    drop(foo1);
    drop(foo2);
    assert_eq!(interner.sweep(), 1);
    let foo3 = interner.i("foo");
    assert_ne!(foo3.id(), first_id);
    let foo4 = interner.i("foo");
    assert!(foo3.eq(&foo4));
}

#[test]
fn interning_a_list_twice_gives_the_same_token() {
    let mut interner = Interner::new();
    let first = interner.iv(vec!["a".to_string(), "b".to_string()]);
    let second = interner.iv(vec!["a".to_string(), "b".to_string()]);
    assert!(first.eq(&second));
    assert_eq!(first.id(), second.id());
    let other = interner.iv(vec!["b".to_string(), "a".to_string()]);
    assert!(!first.eq(&other));
    assert_eq!(first.ev(), vec!["a".to_string(), "b".to_string()]);
    assert_eq!(other.ev(), vec!["b".to_string(), "a".to_string()]);
}

#[test]
fn lists_keep_their_items_alive() {
    let mut interner = Interner::new();
    let list = interner.ibv(&["a", "b"]);
    assert_eq!(interner.sweep(), 0);
    let a = interner.i("a");
    assert!(list.value()[0].eq(&a));
    drop(a);
    drop(list);
    // The list dies first; its items die with it and are found by the next
    // sweep of their table.
    assert_eq!(interner.sweep_t::<Vec<Tok<String>>>(), 1);
    assert_eq!(interner.sweep_t::<String>(), 2);
    assert_eq!(interner.sweep(), 0);
}

#[test]
fn append_and_prepend_round_trip() {
    let mut items: TypedInterner<String> = TypedInterner::new();
    let mut lists: TypedInterner<Vec<Tok<String>>> = TypedInterner::new();
    let v = items.i("v");
    let w = items.i("w");
    let x = items.i("x");
    let y = items.i("y");
    let z = items.i("z");
    let l = lists.i(&[x.clone(), y.clone(), z.clone()][..]);
    let longer = l.append(&mut lists, &[w.clone()]);
    let longest = longer.prepend(&mut lists, &[v.clone()]);
    let direct = lists.i(&[v, x, y, z, w][..]);
    assert!(longest.eq(&direct));
    assert_eq!(
        longest.ev(),
        vec!["v".to_string(), "x".to_string(), "y".to_string(), "z".to_string(), "w".to_string()]
    );
    assert_eq!(longer.ev(), vec!["x".to_string(), "y".to_string(), "z".to_string(), "w".to_string()]);
    assert!(!longer.eq(&l));
    assert_eq!(lists.size(), 3);
}

#[test]
fn append_and_prepend_round_trip_in_a_registry() {
    let mut r = Interner::new();
    let l = r.ibv(&["x", "y", "z"]);
    let w = r.i("w");
    let v = r.i("v");
    let m = r.append(&l, &[w.clone()]);
    let four = r.ibv(&["x", "y", "z", "w"]);
    assert!(m.eq(&four));
    assert_eq!(m.interner_id(), l.interner_id());
    assert_eq!(m.value().len(), 4);
    let p = r.prepend(&m, &[v.clone()]);
    let direct = r.ibv(&["v", "x", "y", "z", "w"]);
    assert!(p.eq(&direct));
    assert_eq!(
        p.ev(),
        vec!["v".to_string(), "x".to_string(), "y".to_string(), "z".to_string(), "w".to_string()]
    );
    assert_eq!(l.ev(), vec!["x".to_string(), "y".to_string(), "z".to_string()]);
    let same = r.append(&l, &[]);
    assert!(same.eq(&l));
    let same = r.prepend(&l, &[]);
    assert!(same.eq(&l));
    let x = r.ibv(&["x"]);
    let ab = [r.i("a"), r.i("b")];
    let q = r.prepend(&x, &ab);
    assert_eq!(q.ev(), vec!["a".to_string(), "b".to_string(), "x".to_string()]);
}

#[test]
fn a_registry_finds_the_table_of_a_token() {
    let mut r = Interner::new();
    let s = r.i("s");
    let n = r.i(&1u64);
    let l = r.ibv(&["s"]);
    assert_eq!(r.home_of(s.interner_id()), Some(0));
    assert_eq!(r.home_of(n.interner_id()), Some(1));
    assert_eq!(r.home_of(l.interner_id()), Some(2));
    let mut other = Interner::new();
    let foreign = other.i("s");
    assert_eq!(r.home_of(foreign.interner_id()), None);
    assert_eq!(other.home_of(foreign.interner_id()), Some(0));
    let same = r.intern_tokens_at(2, &[s.clone()]);
    assert!(same.eq(&l));
}

#[test]
fn lists_resolve_to_the_values_of_their_items() {
    let mut r = Interner::new();
    let l = r.ibv(&["a", "b", "a"]);
    assert_eq!(l.value().len(), 3);
    assert_eq!(l.ev(), vec!["a".to_string(), "b".to_string(), "a".to_string()]);
    assert!(l.value()[0].eq(&l.value()[2]));
    let a = r.i("a");
    let b = r.i("b");
    assert!(l.value()[0].eq(&a));
    assert!(l.value()[1].eq(&b));
    let n = r.iv(vec![3u64, 1, 2]);
    assert_eq!(n.ev(), vec![3u64, 1, 2]);
    let one = r.i(&1u64);
    assert!(n.value()[1].eq(&one));
    let empty = r.iv(Vec::<u64>::new());
    assert_eq!(empty.ev(), Vec::<u64>::new());
    let none = r.ibv::<u64>(&[]);
    assert!(empty.eq(&none));
}

#[test]
fn append_nothing_gives_the_same_list() {
    let mut items: TypedInterner<String> = TypedInterner::new();
    let mut lists: TypedInterner<Vec<Tok<String>>> = TypedInterner::new();
    let x = items.i("x");
    let l = lists.i(&[x][..]);
    let same = l.append(&mut lists, &[]);
    assert!(same.eq(&l));
    let same = l.prepend(&mut lists, &[]);
    assert!(same.eq(&l));
}

#[test]
fn ev_resolves_tokens_in_order() {
    let mut interner = Interner::new();
    let toks = [interner.i("one"), interner.i("two"), interner.i("one")];
    assert_eq!(ev(&toks), vec!["one".to_string(), "two".to_string(), "one".to_string()]);
    let none: [Tok<String>; 0] = [];
    assert_eq!(ev(&none), Vec::<String>::new());
}

#[test]
fn weak_tokens_do_not_keep_values_alive() {
    let mut table: TypedInterner<String> = TypedInterner::new();
    let foo = table.i("foo");
    let weak = WeakTok::new(&foo);
    let strong = weak.upgrade().expect("the value is still held");
    assert_eq!(strong.id(), foo.id());
    assert_eq!(strong.interner_id(), foo.interner_id());
    assert_eq!(strong.value().as_str(), "foo");
    drop(strong);
    drop(foo);
    assert!(weak.upgrade().is_none());
    assert_eq!(table.sweep(), 1);
}

#[test]
fn weak_tokens_need_the_table_identity_too() {
    let mut one: TypedInterner<String> = TypedInterner::new();
    let foo = one.i("foo");
    let weak = WeakTok::new(&foo);
    drop(one);
    assert!(weak.upgrade().is_some());
    let copy = foo.clone();
    drop(foo);
    assert!(weak.upgrade().is_some());
    drop(copy);
    assert!(weak.upgrade().is_none());
}

#[test]
fn registry_keeps_one_table_per_type() {
    let mut interner = Interner::new();
    let s = interner.i("7");
    let n = interner.i(&7u64);
    let m = interner.i(&7u32);
    assert_ne!(s.interner_id(), n.interner_id());
    assert_ne!(n.interner_id(), m.interner_id());
    assert_eq!(interner.i("7").interner_id(), s.interner_id());
    assert_eq!(interner.i(&7u64).interner_id(), n.interner_id());
    assert_eq!(*n.value(), 7u64);
    assert_eq!(*m.value(), 7u32);
    // Each table counts its own identities.
    assert_eq!(s.id(), 1);
    assert_eq!(n.id(), 1);
    assert_eq!(interner.i("8").id(), 2);
}

#[test]
fn tables_are_found_by_the_identity_of_the_type() {
    let mut interner = Interner::new();
    let strings = TypeId::of::<String>();
    let numbers = TypeId::of::<u64>();
    let a = interner.intern_in(strings, "a");
    assert_eq!(interner.table_for(strings), 0);
    assert_eq!(interner.get_interner::<String>(), 0);
    let b = interner.intern_at(0, "a");
    assert!(a.eq(&b));
    assert_eq!(interner.i("a").id(), a.id());
    assert_eq!(interner.table_for(numbers), 1);
    assert_eq!(interner.get_interner::<u64>(), 1);
    assert_eq!(interner.table_for(strings), 0);
    let n = interner.intern_in(numbers, &7u64);
    assert_eq!(interner.i(&7u64).id(), n.id());
    assert_ne!(n.interner_id(), a.interner_id());
    drop(a);
    drop(b);
    drop(n);
    assert_eq!(interner.sweep_type(TypeId::of::<u8>()), 0);
    assert_eq!(interner.sweep_type(strings), 1);
    assert_eq!(interner.sweep_at(0), 0);
    assert_eq!(interner.sweep_at(1), 1);
    assert_eq!(interner.size(), Some(0));
}

#[test]
fn sweeping_one_type_leaves_the_others() {
    let mut interner = Interner::new();
    assert_eq!(interner.sweep_t::<String>(), 0);
    assert_eq!(interner.sweep(), 0);
    drop(interner.i("gone"));
    drop(interner.i("gone too"));
    drop(interner.i(&1u64));
    assert_eq!(interner.sweep_t::<u32>(), 0);
    assert_eq!(interner.sweep_t::<String>(), 2);
    assert_eq!(interner.sweep_t::<String>(), 0);
    assert_eq!(interner.sweep(), 1);
    assert_eq!(interner.sweep(), 0);
}

#[test]
fn registry_counts_its_entries_and_its_room() {
    let mut interner = Interner::new();
    assert_eq!(interner.size(), Some(0));
    assert!(interner.can_issue(1));
    assert!(interner.can_issue(usize::MAX - 1));
    assert!(!interner.can_issue(usize::MAX));
    let _a = interner.i("a");
    let _b = interner.i("b");
    let _n = interner.i(&1u64);
    assert_eq!(interner.size(), Some(3));
    assert!(interner.can_issue(usize::MAX - 3));
    assert!(!interner.can_issue(usize::MAX - 2));
    drop(_a);
    assert_eq!(interner.size(), Some(3));
    assert_eq!(interner.sweep(), 1);
    assert_eq!(interner.size(), Some(2));
}

#[test]
fn sweep_adds_up_all_tables() {
    let mut interner = Interner::new();
    let kept = interner.i("kept");
    drop(interner.i("a"));
    drop(interner.i(&1u64));
    drop(interner.i(&2u64));
    drop(interner.i(&vec![1i32, 2]));
    assert_eq!(interner.sweep(), 4);
    assert_eq!(interner.i("kept").id(), kept.id());
}

#[test]
fn default_registry_is_made_on_first_use() {
    let mut global = Global::new();
    assert!(!global.is_started());
    let a = i(&mut global, "foo");
    assert!(global.is_started());
    let b = Tok::<String>::i(&mut global, "foo");
    assert!(a.eq(&b));
    drop(a);
    drop(b);
    assert_eq!(sweep_t::<u64>(&mut global), 0);
    assert_eq!(sweep_t::<String>(&mut global), 1);
    assert_eq!(sweep(&mut global), 0);
    let l1 = iv(&mut global, vec![1u64, 2, 3]);
    let l2 = ibv(&mut global, &[&1u64, &2, &3]);
    assert!(l1.eq(&l2));
    assert_eq!(l1.ev(), vec![1u64, 2, 3]);
    drop(l1);
    drop(l2);
    assert_eq!(sweep(&mut global), 4);
}

#[test]
fn default_registry_can_be_set_before_first_use_only() {
    let mut global = Global::new();
    let mut mine = Interner::new();
    let foo = mine.i("foo");
    assert!(set_global(&mut global, || mine));
    assert!(global.is_started());
    assert!(i(&mut global, "foo").eq(&foo));
    assert!(!set_global(&mut global, Interner::new));
    assert!(i(&mut global, "foo").eq(&foo));

    let mut used = Global::new();
    let bar = get_global(&mut used).i("bar");
    let mut calls = 0;
    assert!(!set_global(&mut used, || {
        calls += 1;
        Interner::new()
    }));
    assert_eq!(calls, 0);
    assert!(i(&mut used, "bar").eq(&bar));
}
