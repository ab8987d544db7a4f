//! Where a running program's values live, and how they stop living.

use quench::heap::{rooted, unrooted, Elements, Heap, Kind, Object, FIRST, SPACE_SHIFT};

type Numbers = Heap<u64, (i64, u32)>;

#[test]
fn a_root_packs_and_unpacks() {
    for kind in [Kind::Handle, Kind::Text, Kind::Exact, Kind::Decimal] {
        for handle in [0i64, 1, 12345, (1 << SPACE_SHIFT) - 1] {
            assert_eq!(unrooted(rooted(kind, handle)), Some((kind, handle)));
        }
    }
    assert_eq!(unrooted(rooted(Kind::Plain, 7)), None);
    assert_eq!(rooted(Kind::Text, 5), (2 << 56) | 5);
    assert_eq!(unrooted(-1), None);
}

#[test]
fn what_the_program_was_written_with_is_laid_out_first() {
    let heap: Numbers = Heap::laid_out(&[vec![1, 2, 3]], &["hello".to_string()]);
    assert_eq!(heap.at(0).values, [1, 2, 3]);
    assert_eq!(heap.at(0).holds, Elements::Values);
    assert_eq!(heap.said(0), "hello");
    assert_eq!(heap.live(), (1, 1, 0));
    assert!(!heap.worth_collecting());
    assert_eq!(heap.collections, 0);
}

#[test]
fn what_nothing_reaches_is_let_go_and_its_slot_used_again() {
    let mut heap: Numbers = Heap::laid_out(&[], &[]);
    let kept = heap.text("kept".to_string());
    let lost = heap.text("lost".to_string());
    let number = heap.exact(42);
    let decimal = heap.decimal((15, 1));
    assert_eq!(heap.live(), (0, 2, 2));

    heap.collect(&[(Kind::Text, kept), (Kind::Decimal, decimal)]);
    assert_eq!(heap.live(), (0, 1, 1));
    assert_eq!(heap.said(kept), "kept");
    assert_eq!(heap.decimally(decimal), &(15, 1));
    assert_eq!(heap.collections, 1);

    // The freed slot is where the next piece of text goes.
    let again = heap.text("again".to_string());
    assert_eq!(again, lost);
    let _ = number;
}

#[test]
fn an_array_of_arrays_keeps_what_it_points_at() {
    let mut heap: Numbers = Heap::default();
    let inner = heap.make(Elements::Values, 0, vec![7, 8]);
    let words = heap.text("word".to_string());
    let texts = heap.make(Elements::Text, 0, vec![words]);
    let outer = heap.make(Elements::Values, 1, vec![inner, texts]);
    let stray = heap.make(Elements::Values, 0, vec![9]);
    assert_eq!(heap.live(), (4, 1, 0));

    heap.collect(&[(Kind::Handle, outer)]);
    assert_eq!(heap.live(), (3, 1, 0), "only the stray array goes");
    assert_eq!(heap.at(inner).values, [7, 8]);
    assert_eq!(heap.said(words), "word");
    let _ = stray;

    heap.collect(&[]);
    assert_eq!(heap.live(), (0, 0, 0));
    assert_eq!(heap.collections, 2);
}

#[test]
fn written_things_outlive_every_collection() {
    let mut heap: Numbers = Heap::laid_out(&[vec![1], vec![2]], &["a".to_string()]);
    let made = heap.make(Elements::Values, 0, vec![3]);
    heap.collect(&[]);
    assert_eq!(heap.live(), (2, 1, 0));
    assert_eq!(heap.at(1).values, [2]);
    let reused = heap.make(Elements::Values, 0, vec![4]);
    assert_eq!(reused, made, "a freed slot after the written ones is used again");
}

#[test]
fn packed_roots_are_what_compiled_code_hands_over() {
    let mut heap: Numbers = Heap::default();
    let a = heap.make(Elements::Values, 0, vec![1]);
    let b = heap.make(Elements::Values, 0, vec![2]);
    heap.collect_packed(&[rooted(Kind::Handle, b), rooted(Kind::Plain, a), 12345]);
    assert_eq!(heap.live(), (1, 0, 0));
    assert_eq!(heap.at(b).values, [2]);
}

#[test]
fn collecting_is_worth_it_once_enough_is_made() {
    let mut heap: Numbers = Heap::laid_out(&[], &[]);
    for n in 0..FIRST {
        assert!(!heap.worth_collecting(), "after {n}");
        heap.exact(n as u64);
    }
    assert!(heap.worth_collecting());
    heap.collect(&[]);
    assert!(!heap.worth_collecting());
}

#[test]
fn what_survives_sets_how_much_to_allow() {
    let mut heap: Numbers = Heap::default();
    assert!(heap.worth_collecting(), "an empty heap allows nothing before its first look");
    let mut roots = Vec::new();
    for n in 0..200u64 {
        roots.push((Kind::Exact, heap.exact(n)));
    }
    heap.collect(&roots);
    assert_eq!(heap.live(), (0, 0, 200));
    // Twice the two hundred that survived is more than the first allowance.
    for _ in 0..399 {
        heap.exact(0);
    }
    assert!(!heap.worth_collecting());
    heap.exact(0);
    assert!(heap.worth_collecting());
}

#[test]
fn an_array_can_be_changed_where_it_is() {
    let mut heap: Numbers = Heap::default();
    let at = heap.make(Elements::Values, 0, vec![1, 2]);
    heap.at_mut(at).values[1] = 5;
    assert_eq!(heap.at(at).values, [1, 5]);
    assert!(!Object { holds: Elements::Values, depth: 0, values: vec![] }.points_somewhere());
    assert!(Object { holds: Elements::Exact, depth: 0, values: vec![] }.points_somewhere());
    assert!(Object { holds: Elements::Values, depth: 2, values: vec![] }.points_somewhere());
    let e = heap.exact(77);
    assert_eq!(*heap.exactly(e), 77);
}
