use interner::{Intern, Interner, BEGIN_INTERNER_CAPACITY};
use std::collections::hash_map::DefaultHasher;
use std::hash::{Hash, Hasher};

fn hash_of(h: &Intern) -> u64 {
    let mut state = DefaultHasher::new();
    h.hash(&mut state);
    state.finish()
}

#[test]
fn interner_test() {
    let mut int = Interner::new();
    // Intern some things
    let ref_a1 = int.intern('a');
    let ref_b = int.intern('b');
    let ref_a2 = int.intern('a');
    // After this, only TWO items should be interned 'a' and 'b'. The second 'a' should have been discarded
    assert_eq!(int.holders().len(), 1);
    assert_eq!(int.holders()[0].len(), 2);
    // Now check that the addresses of ref_a1 and ref_a2 are equal
    assert!(std::ptr::eq(int.get(ref_a1), int.get(ref_a2)));
    assert!(!std::ptr::eq(int.get(ref_a1), int.get(ref_b)));

    let ref_b2 = int.intern('b');
    let _ref_c = int.intern('c');
    assert_eq!(ref_b, ref_b2);
}

#[test]
fn intern_impl_test() {
    let mut int = Interner::new();
    let a1 = int.intern('a');
    let a2 = int.intern('a');
    let x = int.intern('x');

    // Access to the value
    assert_eq!(int.get(a1), &'a');
    assert_eq!(*int.get(a1), 'a');
    // PartialEq
    assert_eq!(a1, a2);
    assert_ne!(a1, x);
    // Hash follows equality
    assert_eq!(hash_of(&a1), hash_of(&a2));
}

#[test]
fn new_interner_is_empty() {
    let int: Interner<u32> = Interner::new();
    assert_eq!(int.len(), 0);
    assert_eq!(int.holders().len(), 1);
    assert_eq!(int.holders()[0].capacity(), BEGIN_INTERNER_CAPACITY);
    assert_eq!(int.holders()[0].len(), 0);
    assert_eq!(BEGIN_INTERNER_CAPACITY, 32);
    assert!(int.iterate().is_empty());
    assert!(!int.contains(&0));
}

#[test]
fn chars_a_b_a_store_two_values() {
    let mut int = Interner::new();
    let a1 = int.intern('a');
    let b = int.intern('b');
    let a2 = int.intern('a');
    assert_eq!(int.len(), 2);
    assert_eq!(a1, a2);
    assert_ne!(b, a1);
    assert_ne!(b, a2);
}

#[test]
fn iterate_yields_values_in_order() {
    let mut int = Interner::new();
    for i in 0..100u32 {
        int.intern(i);
    }
    let handles = int.iterate();
    assert_eq!(handles.len(), 100);
    let values: Vec<u32> = handles.iter().map(|h| *int.get(*h)).collect();
    let expected: Vec<u32> = (0..100u32).collect();
    assert_eq!(values, expected);
}

#[test]
fn contains_after_intern() {
    let mut int = Interner::new();
    int.intern('a');
    int.intern('b');
    assert!(!int.contains(&'z'));
    int.intern('z');
    assert!(int.contains(&'z'));
    assert!(int.contains(&'a'));
}

#[test]
fn thirty_third_value_opens_second_block() {
    let mut int = Interner::new();
    let first = int.intern(0u64);
    for i in 1..32u64 {
        int.intern(i);
    }
    assert_eq!(int.holders().len(), 1);
    let address_before = format!("{:p}", int.get(first));
    int.intern(32u64);
    assert_eq!(int.holders().len(), 2);
    assert_eq!(int.holders()[0].len(), 32);
    assert_eq!(int.holders()[1].len(), 1);
    assert_eq!(int.holders()[1].capacity(), 48);
    assert_eq!(format!("{:p}", int.get(first)), address_before);
    assert_eq!(*int.get(first), 0);
}

#[test]
fn blocks_grow_by_half() {
    let mut int = Interner::new();
    // 32 + 48 + 72 = 152 values fill three blocks; one more opens a fourth.
    for i in 0..153u32 {
        int.intern(i);
    }
    let caps: Vec<usize> = int.holders().iter().map(|h| h.capacity()).collect();
    assert_eq!(caps, vec![32, 48, 72, 108]);
    assert_eq!(int.holders()[3].len(), 1);
    assert_eq!(int.len(), 153);
}

#[test]
fn repeated_inputs_store_one_value_per_class() {
    let mut int = Interner::new();
    let inputs = [5u32, 3, 5, 5, 9, 3, 1, 9, 5];
    let handles: Vec<Intern> = inputs.iter().map(|v| int.intern(*v)).collect();
    assert_eq!(int.len(), 4);
    for (i, a) in inputs.iter().enumerate() {
        for (j, b) in inputs.iter().enumerate() {
            assert_eq!(handles[i] == handles[j], a == b);
        }
    }
    let stored: Vec<u32> = int.iterate().iter().map(|h| *int.get(*h)).collect();
    assert_eq!(stored, vec![5, 3, 9, 1]);
}

#[test]
fn handles_survive_growth() {
    let mut int = Interner::new();
    let early: Vec<Intern> = (0..40u32).map(|i| int.intern(i)).collect();
    for i in 40..200u32 {
        int.intern(i);
    }
    for (i, h) in early.iter().enumerate() {
        assert_eq!(*int.get(*h), i as u32);
        assert_eq!(int.intern(i as u32), *h);
    }
    assert_eq!(int.len(), 200);
}

#[test]
fn iterate_handles_are_distinct_and_complete() {
    let mut int = Interner::new();
    let mut given = Vec::new();
    for i in 0..50u32 {
        given.push(int.intern(i % 35));
    }
    let handles = int.iterate();
    assert_eq!(handles.len(), 35);
    for i in 0..handles.len() {
        for j in 0..handles.len() {
            assert_eq!(handles[i] == handles[j], i == j);
        }
    }
    for g in given {
        assert!(handles.contains(&g));
    }
}

#[test]
fn strings_are_interned_by_value() {
    let mut int = Interner::new();
    let a = int.intern(String::from("alpha"));
    let b = int.intern(String::from("beta"));
    let a2 = int.intern(format!("al{}", "pha"));
    assert_eq!(a, a2);
    assert_ne!(a, b);
    assert_eq!(int.get(a), "alpha");
    assert_eq!(int.len(), 2);
}

#[test]
fn eighty_values_fill_exactly_two_blocks() {
    let mut int = Interner::new();
    for i in 0..80u32 {
        int.intern(i);
    }
    assert_eq!(int.holders().len(), 2);
    assert_eq!(int.holders()[0].len(), 32);
    assert_eq!(int.holders()[1].len(), 48);
    int.intern(80u32);
    assert_eq!(int.holders().len(), 3);
    assert_eq!(int.holders()[2].capacity(), 72);
    assert_eq!(int.holders()[2].len(), 1);
}

#[test]
fn hundred_values_shape() {
    let mut int = Interner::new();
    for i in 0..100u32 {
        int.intern(i);
    }
    let caps: Vec<usize> = int.holders().iter().map(|h| h.capacity()).collect();
    let lens: Vec<usize> = int.holders().iter().map(|h| h.len()).collect();
    assert_eq!(caps, vec![32, 48, 72]);
    assert_eq!(lens, vec![32, 48, 20]);
}

#[test]
fn handle_equality_with_calls_in_between() {
    let mut int = Interner::new();
    let h1 = int.intern(5u64);
    let _ = int.intern(7u64);
    for i in 100..200u64 {
        int.intern(i);
    }
    let h2 = int.intern(5u64);
    let h3 = int.intern(7u64);
    assert_eq!(h1, h2);
    assert_ne!(h1, h3);
}
