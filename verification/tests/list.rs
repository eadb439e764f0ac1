use sorted_list::Bound;
use sorted_list::Bound::Excluded;
use sorted_list::Bound::Included;
use sorted_list::Bound::Unbounded;
use sorted_list::SortedList;

fn insert_only_new(list: &mut SortedList, key: u64, value: u64) {
    let inserted = list.insert(key, value);
    assert!(inserted, "pair existed already: ({:?}, {:?})", key, value);
}

fn range_to_vec(mut range: sorted_list::Range) -> Vec<(u64, u64)> {
    let mut out = Vec::new();
    while let Some(pair) = range.next() {
        out.push(pair);
    }
    out
}

fn tuples_to_vec(mut tuples: sorted_list::Tuples) -> Vec<(u64, u64)> {
    let mut out = Vec::new();
    while let Some(pair) = tuples.next() {
        out.push(pair);
    }
    out
}

#[test]
fn insert_in_order_and_iterate() {
    let mut list = SortedList::new();
    insert_only_new(&mut list, 0, 0);
    insert_only_new(&mut list, 1, 4);

    let mut iter = list.iter();

    assert_eq!(iter.next(), Some((0, 0)));
    assert_eq!(iter.next(), Some((1, 4)));
    assert_eq!(iter.next(), None);
}

#[test]
fn insert_out_of_order_and_iterate() {
    let mut list = SortedList::new();
    insert_only_new(&mut list, 1, 4);
    insert_only_new(&mut list, 0, 0);

    let mut iter = list.iter();

    assert_eq!(iter.next(), Some((0, 0)));
    assert_eq!(iter.next(), Some((1, 4)));
    assert_eq!(iter.next(), None);
}

#[test]
fn insert_duplicate() {
    let mut list = SortedList::new();
    assert!(list.insert(1, 4));
    assert!(!list.insert(1, 4));
}

#[test]
fn insert_multiple_in_order() {
    let mut list = SortedList::new();
    insert_only_new(&mut list, 0, 0);
    insert_only_new(&mut list, 0, 1);
    insert_only_new(&mut list, 0, 2);
    insert_only_new(&mut list, 0, 3);

    let mut iter = list.iter();
    assert_eq!(iter.next(), Some((0, 0)));
    assert_eq!(iter.next(), Some((0, 1)));
    assert_eq!(iter.next(), Some((0, 2)));
    assert_eq!(iter.next(), Some((0, 3)));
    assert_eq!(iter.next(), None);
}

#[test]
fn multiple_values_are_iterated_in_insertion_order() {
    let mut list = SortedList::new();
    insert_only_new(&mut list, 0, 3);
    insert_only_new(&mut list, 0, 2);
    insert_only_new(&mut list, 0, 1);
    insert_only_new(&mut list, 0, 0);

    let mut iter = list.iter();
    assert_eq!(iter.next(), Some((0, 3)));
    assert_eq!(iter.next(), Some((0, 2)));
    assert_eq!(iter.next(), Some((0, 1)));
    assert_eq!(iter.next(), Some((0, 0)));
    assert_eq!(iter.next(), None);
}

#[test]
fn iterate_over_mixed_in_order() {
    let mut list = SortedList::new();
    insert_only_new(&mut list, 0, 0);
    insert_only_new(&mut list, 0, 1);
    insert_only_new(&mut list, 0, 2);
    insert_only_new(&mut list, 0, 3);
    insert_only_new(&mut list, 1, 4);
    insert_only_new(&mut list, 2, 5);
    insert_only_new(&mut list, 2, 6);
    insert_only_new(&mut list, 3, 7);

    let mut iter = list.iter();
    assert_eq!(iter.next(), Some((0, 0)));
    assert_eq!(iter.next(), Some((0, 1)));
    assert_eq!(iter.next(), Some((0, 2)));
    assert_eq!(iter.next(), Some((0, 3)));
    assert_eq!(iter.next(), Some((1, 4)));
    assert_eq!(iter.next(), Some((2, 5)));
    assert_eq!(iter.next(), Some((2, 6)));
    assert_eq!(iter.next(), Some((3, 7)));
    assert_eq!(iter.next(), None);
}

#[test]
fn iterate_over_mixed_out_of_order() {
    let mut list = SortedList::new();
    insert_only_new(&mut list, 3, 7);
    insert_only_new(&mut list, 0, 0);
    insert_only_new(&mut list, 1, 4);
    insert_only_new(&mut list, 0, 1);

    println!("{:?}", list);

    let mut iter = list.iter();
    assert_eq!(iter.next(), Some((0, 0)));
    assert_eq!(iter.next(), Some((0, 1)));
    assert_eq!(iter.next(), Some((1, 4)));
    assert_eq!(iter.next(), Some((3, 7)));
    assert_eq!(iter.next(), None);
}

#[test]
fn iterate_values_of() {
    let mut list = SortedList::new();
    insert_only_new(&mut list, 1, 4);
    insert_only_new(&mut list, 0, 0);
    insert_only_new(&mut list, 0, 1);
    insert_only_new(&mut list, 2, 5);
    insert_only_new(&mut list, 0, 2);
    insert_only_new(&mut list, 3, 7);
    insert_only_new(&mut list, 0, 3);
    insert_only_new(&mut list, 2, 6);

    let mut values_of = list.values_of(0);
    assert_eq!(values_of.next(), Some(0));
    assert_eq!(values_of.next(), Some(1));
    assert_eq!(values_of.next(), Some(2));
    assert_eq!(values_of.next(), Some(3));
    assert_eq!(values_of.next(), None);

    let mut values_of = list.values_of(1);
    assert_eq!(values_of.next(), Some(4));
    assert_eq!(values_of.next(), None);

    let mut values_of = list.values_of(2);
    assert_eq!(values_of.next(), Some(5));
    assert_eq!(values_of.next(), Some(6));
    assert_eq!(values_of.next(), None);

    let mut values_of = list.values_of(3);
    assert_eq!(values_of.next(), Some(7));
    assert_eq!(values_of.next(), None);
}

#[test]
fn extend_worst_case() {
    let max_key: u64 = 1000;
    let max_val: u64 = 100;
    let mut input = Vec::with_capacity((max_key * max_val) as usize);
    for key in 0..max_key {
        for val in 0..max_val {
            input.push((max_key - key, val));
        }
    }

    let began = std::time::Instant::now();

    let mut slist = SortedList::new();
    slist.extend(input);

    let elapsed = began.elapsed();
    println!("elapsed: {}.{:09}s", elapsed.as_secs(), elapsed.subsec_nanos());
}

#[test]
fn range() {
    let mut list = SortedList::new();
    insert_only_new(&mut list, 1, 4);
    insert_only_new(&mut list, 0, 0);
    insert_only_new(&mut list, 0, 1);
    insert_only_new(&mut list, 2, 5);
    insert_only_new(&mut list, 0, 2);
    insert_only_new(&mut list, 3, 7);
    insert_only_new(&mut list, 0, 3);
    insert_only_new(&mut list, 2, 6);
    insert_only_new(&mut list, 4, 8);
    insert_only_new(&mut list, 6, 9);
    insert_only_new(&mut list, 6, 10);
    insert_only_new(&mut list, 9, 11);

    assert_eq!(
        range_to_vec(list.range(Unbounded, Included(2))),
        vec![(0, 0), (0, 1), (0, 2), (0, 3), (1, 4), (2, 5), (2, 6)]
    );

    assert_eq!(
        range_to_vec(list.range(Unbounded, Excluded(2))),
        vec![(0, 0), (0, 1), (0, 2), (0, 3), (1, 4)]
    );

    assert_eq!(
        range_to_vec(list.range(Included(0), Excluded(2))),
        vec![(0, 0), (0, 1), (0, 2), (0, 3), (1, 4)]
    );

    assert_eq!(range_to_vec(list.range(Included(1), Excluded(2))), vec![(1, 4)]);

    assert_eq!(range_to_vec(list.range(Included(2), Excluded(2))), vec![]);

    assert_eq!(range_to_vec(list.range(Included(2), Included(2))), vec![(2, 5), (2, 6)]);

    assert_eq!(range_to_vec(list.range(Included(2), Excluded(3))), vec![(2, 5), (2, 6)]);

    assert_eq!(range_to_vec(list.range(Included(2), Included(3))), vec![(2, 5), (2, 6), (3, 7)]);

    assert_eq!(
        range_to_vec(list.range(Included(2), Unbounded)),
        vec![(2, 5), (2, 6), (3, 7), (4, 8), (6, 9), (6, 10), (9, 11)]
    );

    assert_eq!(
        range_to_vec(list.range(Excluded(1), Unbounded)),
        vec![(2, 5), (2, 6), (3, 7), (4, 8), (6, 9), (6, 10), (9, 11)]
    );

    assert_eq!(
        range_to_vec(list.range(Excluded(0), Unbounded)),
        vec![(1, 4), (2, 5), (2, 6), (3, 7), (4, 8), (6, 9), (6, 10), (9, 11)]
    );

    assert_eq!(
        range_to_vec(list.range(Excluded(4), Unbounded)),
        vec![(6, 9), (6, 10), (9, 11)]
    );

    assert_eq!(
        range_to_vec(list.range(Included(5), Unbounded)),
        vec![(6, 9), (6, 10), (9, 11)]
    );

    assert_eq!(
        range_to_vec(list.range(Excluded(5), Unbounded)),
        vec![(6, 9), (6, 10), (9, 11)]
    );

    assert_eq!(range_to_vec(list.range(Excluded(6), Unbounded)), vec![(9, 11)]);

    assert_eq!(range_to_vec(list.range(Excluded(6), Excluded(7))), vec![]);

    assert_eq!(range_to_vec(list.range(Excluded(6), Included(8))), vec![]);

    assert_eq!(range_to_vec(list.range(Excluded(6), Excluded(9))), vec![]);

    assert_eq!(range_to_vec(list.range(Excluded(6), Included(9))), vec![(9, 11)]);

    assert_eq!(range_to_vec(list.range(Excluded(7), Included(9))), vec![(9, 11)]);

    assert_eq!(range_to_vec(list.range(Included(7), Included(9))), vec![(9, 11)]);

    assert_eq!(range_to_vec(list.range(Excluded(8), Included(9))), vec![(9, 11)]);

    assert_eq!(range_to_vec(list.range(Included(8), Included(9))), vec![(9, 11)]);

    assert_eq!(
        range_to_vec(list.range(Bound::Unbounded, Bound::Unbounded)),
        tuples_to_vec(list.iter())
    );
}
