use name_engine::sorted_vec::{insertion_point, SortedVec, SortedVecBuilder};

fn thirds() -> SortedVec<u32, char> {
    // cumulative weights 0.2, 0.5 and 1.0, in thousandths
    let mut builder = SortedVecBuilder::new();
    builder.push(200u32, 'a');
    builder.push(500u32, 'b');
    builder.push(1000u32, 'c');
    builder.build()
}

#[test]
fn find_picks_first_key_that_reaches_the_query() {
    let index = thirds();
    assert_eq!(index.find(0).1, 'a');
    assert_eq!(index.find(190).1, 'a');
    assert_eq!(index.find(200).1, 'a');
    assert_eq!(index.find(300).1, 'b');
    assert_eq!(index.find(990).1, 'c');
}

#[test]
fn find_returns_key_and_value() {
    let index = thirds();
    assert_eq!(*index.find(201), (500u32, 'b'));
    assert_eq!(*index.find(500), (500u32, 'b'));
    assert_eq!(*index.find(501), (1000u32, 'c'));
    assert_eq!(*index.find(1000), (1000u32, 'c'));
}

#[test]
fn find_beyond_every_key_returns_last_entry() {
    let index = thirds();
    assert_eq!(*index.find(1001), (1000u32, 'c'));
    assert_eq!(*index.find(u32::MAX), (1000u32, 'c'));
}

#[test]
fn find_in_single_entry() {
    let mut builder = SortedVecBuilder::new();
    builder.push(7u64, "only");
    let index = builder.build();
    assert_eq!(index.len(), 1);
    assert_eq!(index.find(0).1, "only");
    assert_eq!(index.find(7).1, "only");
    assert_eq!(index.find(8).1, "only");
}

#[test]
fn build_sorts_by_key() {
    let mut builder = SortedVecBuilder::new();
    builder.push(1000u32, 'c');
    builder.push(200u32, 'a');
    builder.push(500u32, 'b');
    let index = builder.build();
    assert_eq!(index.len(), 3);
    assert_eq!(index.find(0).1, 'a');
    assert_eq!(index.find(190).1, 'a');
    assert_eq!(index.find(200).1, 'a');
    assert_eq!(index.find(300).1, 'b');
    assert_eq!(index.find(990).1, 'c');
}

#[test]
fn build_keeps_equal_keys_in_the_order_pushed() {
    let mut builder = SortedVecBuilder::new();
    builder.push(5usize, "first five");
    builder.push(3usize, "first three");
    builder.push(5usize, "second five");
    builder.push(3usize, "second three");
    builder.push(4usize, "four");
    let index = builder.build();
    assert_eq!(index.len(), 5);
    assert_eq!(index.find(0).1, "first three");
    assert_eq!(index.find(3).1, "first three");
    assert_eq!(index.find(4).1, "four");
    assert_eq!(index.find(5).1, "first five");
    assert_eq!(index.find(6).1, "second five");
}

#[test]
fn build_of_nothing_is_empty() {
    let builder: SortedVecBuilder<char, u8> = SortedVecBuilder::new();
    assert_eq!(builder.build().len(), 0);
}

#[test]
fn char_keys_are_ordered_by_code() {
    let mut builder = SortedVecBuilder::new();
    builder.push('z', 26u8);
    builder.push('a', 1u8);
    builder.push('ɛ', 99u8);
    builder.push('m', 13u8);
    let index = builder.build();
    assert_eq!(*index.find('a'), ('a', 1u8));
    assert_eq!(*index.find('b'), ('m', 13u8));
    assert_eq!(*index.find('n'), ('z', 26u8));
    assert_eq!(*index.find('ɛ'), ('ɛ', 99u8));
}

#[test]
fn insertion_point_counts_smaller_keys() {
    let entries = vec![(10u64, 'x'), (20u64, 'y'), (20u64, 'z'), (30u64, 'w')];
    assert_eq!(insertion_point(&entries, &5), 0);
    assert_eq!(insertion_point(&entries, &10), 0);
    assert_eq!(insertion_point(&entries, &11), 1);
    assert_eq!(insertion_point(&entries, &20), 1);
    assert_eq!(insertion_point(&entries, &21), 3);
    assert_eq!(insertion_point(&entries, &30), 3);
    assert_eq!(insertion_point(&entries, &31), 4);
}
