use gram_db::array::{DoubleArray, Match};
use gram_db::builder::Builder;
use gram_db::dawg::DawgBuilder;
use gram_db::error::BuildError;
use std::cell::RefCell;

fn follow(da: &DoubleArray, key: &str) -> i32 {
    let mut node_pos = 0;
    let mut key_pos = 0;
    da.traverse(key.as_bytes(), &mut node_pos, &mut key_pos)
}

fn message(error: BuildError) -> &'static str {
    match error {
        BuildError::Message(text) => text,
    }
}

fn with_values(entries: &[(&str, i32)]) -> Result<Vec<u8>, BuildError> {
    let keys: Vec<&[u8]> = entries.iter().map(|e| e.0.as_bytes()).collect();
    let values: Vec<i32> = entries.iter().map(|e| e.1).collect();
    Builder::new().build(&keys, Some(&values))
}

fn without_values(keys: &[&str]) -> Result<Vec<u8>, BuildError> {
    let keys: Vec<&[u8]> = keys.iter().map(|k| k.as_bytes()).collect();
    Builder::new().build(&keys, None)
}

#[test]
fn test_build_and_search_no_values() {
    let keys = [
        "a".as_bytes(),
        "abc".as_bytes(),
        "b".as_bytes(),
        "bp".as_bytes(),
        "c".as_bytes(),
    ];

    let mut builder = Builder::new();
    let darts_data = builder.build(&keys, None).unwrap();

    let da = DoubleArray::new(&darts_data).unwrap();

    let mut node_pos = 0;
    let mut key_pos = 0;
    assert_eq!(da.traverse("a".as_bytes(), &mut node_pos, &mut key_pos), 0);

    node_pos = 0;
    key_pos = 0;
    assert_eq!(da.traverse("abc".as_bytes(), &mut node_pos, &mut key_pos), 1);

    node_pos = 0;
    key_pos = 0;
    assert_eq!(da.traverse("b".as_bytes(), &mut node_pos, &mut key_pos), 2);

    node_pos = 0;
    key_pos = 0;
    assert_eq!(da.traverse("bp".as_bytes(), &mut node_pos, &mut key_pos), 3);

    node_pos = 0;
    key_pos = 0;
    assert_eq!(da.traverse("c".as_bytes(), &mut node_pos, &mut key_pos), 4);

    node_pos = 0;
    key_pos = 0;
    // "ab" is a prefix but not a key
    assert_eq!(da.traverse("ab".as_bytes(), &mut node_pos, &mut key_pos), -1);

    node_pos = 0;
    key_pos = 0;
    // "d" does not exist
    assert_eq!(da.traverse("d".as_bytes(), &mut node_pos, &mut key_pos), -2);
}

#[test]
fn test_build_and_search_with_values() {
    let keys = [
        "ALGOL".as_bytes(),
        "ANSI".as_bytes(),
        "ARCO".as_bytes(),
        "ARPA".as_bytes(),
        "ARPANET".as_bytes(),
        "ASCII".as_bytes(),
    ];
    let values = [10, 20, 30, 40, 50, 60];

    let mut builder = Builder::new();
    let darts_data = builder.build(&keys, Some(&values)).unwrap();

    let da = DoubleArray::new(&darts_data).unwrap();

    let mut node_pos = 0;
    let mut key_pos = 0;
    assert_eq!(da.traverse("ALGOL".as_bytes(), &mut node_pos, &mut key_pos), 10);

    node_pos = 0;
    key_pos = 0;
    assert_eq!(da.traverse("ARPANET".as_bytes(), &mut node_pos, &mut key_pos), 50);

    node_pos = 0;
    key_pos = 0;
    assert_eq!(da.traverse("ASCII".as_bytes(), &mut node_pos, &mut key_pos), 60);

    node_pos = 0;
    key_pos = 0;
    // "AR" is not a key
    assert_eq!(da.traverse("AR".as_bytes(), &mut node_pos, &mut key_pos), -1);

    node_pos = 0;
    key_pos = 0;
    // "FOO" does not exist
    assert_eq!(da.traverse("FOO".as_bytes(), &mut node_pos, &mut key_pos), -2);
}

#[test]
fn test_common_prefix_search() {
    let keys = ["a".as_bytes(), "ab".as_bytes(), "abc".as_bytes()];
    let values = [1, 2, 3];

    let mut builder = Builder::new();
    let darts_data = builder.build(&keys, Some(&values)).unwrap();
    let da = DoubleArray::new(&darts_data).unwrap();

    let mut results = [Match::default(); 5];
    let num_results = da.common_prefix_search("abcd".as_bytes(), 0, &mut results);

    assert_eq!(num_results, 3);
    assert_eq!(results[0].value, 1);
    assert_eq!(results[0].length, 1); // "a"
    assert_eq!(results[1].value, 2);
    assert_eq!(results[1].length, 2); // "ab"
    assert_eq!(results[2].value, 3);
    assert_eq!(results[2].length, 3); // "abc"
}

#[test]
fn test_large_build() {
    let num_keys = 400_000; // test totally 400k keys
    let mut keys_sorted: Vec<String> = Vec::with_capacity(num_keys);

    let prefix = "key";
    let suffix = "喵呜";

    for i in 0..num_keys {
        // Pad with zeros to ensure lexicographical sort matches index order
        keys_sorted.push(format!("{prefix}{i:0>6}{suffix}"));
    }

    let key_slices: Vec<&[u8]> = keys_sorted.iter().map(|s| s.as_bytes()).collect();
    let values: Vec<i32> = (0..num_keys as i32).collect();

    // This test will run the full build logic for keys.
    let mut builder = Builder::new();
    let darts_data = builder.build(&key_slices, Some(&values)).unwrap();

    let da = DoubleArray::new(&darts_data).unwrap();

    // Test first key
    let mut node_pos = 0;
    let mut key_pos = 0;
    assert_eq!(da.traverse(format!("{prefix}000000{suffix}").as_bytes(), &mut node_pos, &mut key_pos), 0);

    // Test a key in the middle
    node_pos = 0;
    key_pos = 0;
    assert_eq!(da.traverse(format!("{prefix}050000{suffix}").as_bytes(), &mut node_pos, &mut key_pos), 50000);

    // Test large num key
    node_pos = 0;
    key_pos = 0;
    assert_eq!(da.traverse(format!("{prefix}399999{suffix}").as_bytes(), &mut node_pos, &mut key_pos), 399999);

    // Test non-existent key
    node_pos = 0;
    key_pos = 0;
    let out_bound_key_num = num_keys + 1;
    assert_eq!(
        da.traverse(format!("{prefix}{out_bound_key_num}{suffix}").as_bytes(), &mut node_pos, &mut key_pos),
        -2
    );
}

#[test]
fn keys_that_share_endings_and_values_are_kept_apart() {
    let entries = [("ax", 5), ("axy", 6), ("bx", 5), ("bxy", 6), ("cx", 5), ("cz", 5), ("dz", 5)];
    let data = with_values(&entries).unwrap();
    let da = DoubleArray::new(&data).unwrap();
    for (key, value) in entries {
        assert_eq!(follow(&da, key), value);
    }
    assert_eq!(follow(&da, "a"), -1);
    assert_eq!(follow(&da, "ay"), -2);
    assert_eq!(follow(&da, "czy"), -2);
    let listed: Vec<(Vec<u8>, i32)> = entries.iter().map(|e| (e.0.as_bytes().to_vec(), e.1)).collect();
    assert_eq!(da.list_all_keys(), listed);
}

#[test]
fn many_keys_with_equal_values() {
    let mut keys: Vec<String> = Vec::new();
    for a in b'a'..=b'z' {
        for b in b'a'..=b'z' {
            for c in b'a'..=b'z' {
                keys.push(format!("{}{}{}ing", a as char, b as char, c as char));
            }
        }
    }
    let slices: Vec<&[u8]> = keys.iter().map(|k| k.as_bytes()).collect();
    let values: Vec<i32> = (0..keys.len()).map(|i| (i % 3) as i32).collect();
    let data = Builder::new().build(&slices, Some(&values)).unwrap();
    let da = DoubleArray::new(&data).unwrap();
    for (i, key) in keys.iter().enumerate() {
        assert_eq!(follow(&da, key), (i % 3) as i32);
    }
    assert_eq!(da.list_all_keys().len(), keys.len());
}

#[test]
fn the_first_value_of_a_repeated_key_stays() {
    let data = with_values(&[("a", 1), ("a", 2), ("b", 3)]).unwrap();
    let da = DoubleArray::new(&data).unwrap();
    assert_eq!(follow(&da, "a"), 1);
    assert_eq!(follow(&da, "b"), 3);
}

#[test]
fn positions_are_the_values_of_keys_without_values() {
    let data = without_values(&["", "a", "ab", "b"]).unwrap();
    let da = DoubleArray::new(&data).unwrap();
    assert_eq!(follow(&da, ""), 0);
    assert_eq!(follow(&da, "ab"), 2);
    assert_eq!(
        da.list_all_keys(),
        vec![
            (b"".to_vec(), 0),
            (b"a".to_vec(), 1),
            (b"ab".to_vec(), 2),
            (b"b".to_vec(), 3),
        ]
    );
}

#[test]
fn all_bytes_can_be_labels() {
    let keys: Vec<Vec<u8>> = (1u8..=255).map(|b| vec![b, 255 - b + 1, 0xFF]).collect();
    let slices: Vec<&[u8]> = keys.iter().map(|k| k.as_slice()).collect();
    let data = Builder::new().build(&slices, None).unwrap();
    let da = DoubleArray::new(&data).unwrap();
    for (i, key) in keys.iter().enumerate() {
        let mut node_pos = 0;
        let mut key_pos = 0;
        assert_eq!(da.traverse(key, &mut node_pos, &mut key_pos), i as i32);
        assert_eq!(key_pos, 3);
    }
}

#[test]
fn no_keys() {
    let data = without_values(&[]).unwrap();
    assert_eq!(data.len(), 1024);
    let da = DoubleArray::new(&data).unwrap();
    assert_eq!(follow(&da, ""), -1);
    assert_eq!(da.list_all_keys(), vec![]);
    let data = with_values(&[]).unwrap();
    assert_eq!(data.len(), 1024);
    let da = DoubleArray::new(&data).unwrap();
    let mut results = [Match::default(); 2];
    assert_eq!(da.common_prefix_search(b"ab", 0, &mut results), 0);
    assert_eq!(da.list_all_keys(), vec![]);
}

#[test]
fn keys_without_end() {
    let da_data = with_values(&[("a", 1), ("ab", 2), ("b", 3)]).unwrap();
    assert!(DoubleArray::new(&da_data).unwrap().is_finite());
    let empty = without_values(&[]).unwrap();
    assert!(DoubleArray::new(&empty).unwrap().is_finite());
    // the second and the third unit are each other's children
    let units = [0u32, (1 << 10) | 1, (2 << 10) | 2, 0];
    let bytes: Vec<u8> = units.iter().flat_map(|u| u.to_le_bytes()).collect();
    assert!(!DoubleArray::new(&bytes).unwrap().is_finite());
}

#[test]
fn keys_with_zeros_are_listed() {
    // the root has a child under the byte 0, whose leaf holds 7
    let units = [1u32 << 10, (3 << 10) | 0x100, 0x8000_0007, 0];
    let bytes: Vec<u8> = units.iter().flat_map(|u| u.to_le_bytes()).collect();
    let da = DoubleArray::new(&bytes).unwrap();
    assert!(da.is_finite());
    assert_eq!(follow(&da, "\0"), 7);
    assert_eq!(da.get_children(0), vec![(0, 1)]);
    assert_eq!(da.list_all_keys(), vec![(vec![0], 7)]);
}

#[test]
fn keys_below_an_inner_node() {
    let data = with_values(&[("ab", 1), ("abc", 2), ("abd", 3), ("b", 4)]).unwrap();
    let da = DoubleArray::new(&data).unwrap();
    let mut node_pos = 0;
    let mut key_pos = 0;
    assert_eq!(da.traverse(b"ab", &mut node_pos, &mut key_pos), 1);
    let mut prefix = b"x".to_vec();
    let mut results = vec![(b"old".to_vec(), 9)];
    da.list_keys_recursive(node_pos, &mut prefix, &mut results);
    assert_eq!(prefix, b"x");
    let expected = vec![(b"old".to_vec(), 9), (b"x".to_vec(), 1), (b"xc".to_vec(), 2), (b"xd".to_vec(), 3)];
    assert_eq!(results, expected);
    da.list_keys_recursive(1_000_000, &mut prefix, &mut results);
    assert_eq!(results, expected);
    assert_eq!(da.get_children(1_000_000), vec![]);
}

#[test]
fn small_arrays_have_one_block() {
    let data = with_values(&[("a", 1), ("abcdefgh", 2), ("b", 3), ("xyz", 4)]).unwrap();
    assert_eq!(data.len(), 1024);
}

#[test]
fn a_callback_does_not_change_the_array() {
    let keys: [&[u8]; 3] = [b"ab", b"abc", b"b"];
    let plain = Builder::new().build(&keys, Some(&[3, 1, 3])).unwrap();
    let told = Builder::new().with_progress(|_, _| {}).build(&keys, Some(&[3, 1, 3])).unwrap();
    assert_eq!(plain, told);
    let plain = Builder::new().build(&keys, None).unwrap();
    let told = Builder::new().with_progress(|_, _| {}).build(&keys, None).unwrap();
    assert_eq!(plain, told);
}

#[test]
fn only_the_last_callback_is_called() {
    let first: RefCell<usize> = RefCell::new(0);
    let second: RefCell<usize> = RefCell::new(0);
    let mut builder = Builder::new()
        .with_progress(|_, _| *first.borrow_mut() += 1)
        .with_progress(|_, _| *second.borrow_mut() += 1);
    builder.build(&[b"a"], None).unwrap();
    assert_eq!((*first.borrow(), *second.borrow()), (0, 2));
}

#[test]
fn refused_keys_leave_the_graph_as_it_was() {
    let mut dawg = DawgBuilder::new();
    dawg.init();
    assert_eq!(dawg.insert(b"", -1).map_err(message), Err("Failed to insert key: negative value"));
    assert_eq!(dawg.insert(b"", 1).map_err(message), Err("Failed to insert key: zero-length key"));
    assert_eq!(dawg.insert(b"ab", 1).map_err(message), Ok(()));
    assert_eq!(dawg.insert(b"a", 2).map_err(message), Err("Failed to insert key: wrong key order"));
    assert_eq!(dawg.insert(b"b", 2).map_err(message), Ok(()));
}

#[test]
fn the_bytes_of_a_small_array() {
    let data = without_values(&["a"]).unwrap();
    assert_eq!(data.len(), 1024);
    let da = DoubleArray::new(&data).unwrap();
    // the root is the first unit, and its only child lies at the first free unit
    let mut node_pos = 0;
    let mut key_pos = 0;
    assert_eq!(da.traverse(b"a", &mut node_pos, &mut key_pos), 0);
    assert_eq!((node_pos, key_pos), (1, 1));
    assert_eq!(&data[0..4], &[0x00, 0x80, 0x01, 0x00]);
}

#[test]
fn traverse_goes_on_where_it_stopped() {
    let data = with_values(&[("abc", 7), ("abd", 8)]).unwrap();
    let da = DoubleArray::new(&data).unwrap();
    let mut node_pos = 0;
    let mut key_pos = 0;
    assert_eq!(da.traverse(b"ab", &mut node_pos, &mut key_pos), -1);
    assert_eq!(key_pos, 2);
    let middle = node_pos;
    assert_eq!(da.traverse(b"abd", &mut node_pos, &mut key_pos), 8);
    assert_eq!(key_pos, 3);
    node_pos = middle;
    key_pos = 0;
    assert_eq!(da.traverse(b"cx", &mut node_pos, &mut key_pos), -2);
    assert_eq!(key_pos, 1);
    // a node that does not exist
    node_pos = 1_000_000;
    key_pos = 0;
    assert_eq!(da.traverse(b"a", &mut node_pos, &mut key_pos), -2);
    assert_eq!((node_pos, key_pos), (1_000_000, 0));
    // nothing is left of the key
    node_pos = 0;
    key_pos = 9;
    assert_eq!(da.traverse(b"a", &mut node_pos, &mut key_pos), -1);
    assert_eq!((node_pos, key_pos), (0, 9));
}

#[test]
fn more_matches_than_results() {
    let data = with_values(&[("a", 1), ("aa", 2), ("aaa", 3)]).unwrap();
    let da = DoubleArray::new(&data).unwrap();
    let mut results = [Match::default(); 2];
    assert_eq!(da.common_prefix_search(b"aaab", 0, &mut results), 3);
    assert_eq!((results[0].value, results[0].length), (1, 1));
    assert_eq!((results[1].value, results[1].length), (2, 2));
    assert_eq!(da.common_prefix_search(b"aaab", 1_000_000, &mut results), 0);
    // from the node of "a"
    let mut node_pos = 0;
    let mut key_pos = 0;
    assert_eq!(da.traverse(b"a", &mut node_pos, &mut key_pos), 1);
    assert_eq!(da.common_prefix_search(b"ax", node_pos, &mut results), 1);
    assert_eq!((results[0].value, results[0].length), (2, 1));
}

#[test]
fn errors_of_keys_with_values() {
    assert_eq!(message(with_values(&[("a", -1)]).unwrap_err()), "Failed to insert key: negative value");
    assert_eq!(message(with_values(&[("", 1)]).unwrap_err()), "Failed to insert key: zero-length key");
    assert_eq!(message(with_values(&[("b", 1), ("a", 2)]).unwrap_err()), "Failed to insert key: wrong key order");
    assert_eq!(message(with_values(&[("ab", 1), ("a", 2)]).unwrap_err()), "Failed to insert key: wrong key order");
    assert_eq!(
        message(with_values(&[("a", 1), ("a\0b", 2)]).unwrap_err()),
        "Failed to insert key: invalid null character"
    );
}

#[test]
fn keys_with_values_are_cut_before_a_zero() {
    let data = with_values(&[("a\0b", 1), ("a", 5), ("ab", 7), ("c\0", 2), ("d", 3)]).unwrap();
    let da = DoubleArray::new(&data).unwrap();
    assert!(follow(&da, "a") >= 0);
    assert_eq!(follow(&da, "a\0b"), -2);
    assert_eq!(follow(&da, "ab"), 7);
    assert!(follow(&da, "c") >= 0);
    assert_eq!(follow(&da, "d"), 3);
    assert_eq!(follow(&da, "b"), -2);
    let keys: Vec<Vec<u8>> = da.list_all_keys().into_iter().map(|e| e.0).collect();
    assert_eq!(keys, vec![b"a".to_vec(), b"ab".to_vec(), b"c".to_vec(), b"d".to_vec()]);
}

#[test]
fn a_list_gives_back_keys_and_values() {
    let entries = [("a", 9), ("ab", 9), ("abc", 0), ("b", 9), ("bab", 4), ("zz", 2147483647)];
    let data = with_values(&entries).unwrap();
    let da = DoubleArray::new(&data).unwrap();
    let list: Vec<(Vec<u8>, i32)> = entries.iter().map(|e| (e.0.as_bytes().to_vec(), e.1)).collect();
    assert_eq!(da.list_all_keys(), list);
}

#[test]
fn errors_of_keys_without_values() {
    assert_eq!(
        message(without_values(&["b", "a"]).unwrap_err()),
        "Failed to build double-array: wrong key order"
    );
    assert_eq!(
        message(without_values(&["ab", "a"]).unwrap_err()),
        "Failed to build double-array: wrong key order"
    );
    assert_eq!(
        message(without_values(&["a", "a"]).unwrap_err()),
        "Failed to build double-array: inconsistent value for the same key"
    );
    assert_eq!(
        message(without_values(&["a\0b"]).unwrap_err()),
        "Failed to build double-array: invalid null character"
    );
}

#[test]
fn errors_of_arrays() {
    assert_eq!(DoubleArray::new(&[1, 2, 3]).err(), Some("Darts data length is not a multiple of 4"));
    assert_eq!(DoubleArray::new_at(&[1, 2, 3], 1).err(), Some("Darts data length is not a multiple of 4"));
    assert_eq!(DoubleArray::new_at(&[], 0).err(), Some("Darts array is empty"));
    assert_eq!(DoubleArray::new_at(&[], 2).err(), Some("Darts array data is not aligned to 4 bytes"));
    assert_eq!(DoubleArray::new_at(&[0, 0, 0, 0], 7).err(), Some("Darts array data is not aligned to 4 bytes"));
    assert!(DoubleArray::new_at(&[0, 0, 0, 0], 8).is_ok());
    // of four neighbouring addresses one is a multiple of four
    let bytes = vec![0; 16];
    let refused = (0..4).filter(|start| DoubleArray::new(&bytes[*start..*start + 4]).is_err()).count();
    assert_eq!(refused, 3);
}

#[test]
fn progress_is_reported() {
    let seen: RefCell<Vec<(usize, usize)>> = RefCell::new(Vec::new());
    let mut builder = Builder::new().with_progress(|current, total| seen.borrow_mut().push((current, total)));
    builder.build(&[b"a", b"b"], Some(&[1, 2])).unwrap();
    assert_eq!(*seen.borrow(), vec![(1, 3), (2, 3), (3, 3)]);
    seen.borrow_mut().clear();
    builder.build(&[b"a", b"ab", b"b"], None).unwrap();
    assert_eq!(*seen.borrow(), vec![(1, 4), (2, 4), (3, 4), (4, 4)]);
}

#[test]
fn progress_of_builds_that_fail() {
    let seen: RefCell<Vec<(usize, usize)>> = RefCell::new(Vec::new());
    let mut builder = Builder::new().with_progress(|current, total| seen.borrow_mut().push((current, total)));
    assert!(builder.build(&[b"a", b"b", b"ab"], Some(&[1, 2, 3])).is_err());
    assert_eq!(*seen.borrow(), vec![(1, 4), (2, 4)]);
    seen.borrow_mut().clear();
    // the second key ends where the first goes on, and is told before its order is looked at
    assert!(builder.build(&[b"ab", b"a"], None).is_err());
    assert_eq!(*seen.borrow(), vec![(2, 3)]);
    seen.borrow_mut().clear();
    assert!(builder.build(&[b"a", b"a\0"], None).is_err());
    assert_eq!(*seen.borrow(), vec![(1, 3)]);
}
