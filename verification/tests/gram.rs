use gram_db::array::{DoubleArray, Match};
use gram_db::codec::GramDbKey;
use gram_db::gram::{GramDb, GramDbBuilder, GramDbMetadata, K_MAX_RESULTS};
use std::cell::Cell;

fn scale(value: f64) -> i32 {
    (value.ln() * 10000.0).max(0.0) as i32
}

fn entries(data: &[(&str, f64)]) -> Vec<(String, i32)> {
    data.iter().map(|e| (e.0.to_string(), scale(e.1))).collect()
}

fn image_of(data: &[(&str, f64)]) -> Vec<u8> {
    let mut builder = GramDbBuilder::new();
    builder.extend_data(entries(data));
    builder.build().unwrap()
}

#[test]
fn test_build_and_query() {
    let test_data = [("a", 1.0), ("ab", 2.0), ("abc", 3.0), ("b", 1.5), ("bc", 2.5)];

    let mut builder = GramDbBuilder::new();
    builder.extend_data(entries(&test_data));

    let image = builder.build();
    assert!(image.is_ok());
    let image = image.unwrap();

    let gram_db = GramDb::from_bytes(&image).expect("Failed to open built gram db");

    let mut results = [Match::default(); K_MAX_RESULTS];

    let num_results = gram_db.lookup("a", "b", &mut results);
    assert!(num_results > 0, "Should find some results for context 'a', word 'b'");
    assert_eq!((results[0].value, results[0].length), (6931, 1));

    let num_results = gram_db.lookup("ab", "c", &mut results);
    assert!(num_results > 0, "Should find some results for context 'ab', word 'c'");

    let num_results = gram_db.lookup("x", "y", &mut results);
    assert_eq!(num_results, 0, "Should find no results for non-existent context");
}

#[test]
fn test_build_with_progress() {
    let test_data = [("test1", 1.0), ("test2", 2.0)];
    let calls = Cell::new(0);
    let progress_func = |current: usize, total: usize| {
        println!("Progress: {}/{}", current, total);
        calls.set(calls.get() + 1);
    };

    let mut builder = GramDbBuilder::new().with_progress(progress_func);
    builder.extend_data(entries(&test_data));

    assert!(builder.build().is_ok());
    assert_eq!(calls.get(), 3);
}

#[test]
fn small_databases_fit() {
    let mut builder = GramDbBuilder::new();
    assert!(builder.fits());
    builder.extend_data(entries(&[("b", 1.0), ("ab", 2.0), ("a", 3.0), ("a", 1.0)]));
    assert!(builder.fits());
    assert_eq!(builder.build().unwrap().len(), 2048);
}

#[test]
fn the_file_of_one_short_key() {
    let image = image_of(&[("a", 1.0)]);
    assert_eq!(image.len(), 2048);
    assert_eq!(&image[36..44], &[0, 1, 0, 0, 4, 0, 0, 0]);
    assert!(image[1068..].iter().all(|b| *b == 0));
}

#[test]
fn test_build_empty_data() {
    let mut builder = GramDbBuilder::new();
    assert!(builder.build().is_err());
    assert_eq!(builder.build().err(), Some("No data to build"));
}

#[test]
fn test_build_large_data() {
    let mut test_data = Vec::with_capacity(21000);
    for i in 00_0000..20_0000 {
        test_data.push((format!("word{:0>7}", i), scale((i + 1) as f64)));
    }
    let calls = Cell::new(0usize);
    let mut builder = GramDbBuilder::new().with_progress(|_current: usize, _total: usize| calls.set(calls.get() + 1));
    builder.extend_data(test_data);

    let image = builder.build();
    assert!(image.is_ok());
    let image = image.unwrap();
    assert_eq!(calls.get(), 200_001);

    assert!(GramDb::from_bytes(&image).is_ok());
    let db = GramDb::from_bytes(&image).unwrap();
    let mut results = [Match::default(); K_MAX_RESULTS];
    for i in [0usize, 1, 999, 123_456, 199_999] {
        let word = format!("{:0>7}", i);
        assert_eq!(db.lookup("word", &word, &mut results), 1);
        assert_eq!(results[0].value, scale((i + 1) as f64));
        assert_eq!(results[0].length, 7);
    }
}

#[test]
fn test_metadata_layout() {
    assert_eq!(std::mem::size_of::<GramDbMetadata>(), 44); // 32 + 4 + 4 + 4
    assert_eq!(std::mem::align_of::<GramDbMetadata>(), 4);

    let metadata = GramDbMetadata {
        format: [0xAA; 32],
        db_checksum: 0x11111111,
        double_array_size: 0x22222222,
        double_array_offset: 0x33333333,
    };
    let mut bytes = Vec::new();
    metadata.write(&mut bytes);
    assert_eq!(bytes.len(), 44);

    let format_pos = bytes.iter().position(|b| *b == 0xAA).unwrap();
    let checksum_pos = bytes.iter().position(|b| *b == 0x11).unwrap();
    let array_size_pos = bytes.iter().position(|b| *b == 0x22).unwrap();
    let array_offset_pos = bytes.iter().position(|b| *b == 0x33).unwrap();

    assert_eq!(format_pos, 0);
    assert_eq!(checksum_pos, 32);
    assert_eq!(array_size_pos, 36);
    assert_eq!(array_offset_pos, 40);
}

#[test]
fn a_header_is_read_back() {
    let mut bytes = vec![];
    GramDbMetadata::new(77).write(&mut bytes);
    assert_eq!(&bytes[0..18], b"Rime::Grammar/1.0\0");
    let read = GramDbMetadata::read(&bytes).unwrap();
    assert!(read.is_supported());
    assert_eq!(read.db_checksum, 0);
    assert_eq!(read.double_array_size, 77);
    assert_eq!(read.double_array_offset, 4);
    assert!(GramDbMetadata::read(&bytes[0..43]).is_none());
}

#[test]
fn the_layout_of_a_file() {
    let image = image_of(&[("a", 1.0)]);
    assert_eq!(image.len(), 2048);
    assert_eq!(&image[36..44], &[0, 1, 0, 0, 4, 0, 0, 0]);
    assert!(image[1068..].iter().all(|b| *b == 0));
    let da = DoubleArray::new(&image[44..1068]).unwrap();
    assert_eq!(da.list_all_keys(), vec![(b"a".to_vec(), 0)]);
}

#[test]
fn files_that_are_no_databases() {
    let image = image_of(&[("a", 1.0)]);
    assert!(GramDb::from_bytes(&image).is_ok());
    assert_eq!(GramDb::from_bytes(&image[0..43]).err(), Some("File too small for metadata"));
    let mut other = image.clone();
    other[13] = b'!';
    assert_eq!(GramDb::from_bytes(&other).err(), Some("Invalid .gram file format"));
    let mut other = image.clone();
    other[20] = b'!';
    assert!(GramDb::from_bytes(&other).is_ok());
    let mut other = image.clone();
    other[37] = 2;
    other[38] = 1;
    assert_eq!(GramDb::from_bytes(&other).err(), Some("Array data bounds exceed file size"));
    let mut other = image.clone();
    other[40] = 5;
    assert_eq!(GramDb::from_bytes(&other).err(), Some("Darts array data is not aligned to 4 bytes"));
    let mut other = image.clone();
    other[37] = 0;
    assert_eq!(GramDb::from_bytes(&other).err(), Some("Darts array is empty"));
}

#[test]
fn entries_are_sorted_and_the_first_of_equal_keys_stays() {
    let image = image_of(&[("b", 3.0), ("a", 2.0), ("ab", 4.0), ("a", 5.0)]);
    let db = GramDb::from_bytes(&image).unwrap();
    assert_eq!(
        db.trie.list_all_keys(),
        vec![
            (b"a".to_vec(), scale(2.0)),
            (b"ab".to_vec(), scale(4.0)),
            (b"b".to_vec(), scale(3.0)),
        ]
    );
}

#[test]
fn entries_that_cannot_be_stored() {
    let mut builder = GramDbBuilder::new();
    builder.extend_data(vec![("a".to_string(), 1), ("".to_string(), 1)]);
    assert_eq!(builder.build().err(), Some("Failed to build double-array trie"));
    let mut builder = GramDbBuilder::new();
    builder.extend_data(vec![("a".to_string(), -1)]);
    assert_eq!(builder.build().err(), Some("Failed to build double-array trie"));
}

#[test]
fn lookups_with_ideographs() {
    let image = image_of(&[("中文", 2.0), ("中文字", 3.0), ("中国", 4.0), ("\u{4E00}", 5.0)]);
    let db = GramDb::from_bytes(&image).unwrap();
    let mut results = [Match::default(); K_MAX_RESULTS];
    assert_eq!(db.lookup("中", "文字典", &mut results), 2);
    assert_eq!((results[0].value, results[0].length), (scale(2.0), 2));
    assert_eq!((results[1].value, results[1].length), (scale(3.0), 4));
    assert_eq!(db.lookup("", "中国", &mut results), 1);
    assert_eq!((results[0].value, results[0].length), (scale(4.0), 4));
    // the context alone is not found
    assert_eq!(db.lookup("中国", "", &mut results), 0);
    assert_eq!(db.lookup("国", "中", &mut results), 0);
}

#[test]
fn the_bytes_of_characters() {
    assert_eq!(GramDbKey::encode("a\0~"), vec![0x61, 0xE0, 0x7E]);
    // U+4E2D, U+4E00, U+9FFF, U+4000
    assert_eq!(GramDbKey::encode("中"), vec![0x8E, 0x2D]);
    assert_eq!(GramDbKey::encode("\u{4E00}"), vec![0xE1, 0x8E]);
    assert_eq!(GramDbKey::encode("\u{9FFF}"), vec![0xDF, 0xFF]);
    assert_eq!(GramDbKey::encode("\u{4000}"), vec![0xE1, 0x80]);
    // two, three and four groups of seven bits, from the top of the word
    assert_eq!(GramDbKey::encode("\u{E9}"), vec![0xE2, 0x80, 0x80]);
    assert_eq!(GramDbKey::encode("\u{3042}"), vec![0xE3, 0x80, 0x80, 0x86]);
    assert_eq!(GramDbKey::encode("\u{A000}"), vec![0xE3, 0x80, 0x80, 0x94]);
    assert_eq!(GramDbKey::encode("\u{1F600}"), vec![0xE3, 0x80, 0x80, 0xBE]);
    assert_eq!(GramDbKey::encode("\u{10FFFF}"), vec![0xE4, 0x80, 0x84, 0x9F, 0xFF]);
    assert_eq!(GramDbKey::encode(""), Vec::<u8>::new());
}

#[test]
fn decoding_undoes_encoding() {
    for text in ["", "abc", "a\0b", "中文", "\u{4E00}\u{4000}\u{9FFF}x", "Rime 輸入法"] {
        assert_eq!(GramDbKey::decode(&GramDbKey::encode(text)), text);
    }
    // other characters lose bits
    assert_ne!(GramDbKey::decode(&GramDbKey::encode("é")), "é");
}

#[test]
fn encoded_keys_have_no_zeros() {
    let text = "\0a中\u{4E00}é\u{3042}\u{1F600}\u{10FFFF}";
    assert!(!GramDbKey::encode(text).contains(&0));
}

#[test]
fn decoding_what_is_not_complete() {
    assert_eq!(GramDbKey::decode(&[0x61, 0xE1]), "a");
    assert_eq!(GramDbKey::decode(&[0x61, 0x8E]), "a");
    assert_eq!(GramDbKey::decode(&[0x61, 0xE3, 0x80]), "a");
    assert_eq!(GramDbKey::decode(&[0x61, 0xE2, 0x80]), "a");
    assert_eq!(GramDbKey::decode(&[0x00, 0xE0, 0x62]), "\0\0b");
    assert_eq!(GramDbKey::decode(&[0xE2, 0x81, 0x80, 0x62]), "\u{80}b");
    // a group that is not marked ends the number
    assert_eq!(GramDbKey::decode(&[0xE2, 0x41, 0x80, 0x62]), "\0b");
    assert_eq!(GramDbKey::decode(&[0xE2, 0x41]), "\0");
    // a number that is no character is left out: U+D800 cannot be
    assert_eq!(GramDbKey::decode(&[0xE3, 0x83, 0xB0, 0x80, 0x62]), "b");
    // a lead byte beyond the length bytes has a low byte
    assert_eq!(GramDbKey::decode(&[0xF0, 0x41, 0x62]), "\u{B041}b");
}
