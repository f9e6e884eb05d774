use kvs::segment::{generations, next_generation, segment_file_name, segment_gen};

#[test]
fn segment_names_parse() {
    assert_eq!(segment_gen("7.log"), Some(7));
    assert_eq!(segment_gen("18446744073709551615.log"), Some(u64::MAX));
    assert_eq!(segment_gen("18446744073709551616.log"), None);
    assert_eq!(segment_gen("engine"), None);
    assert_eq!(segment_gen("a1.log"), None);
    assert_eq!(segment_gen(".log"), None);
    assert_eq!(segment_gen("3.txt"), None);
    assert_eq!(segment_gen("007.log"), None);
    assert_eq!(segment_gen("00.log"), None);
    assert_eq!(segment_gen("0.log"), Some(0));
}

#[test]
fn generations_are_sorted_and_skip_other_files() {
    let names: Vec<String> = ["10.log", "engine", "2.log", "x.log", "1.log", "2.log", "007.log"]
        .iter()
        .map(|s| s.to_string())
        .collect();
    assert_eq!(generations(&names), vec![1, 2, 10]);
}

#[test]
fn next_generation_follows_the_last() {
    assert_eq!(next_generation(&vec![]), Some(1));
    assert_eq!(next_generation(&vec![1, 4]), Some(5));
    assert_eq!(next_generation(&vec![u64::MAX]), None);
}

#[test]
fn file_names_read_back() {
    assert_eq!(segment_file_name(42), "42.log");
    assert_eq!(segment_file_name(0), "0.log");
    for g in [0u64, 1, 9, 10, 12345, u64::MAX] {
        assert_eq!(segment_gen(&segment_file_name(g)), Some(g));
    }
}
