use kvs::catalog::{
    generation_of_file_name, has_generation, log_file_name, parse_digits, remaining_generations,
    sorted_generation_list, stale_generations,
};
use kvs::log_path;

fn names(list: &[&str]) -> Vec<Vec<u8>> {
    list.iter().map(|s| s.as_bytes().to_vec()).collect()
}

#[test]
fn file_name_of_generation() {
    assert_eq!(log_file_name(0), b"0.log".to_vec());
    assert_eq!(log_file_name(12), b"12.log".to_vec());
    assert_eq!(log_file_name(u64::MAX), b"18446744073709551615.log".to_vec());
}

#[test]
fn path_of_generation_in_directory() {
    assert_eq!(log_path(&b"/tmp/db".to_vec(), 3), b"/tmp/db/3.log".to_vec());
    assert_eq!(log_path(&b"/tmp/db/".to_vec(), 40), b"/tmp/db/40.log".to_vec());
    assert_eq!(log_path(&Vec::new(), 7), b"7.log".to_vec());
}

#[test]
fn generation_read_from_file_name() {
    assert_eq!(generation_of_file_name(&b"7.log".to_vec()), Some(7));
    assert_eq!(generation_of_file_name(&b"+7.log".to_vec()), Some(7));
    assert_eq!(generation_of_file_name(&b"0042.log".to_vec()), Some(42));
    assert_eq!(
        generation_of_file_name(&b"18446744073709551615.log".to_vec()),
        Some(u64::MAX)
    );
}

#[test]
fn foreign_file_names_are_skipped() {
    assert_eq!(generation_of_file_name(&b"a.log".to_vec()), None);
    assert_eq!(generation_of_file_name(&b"7.txt".to_vec()), None);
    assert_eq!(generation_of_file_name(&b".log".to_vec()), None);
    assert_eq!(generation_of_file_name(&b"+.log".to_vec()), None);
    assert_eq!(generation_of_file_name(&b"-1.log".to_vec()), None);
    assert_eq!(generation_of_file_name(&b"log".to_vec()), None);
    assert_eq!(generation_of_file_name(&b"18446744073709551616.log".to_vec()), None);
}

#[test]
fn file_name_reads_back_as_its_generation() {
    for g in [0u64, 1, 9, 10, 99, 100, 12345, u64::MAX] {
        assert_eq!(generation_of_file_name(&log_file_name(g)), Some(g));
    }
}

#[test]
fn digits_parse() {
    assert_eq!(parse_digits(b"0"), Some(0));
    assert_eq!(parse_digits(b"907"), Some(907));
    assert_eq!(parse_digits(b""), None);
    assert_eq!(parse_digits(b"9a"), None);
}

#[test]
fn generations_sorted_ascending() {
    let list = names(&["10.log", "notes.txt", "2.log", "x.log", "7.log", "1.log"]);
    assert_eq!(sorted_generation_list(&list), vec![1, 2, 7, 10]);
    assert_eq!(sorted_generation_list(&Vec::new()), Vec::<u64>::new());
}

#[test]
fn generations_kept_from_compaction_on() {
    assert_eq!(remaining_generations(&vec![1, 3, 4, 5, 6], 5), vec![5, 6]);
    assert_eq!(remaining_generations(&vec![1, 2], 5), Vec::<u64>::new());
}

#[test]
fn generation_membership() {
    assert!(has_generation(&vec![2, 7], 7));
    assert!(!has_generation(&vec![2, 7], 3));
    assert!(!has_generation(&vec![], 0));
}

#[test]
fn stale_generations_are_older_than_compaction() {
    assert_eq!(stale_generations(&vec![1, 3, 4, 5, 6], 5), vec![1, 3, 4]);
    assert_eq!(stale_generations(&vec![5, 6], 5), Vec::<u64>::new());
}
