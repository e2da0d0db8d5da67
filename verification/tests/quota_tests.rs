use server_core::quota::{check_size, get_sorted_files_from_dir, is_rotation_file_name, plan_evictions};

const RANDOM_TEXT: &str = "Lorem ipsum dolor sit amet, consectetur adipisicing elit, sed do eiusmod tempor incididunt ut labore et dolore magna aliqua. Ut enim ad minim veniam, quis nostrud exercitation ullamco laboris nisi ut aliquip ex ea commodo consequat. Duis aute irure dolor in reprehenderit in voluptate velit esse cillum dolore eu fugiat nulla pariatur. Excepteur sint occaecat cupidatat non proident, sunt in culpa qui officia deserunt mollit anim id est laborum.";

fn listing_of_three() -> Vec<(Vec<u8>, u64)> {
    let size = RANDOM_TEXT.len() as u64;
    vec![
        (b"2020_08_01.log".to_vec(), size),
        (b"2020_08_02.log".to_vec(), size),
        (b"2020_08_03.log".to_vec(), size),
    ]
}

fn surviving_names(entries: &Vec<(Vec<u8>, u64)>, max_dir_size: u64) -> Vec<Vec<u8>> {
    let (files, cutoff) = check_size(entries, max_dir_size);
    files[cutoff..].iter().map(|r| r.name.clone()).collect()
}

#[test]
fn test_check_size() {
    let entries = listing_of_three();

    // budget 0: every file goes
    assert_eq!(0, surviving_names(&entries, 0).len());

    // budget 1000: the oldest file goes, the second and third remain
    let kept = surviving_names(&entries, 1000);
    assert_eq!(vec![b"2020_08_02.log".to_vec(), b"2020_08_03.log".to_vec()], kept);

    // budget 10000: nothing goes
    let kept = surviving_names(&entries, 10000);
    assert_eq!(
        vec![b"2020_08_01.log".to_vec(), b"2020_08_02.log".to_vec(), b"2020_08_03.log".to_vec()],
        kept
    );
}

// budget 1000, three ~500-byte files: only the newest two fit
#[test]
fn test_budget_keeps_newest_suffix() {
    let entries = vec![
        (b"2020_08_02.log".to_vec(), 500u64),
        (b"2020_08_01.log".to_vec(), 500u64),
        (b"2020_08_03.log".to_vec(), 500u64),
    ];
    let kept = surviving_names(&entries, 1000);
    assert_eq!(vec![b"2020_08_02.log".to_vec(), b"2020_08_03.log".to_vec()], kept);
}

// budget 0: all existing files are deleted regardless of date
#[test]
fn test_zero_budget_deletes_all() {
    let entries = vec![
        (b"1999_12_31.log".to_vec(), 1u64),
        (b"2020_08_01.log".to_vec(), 1u64),
        (b"2088_01_01.log".to_vec(), 1u64),
    ];
    assert_eq!(0, surviving_names(&entries, 0).len());
}

// a second pass over what the first left deletes nothing further
#[test]
fn test_enforcement_idempotent() {
    let entries = listing_of_three();
    let (files, cutoff) = check_size(&entries, 1000);
    let survivors: Vec<(Vec<u8>, u64)> =
        files[cutoff..].iter().map(|r| (r.name.clone(), r.size)).collect();
    let (files2, cutoff2) = check_size(&survivors, 1000);
    assert_eq!(0, cutoff2);
    assert_eq!(survivors.len(), files2.len());
}

#[test]
fn test_sorted_files() {
    let files = [b"2020_01_12.log".to_vec(), b"2020_03_14.log".to_vec(), b"2021_06_05.log".to_vec()];
    let entries: Vec<(Vec<u8>, u64)> =
        vec![(files[2].clone(), 3), (files[0].clone(), 1), (files[1].clone(), 2)];
    let sorted = get_sorted_files_from_dir(&entries);
    assert_eq!(files.len(), sorted.len());
    for i in 0..files.len() {
        assert_eq!(files[i], sorted[i].name);
    }
}

#[test]
fn test_filter_rejects_non_rotation_names() {
    let entries = vec![
        (b"2020_08_01.log".to_vec(), 10u64),
        (b"notes.txt".to_vec(), 10u64),
        (b"a.log".to_vec(), 10u64),
        (b"2020_13_01.log".to_vec(), 10u64),
        (b"2019_02_29.log".to_vec(), 10u64),
        (b"2020-08-02.log".to_vec(), 10u64),
        (b"2020_08_02.txt".to_vec(), 10u64),
    ];
    let sorted = get_sorted_files_from_dir(&entries);
    assert_eq!(1, sorted.len());
    assert_eq!(b"2020_08_01.log".to_vec(), sorted[0].name);
}

#[test]
fn test_is_rotation_file_name() {
    assert!(is_rotation_file_name(&b"2020_08_01.log".to_vec()));
    assert!(is_rotation_file_name(&b"2020_02_29.log".to_vec()));
    assert!(!is_rotation_file_name(&b"2019_02_29.log".to_vec()));
    assert!(!is_rotation_file_name(&b"2020_08_01.txt".to_vec()));
    assert!(!is_rotation_file_name(&b"2020_08_01x.log".to_vec()));
    assert!(!is_rotation_file_name(&b".log".to_vec()));
}

#[test]
fn test_plan_evictions_lone_oversized_file() {
    let entries = vec![(b"2020_08_01.log".to_vec(), 2000u64)];
    let (files, cutoff) = check_size(&entries, 1000);
    assert_eq!(1, files.len());
    assert_eq!(1, cutoff);
}

#[test]
fn test_plan_evictions_boundary() {
    let entries = vec![
        (b"2020_08_01.log".to_vec(), 400u64),
        (b"2020_08_02.log".to_vec(), 300u64),
        (b"2020_08_03.log".to_vec(), 300u64),
    ];
    // the whole directory fits exactly
    let (_, cutoff) = check_size(&entries, 1000);
    assert_eq!(0, cutoff);
    // one byte less and the oldest file goes
    let (_, cutoff) = check_size(&entries, 999);
    assert_eq!(1, cutoff);
}

#[test]
fn test_plan_evictions_empty() {
    let files = Vec::new();
    assert_eq!(0, plan_evictions(&files, 0));
}
