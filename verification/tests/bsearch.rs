use alphgen::bsearch::prev_power_of_two;
use alphgen::bsearch::BSearch;

#[test]
fn bsearch_non_power_of_two1() {
    let expected = BSearch { len: 160, search_range: 128, entry_selector: 3, range_shift: 32 };
    let actual = BSearch::from(10, 16);
    assert_eq!(actual, expected);
}

#[test]
fn bsearch_non_power_of_two2() {
    let expected = BSearch { len: 10, search_range: 8, entry_selector: 2, range_shift: 2 };
    let actual = BSearch::from(5, 2);
    assert_eq!(actual, expected);
}

#[test]
fn bsearch_power_of_two1() {
    let expected = BSearch { len: 8, search_range: 8, entry_selector: 2, range_shift: 0 };
    let actual = BSearch::from(4, 2);
    assert_eq!(actual, expected);
}

#[test]
fn bsearch_single_record() {
    let expected = BSearch { len: 16, search_range: 16, entry_selector: 0, range_shift: 0 };
    assert_eq!(BSearch::from(1, 16), expected);
}

#[test]
fn bsearch_largest_directory() {
    // 4095 records of 16 bytes are the most that fit the 16-bit fields
    let expected =
        BSearch { len: 65520, search_range: 32768, entry_selector: 11, range_shift: 32752 };
    assert_eq!(BSearch::from(4095, 16), expected);
}

#[test]
fn bsearch_search_range_is_tightest_power_of_two() {
    for record_size in [1u16, 2, 16] {
        for count in 1..=(u16::MAX / record_size) {
            let b = BSearch::from(count, record_size);
            assert_eq!(b.len, count * record_size);
            assert_eq!(b.search_range % record_size, 0);
            assert_eq!(b.range_shift % record_size, 0);
            let records = b.search_range / record_size;
            assert!(records.is_power_of_two());
            assert_eq!(records, 1 << b.entry_selector);
            assert!(records <= count);
            assert!(records as u32 * 2 > count as u32);
            assert_eq!(records + b.range_shift / record_size, count);
        }
    }
}

#[test]
fn prev_power_of_two_values() {
    assert_eq!(prev_power_of_two(1), 1);
    assert_eq!(prev_power_of_two(2), 2);
    assert_eq!(prev_power_of_two(3), 2);
    assert_eq!(prev_power_of_two(1000), 512);
    assert_eq!(prev_power_of_two(32768), 32768);
    assert_eq!(prev_power_of_two(65535), 32768);
}
