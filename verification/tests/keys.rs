use keyed_grid::decimal::push_decimal;
use keyed_grid::key::Key;
use keyed_grid::row_key::{bad_key, good_key};

fn decimal_of(n: usize) -> String {
    let mut out = String::new();
    push_decimal(&mut out, n);
    out
}

#[test]
fn decimal_of_zero() {
    assert_eq!(decimal_of(0), "0");
}

#[test]
fn decimal_of_single_digits() {
    for n in 0..10usize {
        assert_eq!(decimal_of(n), format!("{}", n));
    }
}

#[test]
fn decimal_of_larger_numbers() {
    assert_eq!(decimal_of(10), "10");
    assert_eq!(decimal_of(99), "99");
    assert_eq!(decimal_of(100), "100");
    assert_eq!(decimal_of(1203), "1203");
    assert_eq!(decimal_of(usize::MAX), format!("{}", usize::MAX));
}

#[test]
fn decimal_agrees_with_std_formatting() {
    let mut n: usize = 1;
    for _ in 0..19 {
        assert_eq!(decimal_of(n), n.to_string());
        assert_eq!(decimal_of(n - 1), (n - 1).to_string());
        n = n.wrapping_mul(7).wrapping_add(3);
    }
}

#[test]
fn push_decimal_appends() {
    let mut out = String::from("row ");
    push_decimal(&mut out, 42);
    assert_eq!(out, "row 42");
}

#[test]
fn bad_key_spells_width_height_index() {
    assert_eq!(bad_key(5, 5, 0), "5-5-0");
    assert_eq!(bad_key(10, 10, 9), "10-10-9");
    assert_eq!(bad_key(15, 15, 14), format!("{}-{}-{}", 15, 15, 14));
    assert_eq!(bad_key(0, 0, 0), "0-0-0");
}

#[test]
fn good_key_spells_length_first() {
    assert_eq!(good_key(5, 5, 5, 0), "5-5-5-0");
    assert_eq!(good_key(5, 10, 10, 2), "5-10-10-2");
    assert_eq!(good_key(10, 10, 10, 2), format!("{}-{}-{}-{}", 10, 10, 10, 2));
}

#[test]
fn bad_key_collides_where_good_key_discriminates() {
    // Two rows at index 2 of a 10x10 grid: one of 5 cells, one of 10 cells.
    let (short, full) = (5usize, 10usize);
    let bad_short = bad_key(10, 10, 2);
    let bad_full = bad_key(10, 10, 2);
    let good_short = good_key(short, 10, 10, 2);
    let good_full = good_key(full, 10, 10, 2);
    assert_eq!(bad_short, bad_full);
    assert_ne!(good_short, good_full);
}

#[test]
fn keys_differ_within_one_snapshot() {
    let good: Vec<String> = (0..12).map(|i| good_key(10, 10, 12, i)).collect();
    let bad: Vec<String> = (0..12).map(|i| bad_key(10, 12, i)).collect();
    for i in 0..12 {
        for j in 0..12 {
            assert_eq!(good[i] == good[j], i == j);
            assert_eq!(bad[i] == bad[j], i == j);
        }
    }
}

#[test]
fn keys_do_not_run_digits_together() {
    assert_ne!(bad_key(1, 11, 0), bad_key(11, 1, 0));
    assert_ne!(good_key(1, 1, 11, 1), good_key(11, 1, 1, 1));
}

#[test]
fn same_key_compares_contents() {
    assert!("5-5-0".to_string().same_key(&"5-5-0".to_string()));
    assert!(!"5-5-0".to_string().same_key(&"5-5-1".to_string()));
    assert!(7usize.same_key(&7usize));
    assert!(!7usize.same_key(&8usize));
    assert!(7u64.same_key(&7u64));
    assert!(!7u64.same_key(&70u64));
}

#[test]
fn code_of_a_number_is_the_number() {
    assert_eq!(0usize.code(), 0);
    assert_eq!(12345usize.code(), 12345);
    assert_eq!(u64::MAX.code(), u64::MAX);
}

#[test]
fn code_of_a_text_reads_its_bytes_to_the_base_31() {
    assert_eq!(String::new().code(), 0);
    assert_eq!("a".to_string().code(), 97);
    assert_eq!("ab".to_string().code(), 97 * 31 + 98);
    assert_eq!("5-5-0".to_string().code(), (((53 * 31 + 45) * 31 + 53) * 31 + 45) * 31 + 48);
    // two bytes for one character
    assert_eq!("\u{e9}".to_string().code(), 0xc3 * 31 + 0xa9);
}

#[test]
fn code_of_a_long_text_is_reduced_modulo_the_prime() {
    let text = "zzzzzzzzzzzzzzzzzzzz".to_string();
    let modulus: u128 = 0xffff_ffff_ffff_ffc5;
    let mut expected: u128 = 0;
    for byte in text.bytes() {
        expected = (expected * 31 + byte as u128) % modulus;
    }
    assert!(text.len() as u32 * 5 > 64);
    assert_eq!(text.code() as u128, expected);
    assert_eq!(keyed_grid::key::CODE_MODULUS as u128, modulus);
}

#[test]
fn equal_keys_have_equal_codes() {
    assert_eq!(good_key(5, 10, 10, 2).code(), "5-10-10-2".to_string().code());
    assert_eq!(bad_key(10, 10, 2).code(), format!("{}-{}-{}", 10, 10, 2).code());
}
