use mapmaker::text::{join, to_decimal};

#[test]
fn numbers_are_written_in_decimal() {
    for n in [0, 7, 9, 10, 11, 99, 100, 101, 12_345, 1_000_000, u32::MAX] {
        assert_eq!(to_decimal(n), format!("{}", n));
    }
}

#[test]
fn parts_are_joined() {
    assert_eq!(join(&vec![], ", "), "");
    assert_eq!(join(&vec!["a".to_string()], ", "), "a");
    assert_eq!(
        join(&vec!["a".to_string(), "".to_string(), "b".to_string()], ", "),
        "a, , b"
    );
}
