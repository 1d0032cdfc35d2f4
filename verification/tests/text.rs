use btc_model_trainer::binary64::Binary64;
use btc_model_trainer::text::{
    file_stem, join_path, parse_i32, parse_i64, parse_u32, same_text, to_lower, write_i64,
    write_two_digits,
};

fn number(x: f64) -> Binary64 {
    Binary64 { bits: x.to_bits() }
}

#[test]
fn texts_are_compared_by_their_characters() {
    assert!(same_text("kraken", "kraken"));
    assert!(!same_text("kraken", "Kraken"));
    assert!(!same_text("kraken", "krake"));
    assert!(same_text("größe", "größe"));
    assert_eq!(to_lower("BTC-Größe Ä"), "btc-größe Ä");
}

#[test]
fn integers_are_read_as_the_standard_library_reads_them() {
    for text in [
        "", "+", "-", "0", "-0", "+7", "007", "9223372036854775807", "9223372036854775808",
        "-9223372036854775808", "-9223372036854775809", " 1", "1 ", "1_000", "0x10", "12a",
        "99999999999999999999999999999999999999999",
    ] {
        assert_eq!(parse_i64(text), text.parse::<i64>().ok(), "{}", text);
        assert_eq!(parse_i32(text), text.parse::<i32>().ok(), "{}", text);
        assert_eq!(parse_u32(text), text.parse::<u32>().ok(), "{}", text);
    }
}

#[test]
fn written_integers_read_back() {
    for n in [0, 9, 10, -1, 1_700_000_000, i64::MIN, i64::MAX] {
        assert_eq!(write_i64(n), n.to_string());
        assert_eq!(parse_i64(&write_i64(n)), Some(n));
    }
    for n in [0u32, 3, 10, 12, 100] {
        assert_eq!(write_two_digits(n), format!("{:02}", n));
        assert_eq!(parse_u32(&write_two_digits(n)), Some(n));
    }
}

#[test]
fn file_names_have_stems() {
    assert_eq!(file_stem("03.parquet"), "03");
    assert_eq!(file_stem("archive.tar.gz"), "archive.tar");
    assert_eq!(file_stem(".hidden"), ".hidden");
    assert_eq!(file_stem("plain"), "plain");
}

#[test]
fn paths_are_joined_by_one_slash() {
    assert_eq!(join_path("data", "kraken"), "data/kraken");
    assert_eq!(join_path("data/", "kraken"), "data/kraken");
    assert_eq!(join_path("", "kraken"), "kraken");
    assert_eq!(join_path("data", "/kraken"), "/kraken");
}

#[test]
fn numbers_are_ordered_by_value() {
    let values = [
        f64::NEG_INFINITY, f64::MIN, -1.5, -f64::MIN_POSITIVE, -5e-324, -0.0, 0.0, 5e-324, 0.001,
        1.0, f64::MAX, f64::INFINITY, f64::NAN,
    ];
    for a in values {
        for b in values {
            assert_eq!(number(a).less_than(number(b)), a < b, "{} {}", a, b);
            if !(a == 0.0 && b == 0.0) && !(a.is_nan() && b.is_nan()) {
                assert_eq!(number(a).max_of(number(b)), number(a.max(b)), "{} {}", a, b);
                assert_eq!(number(a).min_of(number(b)), number(a.min(b)), "{} {}", a, b);
            }
        }
        assert_eq!(number(a).is_positive(), a > 0.0);
        assert_eq!(number(a).is_at_most_zero(), a <= 0.0);
        assert_eq!(number(a).nan(), a.is_nan());
        assert_eq!(number(a).negate(), number(-a));
    }
}
