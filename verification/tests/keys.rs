use gamba::keys::{emission_key_of, emission_key_of_id, gene_number_of, gene_number_of_id};

#[test]
fn output_key_reads_two_fields_as_one_decimal_number() {
    assert_eq!(emission_key_of(b"STRG.12.3"), Some(12_300_000_000));
    assert_eq!(emission_key_of(b"STRG.12.10"), Some(12_100_000_000));
    assert_eq!(emission_key_of(b"STRG.12.1"), Some(12_100_000_000));
    assert_eq!(emission_key_of(b"STRG.12.05"), Some(12_050_000_000));
    assert_eq!(emission_key_of(b"STRG.0.0"), Some(0));
    assert_eq!(emission_key_of(b"STRG.1.123456789"), Some(1_123_456_789));
    assert_eq!(emission_key_of(b".7.5"), Some(7_500_000_000));
}

#[test]
fn output_key_ignores_further_fields() {
    assert_eq!(emission_key_of(b"STRG.12.3.4"), Some(12_300_000_000));
    assert_eq!(emission_key_of(b"STRG.12.3."), Some(12_300_000_000));
}

#[test]
fn output_key_needs_two_numeric_fields() {
    assert_eq!(emission_key_of(b"STRG.12"), None);
    assert_eq!(emission_key_of(b"STRG"), None);
    assert_eq!(emission_key_of(b""), None);
    assert_eq!(emission_key_of(b"STRG.12."), None);
    assert_eq!(emission_key_of(b"STRG..3"), None);
    assert_eq!(emission_key_of(b"STRG.x.3"), None);
    assert_eq!(emission_key_of(b"STRG.12.3x"), None);
    assert_eq!(emission_key_of(b"STRG.-1.3"), None);
    assert_eq!(emission_key_of(b"NA"), None);
}

#[test]
fn output_key_has_limits() {
    assert_eq!(
        emission_key_of(b"STRG.4294967295.999999999"),
        Some(4_294_967_295_999_999_999)
    );
    assert_eq!(emission_key_of(b"STRG.4294967296.1"), None);
    assert_eq!(emission_key_of(b"STRG.1.0000000001"), None);
    assert_eq!(emission_key_of(b"STRG.00000000000000012.3"), Some(12_300_000_000));
    assert_eq!(emission_key_of(b"STRG.99999999999999999999999.3"), None);
}

#[test]
fn gene_number_is_the_second_field() {
    assert_eq!(gene_number_of(b"STRG.12.3"), Some(12));
    assert_eq!(gene_number_of(b"STRG.12"), Some(12));
    assert_eq!(gene_number_of(b"STRG.012"), Some(12));
    assert_eq!(gene_number_of(b".5"), Some(5));
    assert_eq!(gene_number_of(b"STRG.4294967295"), Some(4_294_967_295));
}

#[test]
fn gene_number_can_be_absent() {
    assert_eq!(gene_number_of(b"STRG"), None);
    assert_eq!(gene_number_of(b"NA"), None);
    assert_eq!(gene_number_of(b"STRG."), None);
    assert_eq!(gene_number_of(b"STRG..1"), None);
    assert_eq!(gene_number_of(b"a.b"), None);
    assert_eq!(gene_number_of(b"STRG.4294967296"), None);
    assert_eq!(gene_number_of(b"STRG.1e3"), None);
}

#[test]
fn keys_are_read_from_ids() {
    assert_eq!(emission_key_of_id(&"STRG.3.14".to_string()), Some(3_140_000_000));
    assert_eq!(gene_number_of_id(&"STRG.3.14".to_string()), Some(3));
    assert_eq!(emission_key_of_id(&"g\u{e9}ne.3.14".to_string()), Some(3_140_000_000));
    assert_eq!(gene_number_of_id(&"NA".to_string()), None);
}
