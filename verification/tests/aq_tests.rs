//! Tests for the Anglossic Qabbala valuations and decimation.

use oddments::aq;

const AQ: &str = "0123456789ABCDEFGHIJKLMNOPQRSTUVWXYZ";

#[test]
fn nummificate_works() {
    assert_eq!(aq::nummificate(&"AOK"), vec![54, 9]);
}

#[test]
fn gematria_works() {
    assert_eq!(aq::gematria(&"ZERO", AQ), 100);
    assert_eq!(aq::gematria(&"zero", AQ), 0);
    assert_eq!(aq::gematria(&"\u{1F605}", AQ), 0);
}

#[test]
fn decimation_works() {
    assert_eq!(aq::decimate(&10), 1);
}

#[test]
fn decimation_handles_negatives_and_long_numbers() {
    assert_eq!(aq::decimate(&140), 5);
    assert_eq!(aq::decimate(&999), 27);
    assert_eq!(aq::decimate(&-140), 5);
    assert_eq!(aq::decimate(&7), 7);
    assert!(aq::is_single_digit(&-9));
    assert!(!aq::is_single_digit(&10));
}

#[test]
fn nummificate_reduces_to_single_digit() {
    assert_eq!(aq::nummificate("ZERO"), vec![100, 1]);
    assert_eq!(aq::nummificate(""), vec![0]);
}

#[test]
fn hex_triplets_value_three_characters_at_a_time() {
    // A = 10, O = 24, K = 20 under the cipher; lower case counts the same
    // once upper-cased, and a leftover character is dropped.
    assert_eq!(aq::hex_triplets("AOK"), vec![(10, 24, 20)]);
    assert_eq!(aq::hex_triplets("aok"), vec![(10, 24, 20)]);
    assert_eq!(aq::hex_triplets("AOKZ"), vec![(10, 24, 20)]);
    assert_eq!(aq::hex_triplets("AOKAOK"), vec![(10, 24, 20), (10, 24, 20)]);
    assert_eq!(aq::hex_triplets("AB"), vec![]);
}

#[test]
fn hex_trinome_reads_the_low_byte_three_times() {
    // The gematria of AOK is 54; the masking formula reads the low byte
    // into every component.
    assert_eq!(aq::hex_trinome("AOK"), (54, 54, 54));
    // ZERO values to 100 after upper-casing; "zero" matches it.
    assert_eq!(aq::hex_trinome("zero"), (100, 100, 100));
}

#[test]
fn sanitize_query_keeps_letters_digits_and_spaces() {
    assert_eq!(aq::sanitize_query("a-o-k 9!"), "AOK 9");
    assert_eq!(aq::sanitize_query(""), "");
    assert_eq!(aq::sanitize_query("Abc xyz"), "ABC XYZ");
}
