use enigma::{Enigma, KeyError};

fn new_engine(offsets: &[usize], n: usize, base: u8, pairs: &[(u8, u8)]) -> Result<Enigma, KeyError> {
    let offsets: Vec<usize> = offsets.to_vec();
    let pairs: Vec<(u8, u8)> = pairs.to_vec();
    Enigma::new(&offsets, n, base, &pairs)
}

fn expect_err(r: Result<Enigma, KeyError>) -> KeyError {
    match r {
        Ok(_) => panic!("key unexpectedly accepted"),
        Err(e) => e,
    }
}

#[test]
fn empty_alphabet_is_rejected() {
    let e = expect_err(new_engine(&[0], 0, 65, &[]));
    assert_eq!(e, KeyError::InvalidAlphabet);
}

#[test]
fn alphabet_past_byte_range_is_rejected() {
    let e = expect_err(new_engine(&[0], 100, 200, &[]));
    assert_eq!(e, KeyError::InvalidAlphabet);
}

#[test]
fn missing_rotors_are_rejected() {
    let e = expect_err(new_engine(&[], 26, 65, &[]));
    assert_eq!(e, KeyError::NoRotors);
}

#[test]
fn first_out_of_range_offset_is_reported() {
    let e = expect_err(new_engine(&[3, 30, 99], 26, 65, &[]));
    assert_eq!(e, KeyError::OffsetOutOfRange { index: 1, offset: 30 });
}

#[test]
fn boundary_offset_is_rejected() {
    let e = expect_err(new_engine(&[26], 26, 65, &[]));
    assert_eq!(e, KeyError::OffsetOutOfRange { index: 0, offset: 26 });
}

#[test]
fn plug_symbol_below_base_is_reported() {
    let e = expect_err(new_engine(&[1], 26, 65, &[(b'a', b'B')]));
    assert_eq!(e, KeyError::PlugSymbolOutOfRange { index: 0, symbol: b'a' });
}

#[test]
fn second_symbol_of_pair_is_checked_too() {
    let e = expect_err(new_engine(&[1], 26, 65, &[(b'A', b'1')]));
    assert_eq!(e, KeyError::PlugSymbolOutOfRange { index: 0, symbol: b'1' });
}

#[test]
fn symbol_in_two_pairs_is_reported() {
    let e = expect_err(new_engine(&[1], 26, 65, &[(b'A', b'B'), (b'C', b'A')]));
    assert_eq!(e, KeyError::PlugSymbolReused { index: 1, symbol: b'A' });
}

#[test]
fn self_paired_symbol_is_reported() {
    let e = expect_err(new_engine(&[1], 26, 65, &[(b'Q', b'Q')]));
    assert_eq!(e, KeyError::PlugSymbolReused { index: 0, symbol: b'Q' });
}

#[test]
fn valid_key_is_accepted() {
    assert!(new_engine(&[5, 25, 0, 12], 95, 32, &[(b'a', b'~')]).is_ok());
}

#[test]
fn maximal_offsets_are_accepted() {
    assert!(new_engine(&[25, 25, 25], 26, 65, &[]).is_ok());
}

#[test]
fn error_descriptions_are_nonempty() {
    let e = expect_err(new_engine(&[], 26, 65, &[]));
    assert!(!e.describe().is_empty());
}
