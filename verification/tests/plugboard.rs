use enigma::plugboard::{pairs_from_symbols, Plugboard};

fn board(pair_syms: &[u8], n: usize, base: u8) -> Plugboard {
    let syms: Vec<u8> = pair_syms.to_vec();
    let pairs = pairs_from_symbols(&syms);
    match Plugboard::from_pairs(&pairs, n, base) {
        Ok(p) => p,
        Err(_) => panic!("pairs unexpectedly rejected"),
    }
}

#[test]
fn configured_pairs_swap_both_ways() {
    let p = board(b"a~X2", 95, 32);
    assert_eq!(p.substitute(b'a'), b'~');
    assert_eq!(p.substitute(b'~'), b'a');
    assert_eq!(p.substitute(b'X'), b'2');
    assert_eq!(p.substitute(b'2'), b'X');
}

#[test]
fn unpaired_symbols_map_to_themselves() {
    let p = board(b"a~", 95, 32);
    assert_eq!(p.substitute(b'b'), b'b');
    assert_eq!(p.substitute(b' '), b' ');
    assert_eq!(p.substitute(b'}'), b'}');
}

#[test]
fn out_of_alphabet_symbols_pass_through() {
    let p = board(b"AB", 26, 65);
    assert_eq!(p.substitute(b'a'), b'a');
    assert_eq!(p.substitute(31), 31);
    assert_eq!(p.substitute(0), 0);
}

#[test]
fn substitution_is_an_involution() {
    let p = board(b"a~X2 !", 95, 32);
    for code in 0..=255u8 {
        assert_eq!(p.substitute(p.substitute(code)), code);
    }
}

#[test]
fn empty_pair_list_is_the_identity() {
    let p = board(&[], 26, 65);
    for code in 65..91u8 {
        assert_eq!(p.substitute(code), code);
    }
}

#[test]
fn odd_trailing_symbol_is_ignored() {
    let syms: Vec<u8> = b"a~X".to_vec();
    let pairs = pairs_from_symbols(&syms);
    assert_eq!(pairs, vec![(b'a', b'~')]);
}

#[test]
fn pairs_from_symbols_reads_consecutive_pairs() {
    let syms: Vec<u8> = b"AZBY".to_vec();
    let pairs = pairs_from_symbols(&syms);
    assert_eq!(pairs, vec![(b'A', b'Z'), (b'B', b'Y')]);
}
