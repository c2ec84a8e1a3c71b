use enigma::Enigma;

fn build(offsets: &[usize], n: usize, base: u8, pair_syms: &[u8]) -> Enigma {
    let offsets: Vec<usize> = offsets.to_vec();
    let syms: Vec<u8> = pair_syms.to_vec();
    let pairs = enigma::plugboard::pairs_from_symbols(&syms);
    match Enigma::new(&offsets, n, base, &pairs) {
        Ok(e) => e,
        Err(_) => panic!("key unexpectedly rejected"),
    }
}

#[test]
fn single_symbol_exact_value() {
    // Offsets (1, 2) over the 26-letter alphabet, no plugboard:
    // 'A' -> index 0 -> rotor 1 gives 1 -> rotor 2 gives 3 -> 'D'.
    let mut e = build(&[1, 2], 26, 65, &[]);
    assert_eq!(e.crypt_char(b'A'), b'D');
    // The first rotor has advanced to start 2, so a second 'A' maps
    // 0 -> 2 -> (2 + 2) = 4 -> 'E'.
    assert_eq!(e.crypt_char(b'A'), b'E');
    // Now the second rotor has advanced (start 3): 0 -> 2 -> 5 -> 'F'.
    assert_eq!(e.crypt_char(b'A'), b'F');
}

#[test]
fn single_symbol_decode_exact_value() {
    let mut e = build(&[1, 2], 26, 65, &[]);
    assert_eq!(e.decipher_char(b'D'), b'A');
    assert_eq!(e.decipher_char(b'E'), b'A');
}

#[test]
fn zero_offsets_first_symbol_is_identity() {
    let mut e = build(&[0, 0], 26, 65, &[]);
    assert_eq!(e.crypt_char(b'A'), b'A');
    // After one symbol the first rotor has moved: no longer identity.
    assert_eq!(e.crypt_char(b'A'), b'B');
}

#[test]
fn plugboard_applies_before_and_after_rotors() {
    // Pair A<->B with identity rotors: encoding 'A' substitutes to 'B'
    // first, and the zero-offset chain leaves the index alone.
    let mut e = build(&[0], 26, 65, b"AB");
    assert_eq!(e.crypt_char(b'A'), b'B');
    // Decoding 'B' with a fresh engine runs the chain backward to 'B',
    // then substitutes back to 'A'.
    let mut d = build(&[0], 26, 65, b"AB");
    assert_eq!(d.decipher_char(b'B'), b'A');
}

#[test]
fn message_length_is_preserved() {
    let mut e = build(&[5, 12, 1], 26, 65, &[]);
    let msg: Vec<u8> = b"HELLO WORLD".to_vec();
    let out = e.crypt_msg(&msg);
    assert_eq!(out.len(), msg.len());
}

#[test]
fn three_rotor_letters_scenario_round_trips() {
    // 3 rotors over the 26-letter alphabet, offsets (5, 12, 1), no
    // plugboard.
    let msg: Vec<u8> = b"BASILIAEDIEGOPRASEMPREJUNTOS".to_vec();
    let mut enc1 = build(&[5, 12, 1], 26, 65, &[]);
    let cipher1 = enc1.crypt_msg(&msg);
    // Freshly constructed engines with identical offsets reproduce the
    // same ciphertext on every run.
    let mut enc2 = build(&[5, 12, 1], 26, 65, &[]);
    let cipher2 = enc2.crypt_msg(&msg);
    assert_eq!(cipher1, cipher2);
    // Every output symbol stays inside the alphabet.
    for &c in cipher1.iter() {
        assert!((65..65 + 26).contains(&c));
    }
    // An identically-seeded engine decodes back to the original message.
    let mut dec = build(&[5, 12, 1], 26, 65, &[]);
    let plain = dec.decipher_msg(&cipher1);
    assert_eq!(plain, msg);
}

#[test]
fn four_rotor_printable_scenario_passes_controls_through() {
    // 4 rotors over the 95-symbol printable alphabet, offsets
    // (5, 25, 0, 12), plugboard pair a<->~.
    let msg: Vec<u8> = b"Tea at \x07 four \x01o'clock, as always!".to_vec();
    let mut enc = build(&[5, 25, 0, 12], 95, 32, b"a~");
    let cipher = enc.crypt_msg(&msg);
    assert_eq!(cipher.len(), msg.len());
    // Control characters appear unchanged at the same positions.
    for (i, &c) in msg.iter().enumerate() {
        if c < 32 {
            assert_eq!(cipher[i], c);
        } else {
            assert!((32..32 + 95).contains(&cipher[i]));
        }
    }
    // The symbols around them still round-trip exactly.
    let mut dec = build(&[5, 25, 0, 12], 95, 32, b"a~");
    let plain = dec.decipher_msg(&cipher);
    assert_eq!(plain, msg);
}

#[test]
fn set_rot_fills_a_cyclic_shift() {
    let mut rot: Vec<usize> = vec![0; 26];
    Enigma::set_rot(&mut rot, 24, 26);
    assert_eq!(rot[0], 24);
    assert_eq!(rot[1], 25);
    assert_eq!(rot[2], 0);
    assert_eq!(rot[25], 23);
}

#[test]
fn inc_rot_wraps_every_entry() {
    let mut rot: Vec<usize> = vec![0; 26];
    Enigma::set_rot(&mut rot, 25, 26);
    Enigma::inc_rot(&mut rot, 26);
    assert_eq!(rot[0], 0);
    assert_eq!(rot[1], 1);
    assert_eq!(rot[25], 25);
}

#[test]
fn spin_rot_advances_one_rotor_and_the_cursor() {
    let mut e = build(&[3, 7], 26, 65, &[]);
    assert_eq!(e.cursor(), 0);
    e.spin_rot();
    assert_eq!(e.rotor_starts(), vec![4, 7]);
    assert_eq!(e.cursor(), 1);
    e.spin_rot();
    assert_eq!(e.rotor_starts(), vec![4, 8]);
    assert_eq!(e.cursor(), 0);
}
