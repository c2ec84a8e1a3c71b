use enigma::Enigma;

fn letters_engine(offsets: &[usize]) -> Enigma {
    let offsets: Vec<usize> = offsets.to_vec();
    let pairs: Vec<(u8, u8)> = Vec::new();
    match Enigma::new(&offsets, 26, 65, &pairs) {
        Ok(e) => e,
        Err(_) => panic!("key unexpectedly rejected"),
    }
}

#[test]
fn round_trip_over_mixed_symbols() {
    // In-alphabet letters mixed with digits, spaces and punctuation that
    // all lie outside [65, 91).
    let msg: Vec<u8> = b"MEET AT 10, GATE #7 - BRING KEYS!".to_vec();
    let mut enc = letters_engine(&[5, 12, 1]);
    let cipher = enc.crypt_msg(&msg);
    let mut dec = letters_engine(&[5, 12, 1]);
    assert_eq!(dec.decipher_msg(&cipher), msg);
}

#[test]
fn passthrough_symbols_leave_rotor_state_alone() {
    // Encoding with out-of-range symbols interleaved leaves exactly the
    // rotor state that the in-range subsequence alone would leave.
    let mut with_noise = letters_engine(&[5, 12, 1]);
    let mut plain_only = letters_engine(&[5, 12, 1]);
    let noisy: Vec<u8> = b"A1B 2C\x03D".to_vec();
    let filtered: Vec<u8> = b"ABCD".to_vec();
    let noisy_out = with_noise.crypt_msg(&noisy);
    let filtered_out = plain_only.crypt_msg(&filtered);
    assert_eq!(with_noise.rotor_starts(), plain_only.rotor_starts());
    assert_eq!(with_noise.cursor(), plain_only.cursor());
    // The out-of-range symbols came through unchanged...
    assert_eq!(noisy_out[1], b'1');
    assert_eq!(noisy_out[3], b' ');
    assert_eq!(noisy_out[4], b'2');
    assert_eq!(noisy_out[6], 3);
    // ...and the in-range ones encode exactly as in the filtered message.
    let in_range: Vec<u8> = noisy_out
        .iter()
        .copied()
        .filter(|&c| (65..91).contains(&c))
        .collect();
    assert_eq!(in_range, filtered_out);
}

#[test]
fn fixed_state_encoding_is_injective() {
    // For a fixed engine state (a fresh engine per symbol, so no stepping
    // in between), single-symbol encoding is injective over the alphabet.
    let mut seen = [false; 26];
    for code in 65..91u8 {
        let mut e = letters_engine(&[5, 12, 1]);
        let out = e.crypt_char(code);
        assert!((65..91).contains(&out));
        let slot = (out - 65) as usize;
        assert!(!seen[slot], "two symbols encoded to the same output");
        seen[slot] = true;
    }
    assert!(seen.iter().all(|&b| b));
}

#[test]
fn same_key_same_message_same_ciphertext() {
    let msg: Vec<u8> = b"STEPPING IS A PURE FUNCTION OF THE SYMBOL COUNT".to_vec();
    let mut first = letters_engine(&[9, 3, 17]);
    let mut second = letters_engine(&[9, 3, 17]);
    assert_eq!(first.crypt_msg(&msg), second.crypt_msg(&msg));
}

#[test]
fn divergence_starts_only_after_the_common_prefix() {
    // Two messages sharing a prefix encode identically up to the first
    // divergent symbol: state progression depends only on what was
    // processed so far.
    let m1: Vec<u8> = b"SHARED PREFIX THEN ONE".to_vec();
    let m2: Vec<u8> = b"SHARED PREFIX THEN TWO".to_vec();
    let mut e1 = letters_engine(&[9, 3, 17]);
    let mut e2 = letters_engine(&[9, 3, 17]);
    let c1 = e1.crypt_msg(&m1);
    let c2 = e2.crypt_msg(&m2);
    let common = 19;
    assert_eq!(&m1[..common], &m2[..common]);
    assert_eq!(&c1[..common], &c2[..common]);
    assert_ne!(&c1[common..], &c2[common..]);
}

#[test]
fn decode_then_encode_reproduces_the_text() {
    // The mirror direction: decoding any text and re-encoding it with an
    // identically-seeded engine gives the text back.
    let text: Vec<u8> = b"ANY TEXT AT ALL, EVEN 123 UNENCODED".to_vec();
    let mut dec = letters_engine(&[7, 19, 2]);
    let decoded = dec.decipher_msg(&text);
    let mut enc = letters_engine(&[7, 19, 2]);
    assert_eq!(enc.crypt_msg(&decoded), text);
}

#[test]
fn message_encoding_matches_symbol_by_symbol() {
    let msg: Vec<u8> = b"ONE SYMBOL IN, ONE SYMBOL OUT".to_vec();
    let mut whole = letters_engine(&[11, 4, 22]);
    let expected = whole.crypt_msg(&msg);
    let mut streamed = letters_engine(&[11, 4, 22]);
    let mut out: Vec<u8> = Vec::new();
    for &c in msg.iter() {
        out.push(streamed.crypt_char(c));
    }
    assert_eq!(out, expected);
}

#[test]
fn long_stream_round_trips() {
    // A few hundred symbols, exercising many full cursor cycles.
    let mut msg: Vec<u8> = Vec::new();
    for i in 0..600u32 {
        msg.push(65 + (i * 7 % 26) as u8);
    }
    let mut enc = letters_engine(&[25, 0, 13]);
    let cipher = enc.crypt_msg(&msg);
    let mut dec = letters_engine(&[25, 0, 13]);
    assert_eq!(dec.decipher_msg(&cipher), msg);
}
