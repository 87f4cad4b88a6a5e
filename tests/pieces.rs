use basehan::{decode, encode, BaseHanDecoder, BaseHanEncoder, BaseHanError};

fn sample(len: usize) -> Vec<u8> {
    (0..len).map(|i| (i * 53 + 7) as u8).collect()
}

fn encode_in_pieces(bytes: &[u8], piece: usize) -> String {
    let mut encoder = BaseHanEncoder::new();
    let mut out: Vec<char> = Vec::new();
    for chunk in bytes.chunks(piece) {
        out.extend(encoder.update(chunk));
    }
    out.extend(encoder.finish());
    out.into_iter().collect()
}

fn decode_in_pieces(text: &str, piece: usize) -> Result<Vec<u8>, BaseHanError> {
    let symbols: Vec<char> = text.chars().collect();
    let mut decoder = BaseHanDecoder::new();
    let mut out = Vec::new();
    for chunk in symbols.chunks(piece) {
        out.extend(decoder.update(chunk)?);
    }
    out.extend(decoder.finish());
    Ok(out)
}

#[test]
fn encoder_in_pieces_matches_whole() {
    for len in 0..=30usize {
        let b = sample(len);
        let whole = encode(&b).unwrap();
        for piece in 1..=5usize {
            assert_eq!(encode_in_pieces(&b, piece), whole, "len {} piece {}", len, piece);
        }
    }
}

#[test]
fn encoder_gives_whole_symbols_before_finish() {
    let mut encoder = BaseHanEncoder::new();
    assert_eq!(encoder.update(&[0x41]), Vec::<char>::new());
    let first = encoder.update(&[0x42]);
    assert_eq!(first, vec![char::from_u32(0x4e00 + 0x828).unwrap()]);
    assert_eq!(encoder.finish(), vec![char::from_u32(0x4e02).unwrap()]);
}

#[test]
fn decoder_in_pieces_matches_whole() {
    for len in 0..=30usize {
        let b = sample(len);
        let text = encode(&b).unwrap();
        let whole = decode(&text).unwrap();
        for piece in 1..=4usize {
            assert_eq!(decode_in_pieces(&text, piece).unwrap(), whole, "len {} piece {}", len, piece);
        }
    }
}

#[test]
fn decoder_holds_back_the_last_symbol() {
    let text: Vec<char> = encode(&[0x01, 0x02, 0x03]).unwrap().chars().collect();
    let mut decoder = BaseHanDecoder::new();
    assert_eq!(decoder.update(&text[..2]).unwrap(), vec![0x01]);
    assert_eq!(decoder.update(&text[2..]).unwrap(), Vec::<u8>::new());
    assert_eq!(decoder.finish(), vec![0x02, 0x03]);
}

#[test]
fn decoder_names_global_position() {
    let mut decoder = BaseHanDecoder::new();
    assert!(decoder.update(&['\u{4e01}', '\u{4e02}']).is_ok());
    match decoder.update(&['\u{4e03}', 'z']) {
        Err(BaseHanError::InvalidCode(code, pos)) => {
            assert_eq!(code, 'z' as u32);
            assert_eq!(pos, 3);
        }
        other => panic!("unexpected {:?}", other),
    }
}

#[test]
fn marker_followed_by_more_is_refused_and_nothing_taken() {
    let mut decoder = BaseHanDecoder::new();
    assert_eq!(decoder.update(&['\u{4e20}', '\u{5003}', '\u{8e00}']).unwrap(), vec![0x01]);
    match decoder.update(&['\u{4e00}']) {
        Err(BaseHanError::InvalidCode(code, pos)) => {
            assert_eq!(code, 0x8e00);
            assert_eq!(pos, 2);
        }
        other => panic!("unexpected {:?}", other),
    }
    assert_eq!(decoder.finish(), vec![0x02, 0x03]);
}

#[test]
fn empty_decoder_finishes_with_nothing() {
    assert_eq!(BaseHanDecoder::new().finish(), Vec::<u8>::new());
    assert_eq!(BaseHanEncoder::new().finish(), Vec::<char>::new());
}
