use basehan::{decode, encode, BaseHan, BaseHanError};

const BASE: u32 = 0x4e00;
const SIGN: u32 = 0x8e00;

fn enc(bytes: &[u8]) -> String {
    match encode(bytes) {
        Ok(s) => s,
        Err(e) => panic!("encode failed: {:?}", e),
    }
}

fn dec(text: &str) -> Result<Vec<u8>, BaseHanError> {
    decode(&text.to_string())
}

fn codes(text: &str) -> Vec<u32> {
    text.chars().map(|c| c as u32).collect()
}

fn sample(len: usize) -> Vec<u8> {
    (0..len).map(|i| (i * 37 + 11) as u8).collect()
}

#[test]
fn empty_input_encodes_to_empty_text() {
    assert_eq!(enc(&[]), "");
}

#[test]
fn empty_text_decodes_to_no_bytes() {
    assert_eq!(dec("").unwrap(), Vec::<u8>::new());
}

#[test]
fn single_byte() {
    let s = enc(&[0x41]);
    assert_eq!(codes(&s), vec![BASE + 0x41]);
    assert_eq!(dec(&s).unwrap(), vec![0x41]);
}

#[test]
fn two_bytes() {
    let s = enc(&[0x41, 0x42]);
    assert_eq!(codes(&s), vec![BASE + 0x828, BASE + 0x2]);
    assert_eq!(dec(&s).unwrap(), vec![0x41, 0x42]);
}

#[test]
fn three_bytes_end_with_marker() {
    let s = enc(&[0x01, 0x02, 0x03]);
    assert_eq!(codes(&s), vec![BASE + 0x20, BASE + 0x203, SIGN]);
    assert_eq!(dec(&s).unwrap(), vec![0x01, 0x02, 0x03]);
}

#[test]
fn all_ones_reach_the_top_of_the_window() {
    let s = enc(&[0xFF, 0xFF]);
    assert_eq!(codes(&s), vec![BASE + 0x1FFF, BASE + 0x7]);
    assert_eq!(dec(&s).unwrap(), vec![0xFF, 0xFF]);
}

#[test]
fn symbol_below_window_is_refused() {
    let text: String = [char::from_u32(BASE - 1).unwrap()].iter().collect();
    match dec(&text) {
        Err(BaseHanError::InvalidCode(code, pos)) => {
            assert_eq!(code, BASE - 1);
            assert_eq!(pos, 0);
        }
        other => panic!("unexpected {:?}", other),
    }
}

#[test]
fn symbol_above_window_is_refused_at_its_position() {
    let text: String = [BASE, BASE + 5, BASE + 0x2000, BASE + 1]
        .iter()
        .map(|v| char::from_u32(*v).unwrap())
        .collect();
    match dec(&text) {
        Err(BaseHanError::InvalidCode(code, pos)) => {
            assert_eq!(code, BASE + 0x2000);
            assert_eq!(pos, 2);
        }
        other => panic!("unexpected {:?}", other),
    }
}

#[test]
fn first_of_several_bad_symbols_is_named() {
    match dec("a\u{4e00}b") {
        Err(BaseHanError::InvalidCode(code, pos)) => {
            assert_eq!(code, 'a' as u32);
            assert_eq!(pos, 0);
        }
        other => panic!("unexpected {:?}", other),
    }
}

#[test]
fn marker_inside_text_is_refused() {
    match dec("\u{4e01}\u{8e00}\u{4e02}") {
        Err(BaseHanError::InvalidCode(code, pos)) => {
            assert_eq!(code, SIGN);
            assert_eq!(pos, 1);
        }
        other => panic!("unexpected {:?}", other),
    }
}

#[test]
fn lone_marker_is_refused() {
    match dec("\u{8e00}") {
        Err(BaseHanError::InvalidCode(code, pos)) => {
            assert_eq!(code, SIGN);
            assert_eq!(pos, 0);
        }
        other => panic!("unexpected {:?}", other),
    }
}

#[test]
fn window_edges_are_accepted() {
    assert!(dec("\u{4e00}\u{6dff}").is_ok());
    assert!(dec("\u{6dff}").is_ok());
}

#[test]
fn round_trip_of_named_lengths() {
    for len in [1usize, 2, 3, 14, 100] {
        let b = sample(len);
        assert_eq!(dec(&enc(&b)).unwrap(), b, "length {}", len);
    }
}

#[test]
fn round_trip_of_lengths_up_to_forty() {
    for len in 0..=40usize {
        if len > 0 && (8 * len) % 13 == 0 {
            continue;
        }
        let b = sample(len);
        assert_eq!(dec(&enc(&b)).unwrap(), b, "length {}", len);
    }
}

#[test]
fn whole_last_symbol_decodes_one_byte_short() {
    let b = sample(13);
    let s = enc(&b);
    assert_eq!(s.chars().count(), 8);
    let mut expect = b[..11].to_vec();
    expect.push((b[11] & 0xE0) | (b[12] & 0x1F));
    assert_eq!(dec(&s).unwrap(), expect);
}

#[test]
fn symbols_stay_in_window() {
    for len in 0..=40usize {
        let s = enc(&sample(len));
        for c in s.chars() {
            let v = c as u32;
            assert!(v == SIGN || (BASE..=BASE + 0x1FFF).contains(&v));
        }
    }
}

#[test]
fn marker_only_at_end_and_only_for_long_tails() {
    for len in 0..=26usize {
        let s = codes(&enc(&sample(len)));
        let rest = (8 * len) % 13;
        let expect = (9..=12).contains(&rest);
        assert_eq!(s.last() == Some(&SIGN), expect, "length {}", len);
        let marks = s.iter().filter(|v| **v == SIGN).count();
        assert_eq!(marks, if expect { 1 } else { 0 });
        let whole = (8 * len) / 13 + if rest == 0 { 0 } else { 1 };
        assert_eq!(s.len(), whole + if expect { 1 } else { 0 });
    }
}

#[test]
fn encode_and_decode_repeat_exactly() {
    let b = sample(29);
    let a1 = enc(&b);
    let a2 = enc(&b);
    assert_eq!(a1, a2);
    assert_eq!(dec(&a1).unwrap(), dec(&a2).unwrap());
    assert!(matches!(dec("x"), Err(BaseHanError::InvalidCode(120, 0))));
    assert!(matches!(dec("x"), Err(BaseHanError::InvalidCode(120, 0))));
}

#[test]
fn trait_methods_match_free_functions() {
    let text = "hello".to_string();
    assert_eq!(BaseHan::encode(&text).unwrap(), enc(b"hello"));
    let encoded = enc(b"hello");
    assert_eq!(BaseHan::decode(&encoded).unwrap(), b"hello".to_vec());
}
