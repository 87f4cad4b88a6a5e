//! The BaseHan codec: bytes packed thirteen bits to a symbol, each symbol a
//! code point of a fixed window of 8192 code points.
use vstd::prelude::*;

verus! {

use crate::bits::{value, to_bits, packed};
use crate::stream::{BaseHanEncoder, BaseHanDecoder, whole_symbols, settled_bytes};

/// Scalar value of the symbol with index 0.
pub const BASE_OFFSET: u32 = 0x4e00;

/// Largest symbol index: indices fill thirteen bits.
pub const CODE_RANGE: u32 = 0x1FFF;

/// Scalar value of the tail marker: when it ends a text, the symbol before it
/// carries the last two bytes instead of the last one.
pub const MULTIBYTE_SIGN: u32 = 0x8e00;

/// Why a call failed.
#[derive(Debug)]
pub enum BaseHanError {
    /// A defect in the codec itself; the contracts show that it never occurs.
    InternalError(String),
    /// The code point with this scalar value, at this position of the text,
    /// is no symbol there.
    InvalidCode(u32, usize),
}

/// The symbol with the given index.
pub open spec fn symbol_of(index: nat) -> char {
    (BASE_OFFSET + index) as char
}

/// The tail marker as a character.
pub open spec fn sentinel() -> char {
    MULTIBYTE_SIGN as char
}

/// The bits of a byte string, eight to a byte, most significant first.
pub open spec fn byte_bits(b: Seq<u8>) -> Seq<bool> {
    packed(b.map_values(|x: u8| x as nat), 8)
}

/// The symbol indices of the encoding of `b`: each whole group of thirteen
/// bits of `b`, then what is left over, if anything, as one more index.
pub open spec fn encoded_indices(b: Seq<u8>) -> Seq<nat> {
    let bits = byte_bits(b);
    let n = 8 * b.len() as int;
    let whole = Seq::new((n / 13) as nat, |i: int| value(bits.subrange(13 * i, 13 * i + 13)));
    if n % 13 == 0 {
        whole
    } else {
        whole.push(value(bits.subrange(13 * (n / 13), n as int)))
    }
}

/// The encoding of `b`: its symbols, followed by the tail marker where nine
/// to twelve bits were left over for the last symbol.
pub open spec fn encoded(b: Seq<u8>) -> Seq<char> {
    let syms = encoded_indices(b).map_values(|i: nat| symbol_of(i));
    if (8 * b.len()) % 13 >= 9 {
        syms.push(sentinel())
    } else {
        syms
    }
}

/// Whether `c` lies in the window of symbols.
pub open spec fn in_window(c: char) -> bool {
    BASE_OFFSET <= c as u32 <= BASE_OFFSET + CODE_RANGE
}

/// Whether `c` is the tail marker.
pub open spec fn is_marker(c: char) -> bool {
    c as u32 == MULTIBYTE_SIGN
}

/// Whether the decoder accepts position `i` of the text `s`: a symbol of the
/// window, or the tail marker where it ends a text of two or more characters.
pub open spec fn accepted_at(s: Seq<char>, i: int) -> bool {
    in_window(s[i]) || (is_marker(s[i]) && i == s.len() - 1 && i > 0)
}

/// Whether the decoder accepts every position of `s`.
pub open spec fn well_formed(s: Seq<char>) -> bool {
    forall|i: int| 0 <= i < s.len() ==> accepted_at(s, i)
}

/// Whether `pos` is the first position of `s` that the decoder refuses.
pub open spec fn first_rejected(s: Seq<char>, pos: int) -> bool {
    &&& 0 <= pos < s.len()
    &&& !accepted_at(s, pos)
    &&& forall|j: int| 0 <= j < pos ==> accepted_at(s, j)
}

/// Whether `s` ends with the tail marker.
pub open spec fn has_marker(s: Seq<char>) -> bool {
    s.len() > 0 && is_marker(s.last())
}

/// The symbols of `s` that carry data: all but a final tail marker.
pub open spec fn data_symbols(s: Seq<char>) -> Seq<char> {
    if has_marker(s) {
        s.drop_last()
    } else {
        s
    }
}

/// The index that a symbol of the window stands for.
pub open spec fn index_of(c: char) -> nat {
    (c as u32 - BASE_OFFSET) as nat
}

/// How many bits the last data symbol contributes, after `head_len` whole
/// symbols: what completes one byte, or two where the text has the marker.
pub open spec fn tail_width(head_len: nat, marker: bool) -> nat {
    let bytes: int = if marker { 2 } else { 1 };
    (8 * bytes - (13 * head_len) % 8) as nat
}

/// The bits that the non-empty data symbols `data` stand for: thirteen for
/// each symbol but the last, then the last one's `tail_width` lowest bits.
pub open spec fn symbol_bits(data: Seq<char>, marker: bool) -> Seq<bool> {
    let ix = data.map_values(|c: char| index_of(c));
    packed(ix.drop_last(), 13) + to_bits(ix.last(), tail_width((ix.len() - 1) as nat, marker))
}

/// The bytes of a bit string, eight bits to a byte.
pub open spec fn bytes_of_bits(bits: Seq<bool>) -> Seq<u8> {
    Seq::new(bits.len() / 8, |j: int| value(bits.subrange(8 * j, 8 * j + 8)) as u8)
}

/// The bytes that a well-formed text decodes to: nothing for the empty
/// text, else the bytes of the bits of its data symbols.
pub open spec fn decoded(s: Seq<char>) -> Seq<u8> {
    if s.len() == 0 {
        Seq::empty()
    } else {
        bytes_of_bits(symbol_bits(data_symbols(s), has_marker(s)))
    }
}

/// Relies on `String: FromIterator<&char>`: the string of exactly these characters.
#[verifier::external_body]
fn string_from_chars(v: &Vec<char>) -> (r: String)
    ensures
        r@ == v@,
{
    v.iter().collect()
}

/// Encodes `raw` as BaseHan text. It never fails.
pub fn encode(raw: &[u8]) -> (r: Result<String, BaseHanError>)
    ensures
        r matches Ok(s) && s@ == encoded(raw@),
{
    let mut encoder = BaseHanEncoder::new();
    let mut result = encoder.update(raw);
    let mut tail = encoder.finish();
    result.append(&mut tail);
    proof {
        assert(Seq::<u8>::empty() + raw@ =~= raw@);
        assert(whole_symbols(Seq::<u8>::empty()) =~= Seq::<char>::empty());
    }
    Ok(string_from_chars(&result))
}

/// A character is the symbol of an index, or the tail marker, exactly when
/// its scalar value says so.
pub proof fn lemma_scalar_of_symbol(c: char, v: u32)
    requires
        BASE_OFFSET <= v <= MULTIBYTE_SIGN,
    ensures
        (v as char) as u32 == v,
        c as u32 == v <==> c == v as char,
{
    assert((v as char) as u32 == v);
    assert(c as u32 == (v as char) as u32 ==> c == v as char);
}

/// Decodes BaseHan text. Every position must hold a symbol of the window,
/// but for a tail marker that ends a text of two or more characters; the
/// first position that does not fails the call. The empty text decodes to no
/// bytes.
pub fn decode(basehan: &String) -> (r: Result<Vec<u8>, BaseHanError>)
    ensures
        r is Ok <==> well_formed(basehan@),
        r matches Ok(v) ==> v@ == decoded(basehan@),
        r matches Err(e) ==> e matches BaseHanError::InvalidCode(code, pos) && first_rejected(
            basehan@,
            pos as int,
        ) && code == basehan@[pos as int] as u32,
{
    let symbols = chars_of(basehan);
    let n = symbols.len();
    let mut decoder = BaseHanDecoder::new();
    assert(decoder@.len() + n <= usize::MAX);
    match decoder.update(symbols.as_slice()) {
        Ok(mut result) => {
            let mut tail = decoder.finish();
            result.append(&mut tail);
            proof {
                assert(Seq::<char>::empty() + basehan@ =~= basehan@);
                assert(settled_bytes(Seq::<char>::empty()) =~= Seq::<u8>::empty());
            }
            Ok(result)
        },
        Err(e) => {
            proof {
                assert(Seq::<char>::empty() + basehan@ =~= basehan@);
            }
            Err(e)
        },
    }
}

/// The codec as methods of the values that it reads.
pub trait BaseHan {
    /// The bytes that `encode` reads from this value.
    spec fn han_bytes(&self) -> Seq<u8>;

    /// The text that `decode` reads from this value.
    spec fn han_text(&self) -> Seq<char>;

    /// Encodes `han_bytes()`, as the free `encode` does.
    fn encode(&self) -> (r: Result<String, BaseHanError>)
        ensures
            r matches Ok(s) && s@ == encoded(self.han_bytes()),
    ;

    /// Decodes `han_text()`, as the free `decode` does.
    fn decode(&self) -> (r: Result<Vec<u8>, BaseHanError>)
        ensures
            r is Ok <==> well_formed(self.han_text()),
            r matches Ok(v) ==> v@ == decoded(self.han_text()),
            r matches Err(e) ==> e matches BaseHanError::InvalidCode(code, pos) && first_rejected(
                self.han_text(),
                pos as int,
            ) && code == self.han_text()[pos as int] as u32,
    ;
}

impl BaseHan for String {
    /// The UTF-8 encoding of the string.
    open spec fn han_bytes(&self) -> Seq<u8> {
        vstd::utf8::encode_utf8(self@)
    }

    open spec fn han_text(&self) -> Seq<char> {
        self@
    }

    fn encode(&self) -> (r: Result<String, BaseHanError>) {
        encode(self.as_str().as_bytes())
    }

    fn decode(&self) -> (r: Result<Vec<u8>, BaseHanError>) {
        decode(self)
    }
}

/// The characters of `s`, in order.
fn chars_of(s: &String) -> (r: Vec<char>)
    ensures
        r@ == s@,
{
    let mut v: Vec<char> = Vec::new();
    for c in it: s.chars()
        invariant
            v@ == it.seq().take(it.index()),
    {
        v.push(c);
    }
    v
}

} // verus!
