//! The codec in pieces: input arrives over several calls, and the tail rules
//! apply only when the input is finished.
use vstd::prelude::*;

verus! {

use crate::bits::{
    value, to_bits, packed, low_mask, lemma_to_bits_len, lemma_to_bits_low, lemma_mask_is_mod,
    lemma_value_bound, lemma_packed_len, lemma_packed_chunk, lemma_packed_concat,
    lemma_register_push, lemma_register_take,
};
use crate::basehan::{
    BASE_OFFSET, CODE_RANGE, MULTIBYTE_SIGN, BaseHanError, symbol_of, byte_bits,
    encoded, in_window, accepted_at, well_formed, first_rejected, has_marker,
    data_symbols, index_of, tail_width, symbol_bits, bytes_of_bits, decoded,
    lemma_scalar_of_symbol,
};
use vstd::arithmetic::power2::{pow2, lemma2_to64, lemma_pow2_strictly_increases};

/// Relies on `char::from_u32`: the character with scalar value `v`, or `None`
/// where `v` is a surrogate or above the Unicode range.
#[verifier::external_body]
fn char_from_scalar(v: u32) -> (r: Option<char>)
    ensures
        (v <= 0xD7FF || (0xE000 <= v && v <= 0x10FFFF)) <==> r is Some,
        r matches Some(c) ==> c as u32 == v,
{
    char::from_u32(v)
}

/// The symbols of the whole groups of thirteen bits of `b`.
pub open spec fn whole_symbols(b: Seq<u8>) -> Seq<char> {
    let bits = byte_bits(b);
    Seq::new(
        (8 * b.len() / 13) as nat,
        |i: int| symbol_of(value(bits.subrange(13 * i, 13 * i + 13))),
    )
}

/// The bits of a byte string begin with the bits of each prefix.
proof fn lemma_byte_bits_prefix(a: Seq<u8>, b: Seq<u8>)
    ensures
        byte_bits(a + b).len() == 8 * (a.len() + b.len()),
        byte_bits(a + b).subrange(0, 8 * a.len() as int) == byte_bits(a),
{
    let va = a.map_values(|x: u8| x as nat);
    let vb = b.map_values(|x: u8| x as nat);
    assert((a + b).map_values(|x: u8| x as nat) =~= va + vb);
    lemma_packed_concat(va, vb, 8);
    lemma_packed_len(va, 8);
    lemma_packed_len(vb, 8);
    assert(byte_bits(a + b).subrange(0, 8 * a.len() as int) =~= byte_bits(a));
}

/// An encoder that takes its input in pieces. What it has given out, followed
/// by what `finish` gives, is the encoding of all the bytes it was given.
pub struct BaseHanEncoder {
    buff: u32,
    nbits: u32,
    consumed: Ghost<Seq<u8>>,
}

impl View for BaseHanEncoder {
    type V = Seq<u8>;

    /// The bytes given to the encoder so far.
    closed spec fn view(&self) -> Seq<u8> {
        self.consumed@
    }
}

impl BaseHanEncoder {
    /// The register holds the bits of the input that no symbol has taken yet.
    pub closed spec fn wf(&self) -> bool {
        let n = 8 * self.consumed@.len() as int;
        &&& self.nbits == n % 13
        &&& (self.buff & low_mask(self.nbits)) as nat == value(
            byte_bits(self.consumed@).subrange(n - self.nbits, n),
        )
    }

    /// An encoder that has been given nothing.
    pub fn new() -> (r: Self)
        ensures
            r.wf(),
            r@ == Seq::<u8>::empty(),
    {
        let r = BaseHanEncoder { buff: 0, nbits: 0, consumed: Ghost(Seq::empty()) };
        assert(r.buff & low_mask(0) == 0) by (bit_vector);
        proof {
            lemma_packed_len(Seq::<u8>::empty().map_values(|x: u8| x as nat), 8);
        }
        r
    }

    /// Takes `bytes` and gives out the symbols of the groups of thirteen bits
    /// that they complete.
    pub fn update(&mut self, bytes: &[u8]) -> (r: Vec<char>)
        requires
            old(self).wf(),
        ensures
            final(self).wf(),
            final(self)@ == old(self)@ + bytes@,
            whole_symbols(final(self)@) == whole_symbols(old(self)@) + r@,
    {
        let ghost before = self.consumed@;
        let ghost full = before + bytes@;
        let ghost bits = byte_bits(full);
        let ghost vals = full.map_values(|x: u8| x as nat);
        let ghost k0 = (8 * before.len() / 13) as int;
        let ghost n0 = 8 * before.len() as int;
        proof {
            lemma_byte_bits_prefix(before, bytes@);
            assert(byte_bits(before).subrange(n0 - self.nbits, n0) =~= bits.subrange(
                n0 - self.nbits,
                n0,
            ));
            lemma2_to64();
        }
        let mut result: Vec<char> = Vec::new();
        let mut buff = self.buff;
        let mut bit_pointer = self.nbits;
        for i in 0..bytes.len()
            invariant
                full == before + bytes@,
                bits == byte_bits(full),
                vals == full.map_values(|x: u8| x as nat),
                bits.len() == 8 * full.len(),
                n0 == 8 * before.len(),
                k0 == n0 / 13,
                pow2(13) == 8192,
                bit_pointer < 13,
                n0 + 8 * i == 13 * (k0 + result@.len()) + bit_pointer,
                (buff & low_mask(bit_pointer)) as nat == value(
                    bits.subrange(n0 + 8 * i - bit_pointer, n0 + 8 * i),
                ),
                forall|j: int|
                    0 <= j < result@.len() ==> result@[j] == symbol_of(
                        value(#[trigger] bits.subrange(13 * (k0 + j), 13 * (k0 + j) + 13)),
                    ),
        {
            let byte = bytes[i] as u32;
            let ghost at = n0 + 8 * i;
            proof {
                lemma_packed_len(vals, 8);
                lemma_packed_chunk(vals, 8, before.len() + i);
                assert(8 * (before.len() + i) == at);
                assert(byte & low_mask(8) == byte) by (bit_vector)
                    requires
                        byte < 256,
                ;
                lemma_register_push(
                    buff,
                    bit_pointer,
                    byte,
                    8,
                    bits.subrange(at - bit_pointer, at),
                );
                assert(bits.subrange(at - bit_pointer, at) + to_bits(byte as nat, 8)
                    =~= bits.subrange(at - bit_pointer, at + 8));
            }
            buff = buff << 8 | byte;
            bit_pointer += 8;
            while bit_pointer >= 13
                invariant
                    bits.len() == 8 * full.len(),
                    full.len() == before.len() + bytes@.len(),
                    n0 == 8 * before.len(),
                    i < bytes@.len(),
                    pow2(13) == 8192,
                    bit_pointer < 21,
                    n0 + 8 * (i + 1) == 13 * (k0 + result@.len()) + bit_pointer,
                    (buff & low_mask(bit_pointer)) as nat == value(
                        bits.subrange(n0 + 8 * (i + 1) - bit_pointer, n0 + 8 * (i + 1)),
                    ),
                    forall|j: int|
                        0 <= j < result@.len() ==> result@[j] == symbol_of(
                            value(#[trigger] bits.subrange(13 * (k0 + j), 13 * (k0 + j) + 13)),
                        ),
                decreases bit_pointer,
            {
                let ghost k = k0 + result@.len();
                let ghost end = n0 + 8 * (i + 1);
                let ghost pending = bits.subrange(13 * k, end);
                proof {
                    lemma_register_take(buff, bit_pointer, 13, pending);
                    assert(pending.subrange(0, 13) =~= bits.subrange(13 * k, 13 * k + 13));
                    assert(pending.subrange(13, bit_pointer as int) =~= bits.subrange(
                        13 * k + 13,
                        end,
                    ));
                    lemma_value_bound(bits.subrange(13 * k, 13 * k + 13));
                    assert(low_mask(13) == 0x1FFF) by (bit_vector);
                }
                bit_pointer -= 13;
                let index = (buff >> bit_pointer) & 0x1FFF;
                let c = char_from_scalar(index + BASE_OFFSET).unwrap();
                proof {
                    lemma_scalar_of_symbol(c, (index + BASE_OFFSET) as u32);
                }
                result.push(c);
            }
        }
        self.buff = buff;
        self.nbits = bit_pointer;
        self.consumed = Ghost(full);
        proof {
            let wb = whole_symbols(before);
            assert forall|j: int| 0 <= j < wb.len() implies #[trigger] wb[j] == whole_symbols(
                full,
            )[j] by {
                assert(byte_bits(before).subrange(13 * j, 13 * j + 13) =~= bits.subrange(
                    13 * j,
                    13 * j + 13,
                ));
            }
            let ws = whole_symbols(full);
            assert(ws.len() == k0 + result@.len());
            assert forall|j: int| 0 <= j < result@.len() implies #[trigger] result@[j] == ws[k0
                + j] by {
                assert(bits.subrange(13 * (k0 + j), 13 * (k0 + j) + 13) == bits.subrange(
                    13 * (k0 + j),
                    13 * (k0 + j) + 13,
                ));
            }
            assert(ws =~= wb + result@);
        }
        result
    }

    /// Gives out the symbol of the bits that are left, if any, followed by
    /// the tail marker where nine to twelve bits were left.
    pub fn finish(self) -> (r: Vec<char>)
        requires
            self.wf(),
        ensures
            whole_symbols(self@) + r@ == encoded(self@),
    {
        let ghost b = self.consumed@;
        let ghost n = 8 * b.len() as int;
        let mut result: Vec<char> = Vec::new();
        let bit_pointer = self.nbits;
        if bit_pointer > 0 {
            proof {
                lemma2_to64();
                lemma_packed_len(b.map_values(|x: u8| x as nat), 8);
                lemma_value_bound(byte_bits(b).subrange(n - bit_pointer, n));
                lemma_pow2_strictly_increases(bit_pointer as nat, 13);
                assert(0xFFFFFFFFu32 >> (32 - bit_pointer) as u32 == low_mask(bit_pointer))
                    by (bit_vector)
                    requires
                        1 <= bit_pointer < 13,
                ;
            }
            let index = self.buff & (0xFFFFFFFF >> (32 - bit_pointer));
            let c = char_from_scalar(index + BASE_OFFSET).unwrap();
            proof {
                lemma_scalar_of_symbol(c, (index + BASE_OFFSET) as u32);
            }
            result.push(c);
            if bit_pointer >= 9 {
                let sign = char_from_scalar(MULTIBYTE_SIGN).unwrap();
                proof {
                    lemma_scalar_of_symbol(sign, MULTIBYTE_SIGN);
                }
                result.push(sign);
            }
        }
        assert(whole_symbols(b) + result@ =~= encoded(b));
        result
    }
}

/// The indices of the data symbols of `text` but the last, which are the
/// ones whose bits do not depend on how the text ends.
pub open spec fn head_indices(text: Seq<char>) -> Seq<nat> {
    let ix = data_symbols(text).map_values(|c: char| index_of(c));
    if ix.len() == 0 {
        ix
    } else {
        ix.drop_last()
    }
}

/// The bytes of `text` that no later symbol can change.
pub open spec fn settled_bytes(text: Seq<char>) -> Seq<u8> {
    bytes_of_bits(packed(head_indices(text), 13))
}

/// Extending a bit string keeps the bytes of its whole bytes.
proof fn lemma_bytes_of_bits_prefix(a: Seq<bool>, b: Seq<bool>)
    ensures
        bytes_of_bits(a + b).subrange(0, (a.len() / 8) as int) == bytes_of_bits(a),
{
    let ab = a + b;
    assert forall|j: int| 0 <= j < a.len() / 8 implies #[trigger] bytes_of_bits(a)[j]
        == bytes_of_bits(ab)[j] by {
        assert(ab.subrange(8 * j, 8 * j + 8) =~= a.subrange(8 * j, 8 * j + 8));
    }
    assert(bytes_of_bits(ab).subrange(0, (a.len() / 8) as int) =~= bytes_of_bits(a));
}

/// Moves the thirteen bits of `index` into the register that holds the
/// pending bits of `done`, and gives out the bytes that this completes.
fn absorb(buff: &mut u32, nbits: &mut u32, index: u32, Ghost(done): Ghost<Seq<bool>>) -> (r: Vec<
    u8,
>)
    requires
        index <= CODE_RANGE,
        *old(nbits) == done.len() % 8,
        (*old(buff) & low_mask(*old(nbits))) as nat == value(
            done.subrange(done.len() - *old(nbits), done.len() as int),
        ),
    ensures
        ({
            let after = done + to_bits(index as nat, 13);
            &&& *final(nbits) == after.len() % 8
            &&& (*final(buff) & low_mask(*final(nbits))) as nat == value(
                after.subrange(after.len() - *final(nbits), after.len() as int),
            )
            &&& bytes_of_bits(done) + r@ == bytes_of_bits(after)
        }),
{
    let ghost after = done + to_bits(index as nat, 13);
    let ghost start = done.len() - *nbits;
    proof {
        lemma_to_bits_len(index as nat, 13);
        lemma2_to64();
        assert(index & low_mask(13) == index) by (bit_vector)
            requires
                index <= 0x1FFF,
        ;
        assert(index & 0x1FFF == index) by (bit_vector)
            requires
                index <= 0x1FFF,
        ;
        lemma_register_push(*buff, *nbits, index, 13, done.subrange(start, done.len() as int));
        assert(done.subrange(start, done.len() as int) + to_bits(index as nat, 13)
            =~= after.subrange(start, after.len() as int));
        lemma_bytes_of_bits_prefix(done, to_bits(index as nat, 13));
    }
    let mut result: Vec<u8> = Vec::new();
    *buff = (*buff << 13) | (index & 0x1FFF);
    *nbits = *nbits + 13;
    while *nbits >= 8
        invariant
            after == done + to_bits(index as nat, 13),
            after.len() == done.len() + 13,
            pow2(8) == 256,
            *nbits < 21,
            after.len() == 8 * (done.len() / 8 + result@.len()) + *nbits,
            (*buff & low_mask(*nbits)) as nat == value(
                after.subrange(after.len() - *nbits, after.len() as int),
            ),
            bytes_of_bits(after).subrange(0, (done.len() / 8) as int) == bytes_of_bits(done),
            forall|j: int|
                0 <= j < result@.len() ==> result@[j] == bytes_of_bits(after)[done.len() / 8
                    + j],
        decreases *nbits,
    {
        let ghost k = (done.len() / 8 + result@.len()) as int;
        let ghost pending = after.subrange(after.len() - *nbits, after.len() as int);
        proof {
            lemma_register_take(*buff, *nbits, 8, pending);
            assert(pending.subrange(0, 8) =~= after.subrange(8 * k, 8 * k + 8));
            assert(pending.subrange(8, *nbits as int) =~= after.subrange(
                8 * k + 8,
                after.len() as int,
            ));
            lemma_value_bound(after.subrange(8 * k, 8 * k + 8));
            assert(low_mask(8) == 0xFF) by (bit_vector);
        }
        *nbits = *nbits - 8;
        let byte = (*buff >> *nbits) & 0xFF;
        result.push(byte as u8);
    }
    assert(bytes_of_bits(done) + result@ =~= bytes_of_bits(after));
    result
}

/// A decoder that takes its text in pieces. It holds back the last data
/// symbol, whose bits depend on whether a tail marker follows, until
/// `finish`. What it has given out, followed by what `finish` gives, is the
/// decoding of the whole text.
pub struct BaseHanDecoder {
    buff: u32,
    nbits: u32,
    held: Option<char>,
    marker: bool,
    count: usize,
    received: Ghost<Seq<char>>,
}

impl View for BaseHanDecoder {
    type V = Seq<char>;

    /// The symbols given to the decoder so far.
    closed spec fn view(&self) -> Seq<char> {
        self.received@
    }
}

impl BaseHanDecoder {
    /// What has been received is well formed so far, the last data symbol
    /// is held back, and the register holds the pending bits of the others.
    pub closed spec fn wf(&self) -> bool {
        let text = self.received@;
        let data = data_symbols(text);
        let done = packed(head_indices(text), 13);
        &&& self.count == text.len()
        &&& well_formed(text)
        &&& self.marker == has_marker(text)
        &&& self.held == if data.len() == 0 {
            None::<char>
        } else {
            Some(data.last())
        }
        &&& self.nbits == done.len() % 8
        &&& (self.buff & low_mask(self.nbits)) as nat == value(
            done.subrange(done.len() - self.nbits, done.len() as int),
        )
    }

    /// A decoder that has been given nothing.
    pub fn new() -> (r: Self)
        ensures
            r.wf(),
            r@ == Seq::<char>::empty(),
    {
        let r = BaseHanDecoder {
            buff: 0,
            nbits: 0,
            held: None,
            marker: false,
            count: 0,
            received: Ghost(Seq::empty()),
        };
        assert(r.buff & low_mask(0) == 0) by (bit_vector);
        proof {
            assert(data_symbols(Seq::<char>::empty()) =~= Seq::<char>::empty());
        }
        r
    }

    /// Takes `symbols` and gives out the bytes that they settle. Where the
    /// text received so far, followed by `symbols`, is not well formed, it
    /// names its first refused position and takes nothing.
    pub fn update(&mut self, symbols: &[char]) -> (r: Result<Vec<u8>, BaseHanError>)
        requires
            old(self).wf(),
            old(self)@.len() + symbols@.len() <= usize::MAX,
        ensures
            r is Ok <==> well_formed(old(self)@ + symbols@),
            r matches Ok(v) ==> {
                &&& final(self).wf()
                &&& final(self)@ == old(self)@ + symbols@
                &&& settled_bytes(final(self)@) == settled_bytes(old(self)@) + v@
            },
            r matches Err(e) ==> {
                &&& *final(self) == *old(self)
                &&& e matches BaseHanError::InvalidCode(code, pos) && first_rejected(
                    old(self)@ + symbols@,
                    pos as int,
                ) && code == (old(self)@ + symbols@)[pos as int] as u32
            },
    {
        let ghost before = self.received@;
        let ghost text = before + symbols@;
        let n = symbols.len();
        // a marker that is followed by anything does not end the text
        if n > 0 && self.marker {
            proof {
                assert(accepted_at(before, before.len() - 1));
                assert forall|j: int| 0 <= j < before.len() - 1 implies #[trigger] accepted_at(
                    text,
                    j,
                ) by {
                    assert(accepted_at(before, j));
                }
                assert(!accepted_at(text, before.len() - 1));
            }
            return Err(BaseHanError::InvalidCode(MULTIBYTE_SIGN, self.count - 1));
        }
        proof {
            assert forall|j: int| 0 <= j < before.len() implies #[trigger] accepted_at(text, j) by {
                assert(accepted_at(before, j));
            }
        }
        for j in 0..n
            invariant
                n == symbols@.len(),
                self.wf(),
                self.received@ == before,
                text == before + symbols@,
                self.count == before.len(),
                before.len() + n <= usize::MAX,
                forall|i: int| 0 <= i < before.len() + j ==> accepted_at(text, i),
        {
            let code = symbols[j] as u32;
            let pos = self.count + j;
            if (code < BASE_OFFSET || code > BASE_OFFSET + CODE_RANGE) && !(code == MULTIBYTE_SIGN
                && j + 1 == n && pos > 0) {
                assert(!accepted_at(text, pos as int));
                return Err(BaseHanError::InvalidCode(code, pos));
            }
            assert(accepted_at(text, pos as int));
        }
        let mut result: Vec<u8> = Vec::new();
        assert(text.take(before.len() as int) =~= before);
        for j in 0..n
            invariant
                n == symbols@.len(),
                before.len() + n <= usize::MAX,
                well_formed(text),
                text == before + symbols@,
                self.wf(),
                self.received@ == text.take(before.len() + j),
                settled_bytes(self.received@) == settled_bytes(before) + result@,
        {
            let c = symbols[j];
            let ghost now = self.received@;
            let ghost next = text.take(before.len() + j + 1);
            proof {
                assert(next =~= now.push(c));
                assert(accepted_at(text, before.len() + j));
                assert forall|i: int| 0 <= i < next.len() implies #[trigger] accepted_at(
                    next,
                    i,
                ) by {
                    assert(accepted_at(text, i));
                    assert(next[i] == text[i]);
                }
                assert(!has_marker(now)) by {
                    if has_marker(now) {
                        assert(accepted_at(text, now.len() - 1));
                    }
                }
                assert(data_symbols(now) == now);
            }
            if c as u32 == MULTIBYTE_SIGN {
                self.marker = true;
                proof {
                    assert(data_symbols(next) =~= now);
                }
            } else {
                proof {
                    assert(in_window(c));
                    assert(data_symbols(next) =~= now.push(c));
                }
                match self.held {
                    Some(x) => {
                        let ghost done = packed(head_indices(now), 13);
                        proof {
                            assert(in_window(x)) by {
                                assert(accepted_at(text, now.len() - 1));
                            }
                            assert(head_indices(next) =~= head_indices(now).push(index_of(x)));
                            assert(head_indices(next).drop_last() =~= head_indices(now));
                        }
                        let mut bytes = absorb(
                            &mut self.buff,
                            &mut self.nbits,
                            x as u32 - BASE_OFFSET,
                            Ghost(done),
                        );
                        result.append(&mut bytes);
                        proof {
                            assert(packed(head_indices(next), 13) == done + to_bits(
                                index_of(x),
                                13,
                            ));
                        }
                    },
                    None => {
                        proof {
                            assert(now.len() == 0);
                            assert(head_indices(next) =~= head_indices(now));
                        }
                    },
                }
                self.held = Some(c);
            }
            self.count = self.count + 1;
            self.received = Ghost(next);
        }
        proof {
            assert(text.take(before.len() + n) =~= text);
        }
        Ok(result)
    }

    /// Gives out the bytes of the held symbol: the bits that complete one
    /// byte, or two where the text ends with the tail marker.
    pub fn finish(self) -> (r: Vec<u8>)
        requires
            self.wf(),
        ensures
            settled_bytes(self@) + r@ == decoded(self@),
    {
        let ghost text = self.received@;
        let mut result: Vec<u8> = Vec::new();
        match self.held {
            None => {
                proof {
                    if text.len() > 0 {
                        assert(accepted_at(text, text.len() - 1));
                    }
                    assert(text.len() == 0);
                    assert(head_indices(text) =~= Seq::<nat>::empty());
                    assert(settled_bytes(text) =~= Seq::<u8>::empty());
                }
            },
            Some(x) => {
                let ghost data = data_symbols(text);
                let ghost ix = data.map_values(|c: char| index_of(c));
                let ghost done = packed(head_indices(text), 13);
                let ghost t = tail_width((ix.len() - 1) as nat, self.marker);
                let ghost bits = symbol_bits(data, self.marker);
                let ghost e = (done.len() / 8) as int;
                proof {
                    lemma2_to64();
                    lemma_packed_len(head_indices(text), 13);
                    assert(in_window(x)) by {
                        if self.marker {
                            assert(accepted_at(text, text.len() - 2));
                        } else {
                            assert(accepted_at(text, text.len() - 1));
                        }
                    }
                    assert(bits == done + to_bits(ix.last(), t));
                    lemma_to_bits_len(ix.last(), t);
                    lemma_bytes_of_bits_prefix(done, to_bits(ix.last(), t));
                }
                let buff = self.buff;
                let bit_pointer = self.nbits;
                let tail_bits = (8 * if self.marker {
                    2
                } else {
                    1
                }) - bit_pointer;
                let index = x as u32 - BASE_OFFSET;
                let ghost pending = bits.subrange(8 * e, bits.len() as int);
                proof {
                    assert(tail_bits == t);
                    assert(0xFFFFFFFFu32 >> (32 - tail_bits) as u32 == low_mask(tail_bits))
                        by (bit_vector)
                        requires
                            1 <= tail_bits <= 16,
                    ;
                    lemma_mask_is_mod(index, tail_bits);
                    lemma_to_bits_low(index as nat, tail_bits as nat);
                    assert(ix.last() == index);
                    let v = index & low_mask(tail_bits);
                    assert(v & low_mask(tail_bits) == v) by (bit_vector)
                        requires
                            v == index & low_mask(tail_bits),
                    ;
                    lemma_register_push(
                        buff,
                        bit_pointer,
                        v,
                        tail_bits,
                        done.subrange(8 * e, done.len() as int),
                    );
                    assert(done.subrange(8 * e, done.len() as int) + to_bits(
                        v as nat,
                        tail_bits as nat,
                    ) =~= pending);
                    assert(low_mask(8) == 0xFF) by (bit_vector);
                }
                let buff = (buff << tail_bits) | (index & (0xFFFFFFFF >> (32 - tail_bits)));
                if self.marker {
                    proof {
                        lemma_register_take(buff, 16, 8, pending);
                        assert(pending.subrange(0, 8) =~= bits.subrange(8 * e, 8 * e + 8));
                        lemma_value_bound(bits.subrange(8 * e, 8 * e + 8));
                    }
                    let byte = (buff >> 8) & 0xFF;
                    result.push(byte as u8);
                    proof {
                        assert(pending.subrange(8, 16) =~= bits.subrange(8 * e + 8, 8 * e + 16));
                        lemma_value_bound(bits.subrange(8 * e + 8, 8 * e + 16));
                    }
                } else {
                    proof {
                        lemma_value_bound(pending);
                    }
                }
                let byte = buff & 0xFF;
                result.push(byte as u8);
                assert(settled_bytes(text) + result@ =~= bytes_of_bits(bits));
            },
        }
        result
    }
}

} // verus!
