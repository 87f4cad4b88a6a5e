//! What holds of the codec as a whole, stated over the functions that the
//! contracts of `encode` and `decode` use.
use vstd::prelude::*;

verus! {

use crate::bits::{
    to_bits, packed, group_values, lemma_value_bound, lemma_value_to_bits,
    lemma_to_bits_value, lemma_packed_len, lemma_packed_chunk, lemma_packed_groups,
};
use crate::basehan::{
    BASE_OFFSET, MULTIBYTE_SIGN, symbol_of, sentinel, byte_bits, encoded_indices, encoded,
    in_window, is_marker, accepted_at, well_formed, first_rejected, has_marker, data_symbols,
    index_of, tail_width, symbol_bits, bytes_of_bits, decoded, lemma_scalar_of_symbol,
};
use vstd::arithmetic::power2::{lemma2_to64, lemma_pow2_strictly_increases};

/// Every index of an encoding fits in thirteen bits.
proof fn lemma_indices_bound(b: Seq<u8>)
    ensures
        forall|i: int|
            0 <= i < encoded_indices(b).len() ==> #[trigger] encoded_indices(b)[i] < 8192,
        encoded_indices(b).len() == (8 * b.len()) / 13 + if (8 * b.len()) % 13 == 0 {
            0int
        } else {
            1int
        },
{
    let bits = byte_bits(b);
    let n = 8 * b.len() as int;
    lemma_packed_len(b.map_values(|x: u8| x as nat), 8);
    lemma2_to64();
    assert forall|i: int| 0 <= i < encoded_indices(b).len() implies #[trigger] encoded_indices(
        b,
    )[i] < 8192 by {
        if i < n / 13 {
            lemma_value_bound(bits.subrange(13 * i, 13 * i + 13));
        } else {
            lemma_value_bound(bits.subrange(13 * (n / 13), n));
            lemma_pow2_strictly_increases((n % 13) as nat, 13);
        }
    }
}

/// The symbols of an encoding lie in the window, and the tail marker, which
/// does not, stands only at the end: after a symbol, and exactly where nine
/// to twelve bits were left over for the last symbol.
pub proof fn lemma_encoded_shape(b: Seq<u8>)
    ensures
        forall|i: int|
            0 <= i < encoded(b).len() && !is_marker(#[trigger] encoded(b)[i]) ==> in_window(
                encoded(b)[i],
            ),
        forall|i: int|
            0 <= i < encoded(b).len() && is_marker(#[trigger] encoded(b)[i]) ==> i == encoded(
                b,
            ).len() - 1 && i > 0,
        has_marker(encoded(b)) <==> 9 <= (8 * b.len()) % 13 <= 12,
        well_formed(encoded(b)),
{
    let e = encoded(b);
    let ix = encoded_indices(b);
    let syms = ix.map_values(|i: nat| symbol_of(i));
    lemma_indices_bound(b);
    assert forall|i: int| 0 <= i < syms.len() implies in_window(#[trigger] syms[i]) && !is_marker(
        syms[i],
    ) by {
        lemma_scalar_of_symbol(syms[i], (BASE_OFFSET + ix[i]) as u32);
    }
    lemma_scalar_of_symbol(sentinel(), MULTIBYTE_SIGN);
    assert forall|i: int| 0 <= i < e.len() implies #[trigger] accepted_at(e, i) by {
        if i < syms.len() {
            assert(e[i] == syms[i]);
        }
    }
}

/// Encoding and then decoding gives the bytes back, for the empty string and
/// for every string whose bit length is no multiple of thirteen. (Where it
/// is, the last symbol holds thirteen bits and no marker follows, while the
/// decoder reads only what completes one byte from it, so one byte is lost.)
pub proof fn lemma_round_trip(b: Seq<u8>)
    requires
        b.len() == 0 || (8 * b.len()) % 13 != 0,
    ensures
        well_formed(encoded(b)),
        decoded(encoded(b)) == b,
{
    lemma_encoded_shape(b);
    let e = encoded(b);
    if b.len() == 0 {
        assert(encoded_indices(b) =~= Seq::<nat>::empty());
        assert(e =~= Seq::<char>::empty());
        assert(decoded(e) =~= b);
    } else {
        let vals = b.map_values(|x: u8| x as nat);
        let bits = byte_bits(b);
        let n = 8 * b.len() as int;
        let q = n / 13;
        let r = n % 13;
        let marker = r >= 9;
        let ix = encoded_indices(b);
        let syms = ix.map_values(|i: nat| symbol_of(i));
        lemma_indices_bound(b);
        lemma_packed_len(vals, 8);
        lemma2_to64();
        // the data symbols are the symbols of the indices, which read back
        assert(data_symbols(e) =~= syms) by {
            lemma_scalar_of_symbol(sentinel(), MULTIBYTE_SIGN);
            if !marker {
                if e.len() > 0 {
                    lemma_scalar_of_symbol(e.last(), (BASE_OFFSET + ix.last()) as u32);
                }
            }
        }
        assert(syms.map_values(|c: char| index_of(c)) =~= ix) by {
            assert forall|i: int| 0 <= i < ix.len() implies index_of(#[trigger] syms[i])
                == ix[i] by {
                lemma_scalar_of_symbol(syms[i], (BASE_OFFSET + ix[i]) as u32);
            }
        }
        // the head packs back to the whole groups, the tail to the rest
        assert(ix.drop_last() =~= group_values(bits, 13, q as nat));
        lemma_packed_groups(bits, 13, q as nat);
        assert(tail_width(q as nat, marker) == r) by {
            assert(13 * q + r == n);
        }
        let rest = bits.subrange(13 * q, n);
        lemma_to_bits_value(rest);
        let sb = symbol_bits(data_symbols(e), has_marker(e));
        assert(sb =~= bits) by {
            assert(sb == packed(ix.drop_last(), 13) + to_bits(ix.last(), r as nat));
        }
        // and the bits of the bytes are the bytes
        assert forall|j: int| 0 <= j < b.len() implies #[trigger] bytes_of_bits(bits)[j]
            == b[j] by {
            lemma_packed_chunk(vals, 8, j);
            lemma_value_to_bits(b[j] as nat, 8);
        }
        assert(decoded(e) =~= b);
    }
}

/// The first refused position of a text is unique, so a failing decode
/// always names the same position and code point.
pub proof fn lemma_first_rejected_unique(s: Seq<char>, p: int, q: int)
    requires
        first_rejected(s, p),
        first_rejected(s, q),
    ensures
        p == q,
{
}

/// A code point outside the window that is not a tail marker ending the
/// text makes decoding fail, at that position or an earlier one.
pub proof fn lemma_outside_window_rejected(s: Seq<char>, i: int)
    requires
        0 <= i < s.len(),
        !in_window(s[i]),
        !(is_marker(s[i]) && i == s.len() - 1 && i > 0),
    ensures
        !well_formed(s),
        exists|p: int| p <= i && first_rejected(s, p),
    decreases i,
{
    assert(!accepted_at(s, i));
    if forall|j: int| 0 <= j < i ==> accepted_at(s, j) {
        assert(first_rejected(s, i));
    } else {
        let j = choose|j: int| 0 <= j < i && !accepted_at(s, j);
        lemma_outside_window_rejected(s, j);
    }
}

} // verus!
