//! A 7-bits-per-byte packing for ASCII text.
//!
//! ASCII never uses the top bit of a byte, so eight ASCII bytes fit in
//! seven packed bytes: each packed byte carries the low bits of the current
//! byte shifted up, with the leading bits of the following byte filling the
//! space freed.  The packing is experimental and feeds no other component.

use vstd::prelude::*;
use vstd::string::StrSliceExecFns;
use vstd::string::StringSliceAdditionalSpecFns;

use crate::byte_is_ascii;
use crate::bytes_are_ascii;

verus! {

/// The packed byte at round `it`: the low `8 - it` bits of `c` shifted up
/// by `it`, joined with the top `it + 1` bits of the following byte `f`.
pub open spec fn compress_byte(c: u8, f: u8, it: u8) -> u8
    recommends
        1 <= it <= 7,
{
    (c << it) | (f >> ((7 - it) as u8))
}

/// The unpacked byte at round `it`: the low `it - 1` bits of the previous
/// packed byte shifted to the top, joined with `c` shifted down by `it`.
pub open spec fn decompress_byte(p: u8, c: u8, it: u8) -> u8
    recommends
        1 <= it <= 7,
{
    ((p ^ ((p >> ((it - 1) as u8)) << ((it - 1) as u8))) << ((8 - it) as u8)) | (c >> it)
}

/// The low seven bits of a packed byte: the eighth ASCII byte that rides
/// along in the seventh packed byte.
pub open spec fn extra_byte(c: u8) -> u8 {
    ((c >> 7) << 7) ^ c
}

/// The error text for packing a byte that is not ASCII.
pub open spec fn non_ascii_err() -> Seq<u8> {
    "The current and followup bytes must be ascii.".spec_bytes()
}

/// Pack one byte.
///
/// `iteration` counts the position within the current group of eight, from
/// one; it says how many bits of `current` already travelled in earlier
/// packed bytes.  Bytes that are not ASCII are refused before any packing.
pub fn compress(current: u8, followup: u8, iteration: u8) -> (r: Result<u8, Vec<u8>>)
    requires
        byte_is_ascii(current) && byte_is_ascii(followup) ==> 1 <= iteration <= 7,
    ensures
        match r {
            Ok(b) => byte_is_ascii(current) && byte_is_ascii(followup) && b == compress_byte(
                current,
                followup,
                iteration,
            ),
            Err(e) => (!byte_is_ascii(current) || !byte_is_ascii(followup)) && e@
                == non_ascii_err(),
        },
{
    if current >= 128 || followup >= 128 {
        return Err("The current and followup bytes must be ascii.".as_bytes_vec());
    }
    let curr_bits = 8 - iteration;
    let prev_bits = iteration;
    let bits_in_last = (current >> curr_bits) << curr_bits;
    let cleared_from_last = current ^ bits_in_last;
    let moved_current = cleared_from_last << prev_bits;
    let included_next_bits = followup >> (curr_bits - 1);
    proof {
        assert(((current ^ ((current >> ((8 - iteration) as u8)) << ((8 - iteration) as u8)))
            << iteration) | (followup >> ((8 - iteration - 1) as u8)) == (current << iteration) | (
        followup >> ((7 - iteration) as u8))) by (bit_vector)
            requires
                1 <= iteration && iteration <= 7,
        ;
    }
    Ok(moved_current | included_next_bits)
}

/// Unpack one byte; this reverts `compress`.
///
/// `previous` is the preceding packed byte (zero at the start) and
/// `iteration` says how many of the wanted bits sit in it.
pub fn decompress(previous: u8, current: u8, iteration: u8) -> (r: u8)
    requires
        1 <= iteration <= 7,
    ensures
        r == decompress_byte(previous, current, iteration),
{
    let prev_bits = iteration - 1;
    let bits_to_ignore_in_last = (previous >> prev_bits) << prev_bits;
    let bits_in_last = previous ^ bits_to_ignore_in_last;
    let bits_from_last = bits_in_last << (8 - iteration);
    let current_bits = current >> iteration;
    bits_from_last | current_bits
}

/// The byte after position `i`, or zero at the end of the input.
pub open spec fn next_byte(s: Seq<u8>, i: int) -> u8 {
    if i + 1 < s.len() {
        s[i + 1]
    } else {
        0
    }
}

/// The packed bytes of the input from position `i` on, at round `bit`.
/// Every eighth byte is skipped: it travelled in the seven before it.
pub open spec fn comp_from(s: Seq<u8>, i: int, bit: u8) -> Seq<u8>
    recommends
        1 <= bit <= 8,
    decreases s.len() - i,
{
    if i < 0 || i >= s.len() {
        Seq::empty()
    } else if bit == 8 {
        comp_from(s, i + 1, 1)
    } else {
        seq![compress_byte(s[i], next_byte(s, i), bit)] + comp_from(s, i + 1, (bit + 1) as u8)
    }
}

/// Pack a slice of ASCII bytes.
#[verifier::loop_isolation(false)]
pub fn compress_slice(slice: &[u8]) -> (r: Result<Vec<u8>, Vec<u8>>)
    ensures
        match r {
            Ok(o) => bytes_are_ascii(slice@) && o@ == comp_from(slice@, 0, 1),
            Err(e) => !bytes_are_ascii(slice@) && e@ == non_ascii_err(),
        },
{
    let mut compressed: Vec<u8> = Vec::new();
    let mut current_bit: u8 = 1;
    let mut i: usize = 0;
    proof {
        assert(compressed@ + comp_from(slice@, 0, 1) =~= comp_from(slice@, 0, 1));
    }
    while i < slice.len()
        invariant
            0 <= i <= slice@.len(),
            1 <= current_bit <= 8,
            forall|j: int| 0 <= j < i ==> byte_is_ascii(#[trigger] slice@[j]),
            current_bit == 8 && i < slice@.len() ==> byte_is_ascii(slice@[i as int]),
            compressed@ + comp_from(slice@, i as int, current_bit) == comp_from(slice@, 0, 1),
        decreases slice@.len() - i,
    {
        let mut next_bit: u8 = 0;
        if i != slice.len() - 1 {
            next_bit = slice[i + 1];
        }
        if current_bit == 8 {
            current_bit = 1;
            i += 1;
            continue;
        }
        let ghost pre = compressed@;
        match compress(slice[i], next_bit, current_bit) {
            Ok(b) => {
                compressed.push(b);
            },
            Err(e) => {
                proof {
                    if !byte_is_ascii(slice@[i as int]) {
                        assert(!bytes_are_ascii(slice@));
                    } else {
                        assert(i + 1 < slice@.len() && !byte_is_ascii(slice@[i as int + 1]));
                        assert(!bytes_are_ascii(slice@));
                    }
                }
                return Err(e);
            },
        }
        proof {
            assert(comp_from(slice@, i as int, current_bit) == seq![
                compress_byte(slice@[i as int], next_byte(slice@, i as int), current_bit),
            ] + comp_from(slice@, i as int + 1, (current_bit + 1) as u8));
            assert(compressed@ + comp_from(slice@, i as int + 1, (current_bit + 1) as u8) =~= pre
                + comp_from(slice@, i as int, current_bit));
        }
        current_bit += 1;
        i += 1;
    }
    proof {
        assert(comp_from(slice@, i as int, current_bit) =~= Seq::<u8>::empty());
        assert(compressed@ + comp_from(slice@, i as int, current_bit) =~= compressed@);
    }
    Ok(compressed)
}

/// The byte before position `i`, or zero at the start of the input.
pub open spec fn prev_byte(s: Seq<u8>, i: int) -> u8 {
    if i > 0 {
        s[i - 1]
    } else {
        0
    }
}

/// The unpacked bytes of the input from position `i` on, at round `bit`
/// (a round of eight wraps to one).  The seventh round of each group also
/// yields the byte that rode along in the packed byte's low bits.
pub open spec fn decomp_from(s: Seq<u8>, i: int, bit: u8) -> Seq<u8>
    recommends
        1 <= bit <= 8,
    decreases s.len() - i,
{
    if i < 0 || i >= s.len() {
        Seq::empty()
    } else {
        let b = if bit == 8 {
            1u8
        } else {
            bit
        };
        seq![decompress_byte(prev_byte(s, i), s[i], b)] + (if b == 7 {
            seq![extra_byte(s[i])]
        } else {
            Seq::empty()
        }) + decomp_from(s, i + 1, (b + 1) as u8)
    }
}

/// Unpack a slice of packed bytes; this reverts `compress_slice`.
#[verifier::loop_isolation(false)]
pub fn decompress_slice(slice: &[u8]) -> (r: Vec<u8>)
    ensures
        r@ == decomp_from(slice@, 0, 1),
{
    let mut decompressed: Vec<u8> = Vec::new();
    let mut current_bit: u8 = 1;
    let mut i: usize = 0;
    proof {
        assert(decompressed@ + decomp_from(slice@, 0, 1) =~= decomp_from(slice@, 0, 1));
    }
    while i < slice.len()
        invariant
            0 <= i <= slice@.len(),
            1 <= current_bit <= 8,
            decompressed@ + decomp_from(slice@, i as int, current_bit) == decomp_from(
                slice@,
                0,
                1,
            ),
        decreases slice@.len() - i,
    {
        let comp = slice[i];
        let mut prev_bit: u8 = 0;
        if i != 0 {
            prev_bit = slice[i - 1];
        }
        if current_bit == 8 {
            current_bit = 1;
        }
        let ghost pre = decompressed@;
        let ghost bit0 = current_bit;
        let d = decompress(prev_bit, comp, current_bit);
        decompressed.push(d);
        if current_bit == 7 {
            let first_bit = (comp >> 7) << 7;
            decompressed.push(first_bit ^ comp);
        }
        proof {
            assert(decompressed@ + decomp_from(slice@, i as int + 1, (bit0 + 1) as u8) =~= pre
                + decomp_from(slice@, i as int, bit0));
        }
        current_bit += 1;
        i += 1;
    }
    proof {
        assert(decomp_from(slice@, i as int, current_bit) =~= Seq::<u8>::empty());
        assert(decompressed@ + decomp_from(slice@, i as int, current_bit) =~= decompressed@);
    }
    decompressed
}

} // verus!
