//! APER codec primitives: a bit cursor over an octet buffer.
//!
//! The cursor holds the buffer as a sequence of bits together with the
//! current decode position. Every primitive either completes within the
//! remaining bits or fails without touching anything but the position.

use vstd::prelude::*;
use vstd::arithmetic::power2::pow2;

verus! {

/// Why a decode or encode operation failed.
#[derive(Debug, Clone, Copy, PartialEq, Eq, Structural)]
pub enum CodecError {
    /// The cursor has fewer bits left than the field needs.
    BufferTooShort,
    /// A decoded raw pattern maps outside the declared bounds.
    ValueOutOfRange,
    /// A decoded CHOICE discriminant matches no declared variant; it is
    /// carried for the report.
    InvalidChoiceIndex(i64),
    /// The stream uses an extension addition this codec does not support.
    UnsupportedExtension,
    /// The value handed to an encoder lies outside the declared constraint.
    ValueOutsideConstraint,
}

impl CodecError {
    /// A human-readable description of the failure.
    pub fn describe(&self) -> (r: String)
        ensures
            self is BufferTooShort ==> r@ == "insufficient bits remain in the buffer"@,
            self is ValueOutOfRange ==> r@ == "decoded value lies outside the declared bounds"@,
            self is InvalidChoiceIndex ==> r@ == "decoded index is not a valid Choice Index"@,
            self is UnsupportedExtension ==> r@ == "CHOICE Additions not supported yet."@,
            self is ValueOutsideConstraint ==> r@
                == "value to encode lies outside the declared constraint"@,
    {
        match self {
            CodecError::BufferTooShort => "insufficient bits remain in the buffer".to_owned(),
            CodecError::ValueOutOfRange => "decoded value lies outside the declared bounds".to_owned(
            ),
            CodecError::InvalidChoiceIndex(_) => "decoded index is not a valid Choice Index".to_owned(
            ),
            CodecError::UnsupportedExtension => "CHOICE Additions not supported yet.".to_owned(),
            CodecError::ValueOutsideConstraint => "value to encode lies outside the declared constraint".to_owned(
            ),
        }
    }
}

/// The value of a bit sequence read as an unsigned number, most
/// significant bit first.
pub open spec fn bits_val(s: Seq<bool>) -> nat
    decreases s.len(),
{
    if s.len() == 0 {
        0
    } else {
        2 * bits_val(s.drop_last()) + (if s.last() {
            1nat
        } else {
            0nat
        })
    }
}

/// The `n`-bit pattern of `v`, most significant bit first.
pub open spec fn num_bits(n: nat, v: nat) -> Seq<bool> {
    Seq::new(n, |i: int| v / pow2((n - 1 - i) as nat) % 2 == 1)
}

/// A run of `n` clear bits (octet-alignment padding).
pub open spec fn falses(n: nat) -> Seq<bool> {
    Seq::new(n, |i: int| false)
}

/// How many pad bits bring position `pos` to the next octet boundary.
pub open spec fn pad_len(pos: nat) -> nat {
    ((8 - pos % 8) % 8) as nat
}

/// Bit `k` of an octet, most significant bit first.
pub open spec fn bit_of_byte(b: u8, k: int) -> bool {
    (b >> ((7 - k) as u8)) & 1 == 1
}

/// An octet buffer as the sequence of its bits, each octet read most
/// significant bit first.
pub open spec fn bytes_to_bits(s: Seq<u8>) -> Seq<bool> {
    Seq::new(s.len() * 8, |i: int| bit_of_byte(s[i / 8], i % 8))
}

pub proof fn lemma_bits_val_bound(s: Seq<bool>)
    ensures
        bits_val(s) < pow2(s.len()),
    decreases s.len(),
{
    if s.len() == 0 {
        assert(pow2(0) == 1) by {
            vstd::arithmetic::power2::lemma2_to64();
        }
    } else {
        vstd::arithmetic::power2::lemma_pow2_unfold(s.len());
        lemma_bits_val_bound(s.drop_last());
    }
}

/// Reading back the `n`-bit pattern of `v` yields `v` again: the core of
/// every round-trip argument in this codec.
pub proof fn lemma_num_bits_val(n: nat, v: nat)
    requires
        v < pow2(n),
    ensures
        bits_val(num_bits(n, v)) == v,
    decreases n,
{
    if n == 0 {
        assert(pow2(0) == 1) by {
            vstd::arithmetic::power2::lemma2_to64();
        }
        assert(num_bits(0, v) =~= Seq::<bool>::empty());
    } else {
        vstd::arithmetic::power2::lemma_pow2_unfold(n);
        assert(v / 2 < pow2((n - 1) as nat)) by {
            vstd::arithmetic::power2::lemma_pow2_pos((n - 1) as nat);
        }
        lemma_num_bits_val((n - 1) as nat, v / 2);
        assert(num_bits(n, v).drop_last() =~= num_bits((n - 1) as nat, v / 2)) by {
            assert forall|i: int| 0 <= i < n - 1 implies num_bits(n, v)[i] == num_bits(
                (n - 1) as nat,
                v / 2,
            )[i] by {
                let e = (n - 2 - i) as nat;
                vstd::arithmetic::power2::lemma_pow2_adds(e, 1);
                assert(pow2(1) == 2) by {
                    vstd::arithmetic::power2::lemma2_to64();
                }
                vstd::arithmetic::power2::lemma_pow2_pos(e);
                vstd::arithmetic::div_mod::lemma_div_denominator(v as int, 2, pow2(e) as int);
                assert(v / 2 / pow2(e) == v / (2 * pow2(e)));
            }
        }
        assert(num_bits(n, v).last() == (v % 2 == 1)) by {
            assert(pow2(0) == 1) by {
                vstd::arithmetic::power2::lemma2_to64();
            }
            assert(v / 1 == v) by {
                vstd::arithmetic::div_mod::lemma_div_basics(v as int);
            }
        }
        assert(bits_val(num_bits(n, v)) == 2 * (v / 2) + v % 2);
        assert(2 * (v / 2) + v % 2 == v) by {
            vstd::arithmetic::div_mod::lemma_fundamental_div_mod(v as int, 2);
        }
    }
}

pub proof fn lemma_bits_val_push(s: Seq<bool>, b: bool)
    ensures
        bits_val(s.push(b)) == 2 * bits_val(s) + (if b {
            1nat
        } else {
            0nat
        }),
{
    assert(s.push(b).drop_last() =~= s);
    assert(s.push(b).last() == b);
}

/// How many bits the binary representation of `d` takes (zero for zero).
pub open spec fn bits_needed(d: nat) -> nat
    decreases d,
{
    if d == 0 {
        0
    } else {
        1 + bits_needed(d / 2)
    }
}

pub proof fn lemma_bits_needed_bound(d: nat)
    ensures
        d < pow2(bits_needed(d)),
    decreases d,
{
    if d == 0 {
        assert(pow2(0) == 1) by {
            vstd::arithmetic::power2::lemma2_to64();
        }
    } else {
        lemma_bits_needed_bound(d / 2);
        vstd::arithmetic::power2::lemma_pow2_unfold(bits_needed(d));
    }
}

pub proof fn lemma_bits_needed_le(d: nat, n: nat)
    requires
        d < pow2(n),
    ensures
        bits_needed(d) <= n,
    decreases d,
{
    if d > 0 {
        if n == 0 {
            assert(pow2(0) == 1) by {
                vstd::arithmetic::power2::lemma2_to64();
            }
        } else {
            vstd::arithmetic::power2::lemma_pow2_unfold(n);
            lemma_bits_needed_le(d / 2, (n - 1) as nat);
        }
    }
}

/// The field width, in bits, of a constrained whole number whose range has
/// `d + 1` values. Small ranges use the minimum width inline; larger ranges
/// use an octet-aligned width of one, two, four or eight octets.
pub open spec fn cwn_width(d: nat) -> nat {
    if d <= 254 {
        bits_needed(d)
    } else if d <= 0xFF {
        8
    } else if d <= 0xFFFF {
        16
    } else if d <= 0xFFFF_FFFF {
        32
    } else {
        64
    }
}

/// Whether the field of a constrained whole number with difference `d` is
/// octet-aligned (ranges past the small-range threshold are).
pub open spec fn cwn_aligned(d: nat) -> bool {
    d > 254
}

/// Pad bits in front of a constrained whole number field written at
/// position `pos`.
pub open spec fn cwn_pad(d: nat, pos: nat) -> nat {
    if cwn_aligned(d) {
        pad_len(pos)
    } else {
        0
    }
}

/// The exact bit pattern a constrained whole number `v` in `[lb, ub]` takes
/// when written at bit position `pos`: alignment padding, then the value
/// minus the lower bound in the table-given width.
pub open spec fn cwn_bits(lb: int, ub: int, v: int, pos: nat) -> Seq<bool> {
    let d = (ub - lb) as nat;
    falses(cwn_pad(d, pos)) + num_bits(cwn_width(d), (v - lb) as nat)
}

/// Computes `2^e` for exponents that fit a `u64`.
pub fn pow2_u64(e: usize) -> (r: u64)
    requires
        e <= 63,
    ensures
        r == pow2(e as nat),
{
    proof {
        vstd::arithmetic::power2::lemma2_to64();
        vstd::arithmetic::power2::lemma2_to64_rest();
    }
    let mut r: u64 = 1;
    let mut i: usize = 0;
    while i < e
        invariant
            i <= e <= 63,
            r == pow2(i as nat),
            pow2(63) == 0x8000_0000_0000_0000,
        decreases e - i,
    {
        proof {
            if i < 63 {
                vstd::arithmetic::power2::lemma_pow2_strictly_increases(i as nat, 63);
            }
            vstd::arithmetic::power2::lemma_pow2_unfold((i + 1) as nat);
        }
        r = r * 2;
        i = i + 1;
    }
    r
}

/// Computes the bit width of `d`: the smallest `w` with `d < 2^w`.
pub fn bits_needed_u64(d: u64) -> (w: usize)
    ensures
        w == bits_needed(d as nat),
        w <= 64,
{
    proof {
        vstd::arithmetic::power2::lemma2_to64();
        vstd::arithmetic::power2::lemma2_to64_rest();
        assert(pow2(64) == 0x1_0000_0000_0000_0000);
        lemma_bits_needed_le(d as nat, 64);
    }
    let mut w: usize = 0;
    let mut x: u64 = d;
    while x > 0
        invariant
            bits_needed(x as nat) + w == bits_needed(d as nat),
            w <= bits_needed(d as nat) <= 64,
        decreases x,
    {
        x = x / 2;
        w = w + 1;
    }
    w
}

/// What decoding a constrained whole number in `[lb, ub]` from `bits` at
/// position `off` returns: too few bits fail, a raw pattern past the range
/// is rejected, anything else is the raw pattern plus the lower bound.
pub open spec fn cwn_decode_result(bits: Seq<bool>, off: nat, lb: int, ub: int) -> Result<
    i64,
    CodecError,
> {
    let d = (ub - lb) as nat;
    let pad = cwn_pad(d, off);
    let w = cwn_width(d);
    if off + pad + w > bits.len() {
        Err(CodecError::BufferTooShort)
    } else {
        let raw = bits_val(bits.subrange((off + pad) as int, (off + pad + w) as int));
        if raw > d {
            Err(CodecError::ValueOutOfRange)
        } else {
            Ok((lb + raw) as i64)
        }
    }
}

/// Where the cursor stands after decoding a constrained whole number that
/// started at `off`.
pub open spec fn cwn_decode_end(bits: Seq<bool>, off: nat, lb: int, ub: int) -> nat {
    let d = (ub - lb) as nat;
    let pad = cwn_pad(d, off);
    let w = cwn_width(d);
    if off + pad + w > bits.len() {
        off
    } else {
        off + pad + w
    }
}

/// The exact bit pattern of a CHOICE index: when the type is extensible,
/// one clear extension bit comes first (this codec only encodes values in
/// the extension root).
pub open spec fn choice_idx_bits(lb: int, ub: int, idx: int, ext: bool, pos: nat) -> Seq<bool> {
    if ext {
        seq![false] + cwn_bits(lb, ub, idx, pos + 1)
    } else {
        cwn_bits(lb, ub, idx, pos)
    }
}

/// What decoding a CHOICE index returns: with `ext` set, a set extension
/// bit reports the extension space without reading further; otherwise the
/// index is a constrained whole number in `[lb, ub]`.
pub open spec fn choice_idx_decode_result(
    bits: Seq<bool>,
    off: nat,
    lb: int,
    ub: int,
    ext: bool,
) -> Result<(i64, bool), CodecError> {
    if ext {
        if off >= bits.len() {
            Err(CodecError::BufferTooShort)
        } else if bits[off as int] {
            Ok((0, true))
        } else {
            match cwn_decode_result(bits, off + 1, lb, ub) {
                Ok(v) => Ok((v, false)),
                Err(e) => Err(e),
            }
        }
    } else {
        match cwn_decode_result(bits, off, lb, ub) {
            Ok(v) => Ok((v, false)),
            Err(e) => Err(e),
        }
    }
}

/// Where the cursor stands after decoding a CHOICE index that started at
/// `off`.
pub open spec fn choice_idx_decode_end(
    bits: Seq<bool>,
    off: nat,
    lb: int,
    ub: int,
    ext: bool,
) -> nat {
    if ext {
        if off >= bits.len() {
            off
        } else if bits[off as int] {
            off + 1
        } else {
            cwn_decode_end(bits, off + 1, lb, ub)
        }
    } else {
        cwn_decode_end(bits, off, lb, ub)
    }
}

/// Pad bits in front of a bit string payload of `n` bits at position
/// `pos`: payloads past the small inline threshold are octet-aligned.
pub open spec fn bitstring_payload_pad(n: nat, pos: nat) -> nat {
    if n > 16 {
        pad_len(pos)
    } else {
        0
    }
}

/// The exact bit pattern of a size-constrained bit string without its
/// extension bit: a fixed size writes the payload alone (aligned past the
/// inline threshold); a variable size writes a length determinant, then the
/// octet-aligned payload.
pub open spec fn bitstring_bits_root(lb: int, ub: int, v: Seq<bool>, pos: nat) -> Seq<bool> {
    if lb == ub {
        falses(bitstring_payload_pad(lb as nat, pos)) + v
    } else {
        let len_bits = cwn_bits(lb, ub, v.len() as int, pos);
        len_bits + falses(pad_len(pos + len_bits.len())) + v
    }
}

/// The exact bit pattern of a size-constrained bit string: when the size is
/// extensible, one clear extension bit comes first (this codec only encodes
/// sizes in the extension root).
pub open spec fn bitstring_bits(lb: int, ub: int, ext: bool, v: Seq<bool>, pos: nat) -> Seq<
    bool,
> {
    if ext {
        seq![false] + bitstring_bits_root(lb, ub, v, pos + 1)
    } else {
        bitstring_bits_root(lb, ub, v, pos)
    }
}

/// What decoding a size-constrained bit string without its extension bit
/// returns: the payload bits and the cursor position after them.
pub open spec fn bitstring_decode_root(bits: Seq<bool>, off: nat, lb: int, ub: int) -> Result<
    (Seq<bool>, nat),
    CodecError,
> {
    if lb == ub {
        let n = lb as nat;
        let pad = bitstring_payload_pad(n, off);
        if off + pad + n > bits.len() {
            Err(CodecError::BufferTooShort)
        } else {
            Ok((bits.subrange((off + pad) as int, (off + pad + n) as int), off + pad + n))
        }
    } else {
        match cwn_decode_result(bits, off, lb, ub) {
            Err(e) => Err(e),
            Ok(l) => {
                let e1 = cwn_decode_end(bits, off, lb, ub);
                let pad = pad_len(e1);
                if e1 + pad + l > bits.len() {
                    Err(CodecError::BufferTooShort)
                } else {
                    Ok(
                        (
                            bits.subrange((e1 + pad) as int, (e1 + pad + l) as int),
                            (e1 + pad + l) as nat,
                        ),
                    )
                }
            },
        }
    }
}

/// What decoding a size-constrained bit string returns: with `ext` set, a
/// set extension bit means a size outside the extension root, which this
/// codec does not support.
pub open spec fn bitstring_decode_result(
    bits: Seq<bool>,
    off: nat,
    lb: int,
    ub: int,
    ext: bool,
) -> Result<(Seq<bool>, nat), CodecError> {
    if ext {
        if off >= bits.len() {
            Err(CodecError::BufferTooShort)
        } else if bits[off as int] {
            Err(CodecError::UnsupportedExtension)
        } else {
            bitstring_decode_root(bits, off + 1, lb, ub)
        }
    } else {
        bitstring_decode_root(bits, off, lb, ub)
    }
}

/// The range difference is below the width table's capacity.
pub open spec fn cwn_range_ok(lb: int, ub: int) -> bool {
    ub - lb < pow2(64)
}

pub proof fn lemma_cwn_width_bound(d: nat)
    requires
        d < pow2(64),
    ensures
        d < pow2(cwn_width(d)),
{
    vstd::arithmetic::power2::lemma2_to64();
    vstd::arithmetic::power2::lemma2_to64_rest();
    if d <= 254 {
        lemma_bits_needed_bound(d);
    }
}

/// Round trip of a constrained whole number: whatever already stands in the
/// buffer and whatever follows, decoding at the position where
/// `cwn_bits(lb, ub, v, pos)` was written yields `v` back and consumes
/// exactly the bits the encoder produced.
pub proof fn lemma_cwn_round_trip(prefix: Seq<bool>, rest: Seq<bool>, lb: int, ub: int, v: int)
    requires
        lb <= v <= ub,
        cwn_range_ok(lb, ub),
    ensures
        ({
            let pos = prefix.len();
            let enc = cwn_bits(lb, ub, v, pos);
            let all = prefix + enc + rest;
            &&& cwn_decode_result(all, pos, lb, ub) == Ok::<i64, CodecError>(v as i64)
            &&& cwn_decode_end(all, pos, lb, ub) == pos + enc.len()
        }),
{
    let pos = prefix.len();
    let d = (ub - lb) as nat;
    let pad = cwn_pad(d, pos);
    let w = cwn_width(d);
    let enc = cwn_bits(lb, ub, v, pos);
    let all = prefix + enc + rest;
    lemma_cwn_width_bound(d);
    assert(all.subrange((pos + pad) as int, (pos + pad + w) as int) =~= num_bits(
        w,
        (v - lb) as nat,
    ));
    lemma_num_bits_val(w, (v - lb) as nat);
}

/// Round trip of a CHOICE index: decoding at the position where
/// `choice_idx_bits(lb, ub, idx, ext, pos)` was written yields the index
/// back, not extended, and consumes exactly the bits the encoder produced.
pub proof fn lemma_choice_idx_round_trip(
    prefix: Seq<bool>,
    rest: Seq<bool>,
    lb: int,
    ub: int,
    idx: int,
    ext: bool,
)
    requires
        lb <= idx <= ub,
        cwn_range_ok(lb, ub),
    ensures
        ({
            let pos = prefix.len();
            let enc = choice_idx_bits(lb, ub, idx, ext, pos);
            let all = prefix + enc + rest;
            &&& choice_idx_decode_result(all, pos, lb, ub, ext) == Ok::<(i64, bool), CodecError>(
                (idx as i64, false),
            )
            &&& choice_idx_decode_end(all, pos, lb, ub, ext) == pos + enc.len()
        }),
{
    let pos = prefix.len();
    let enc = choice_idx_bits(lb, ub, idx, ext, pos);
    let all = prefix + enc + rest;
    if ext {
        assert(!all[pos as int]);
        let prefix2 = prefix.push(false);
        let enc2 = cwn_bits(lb, ub, idx, pos + 1);
        lemma_cwn_round_trip(prefix2, rest, lb, ub, idx);
        assert(prefix2 + enc2 + rest =~= all);
    } else {
        lemma_cwn_round_trip(prefix, rest, lb, ub, idx);
    }
}

/// Round trip of a size-constrained bit string: decoding at the position
/// where `bitstring_bits(lb, ub, ext, v, pos)` was written yields the
/// payload back and leaves the cursor exactly past the bits the encoder
/// produced.
#[verifier::rlimit(100)]
pub proof fn lemma_bitstring_round_trip(
    prefix: Seq<bool>,
    rest: Seq<bool>,
    lb: int,
    ub: int,
    ext: bool,
    v: Seq<bool>,
)
    requires
        0 <= lb <= v.len() <= ub <= i64::MAX,
    ensures
        ({
            let pos = prefix.len();
            let enc = bitstring_bits(lb, ub, ext, v, pos);
            let all = prefix + enc + rest;
            bitstring_decode_result(all, pos, lb, ub, ext) == Ok::<(Seq<bool>, nat), CodecError>(
                (v, pos + enc.len()),
            )
        }),
    decreases ext as int,
{
    let pos = prefix.len();
    let enc = bitstring_bits(lb, ub, ext, v, pos);
    let all = prefix + enc + rest;
    if ext {
        assert(!all[pos as int]);
        let prefix2 = prefix.push(false);
        lemma_bitstring_round_trip(prefix2, rest, lb, ub, false, v);
        assert(prefix2 + bitstring_bits(lb, ub, false, v, pos + 1) + rest =~= all);
    } else if lb == ub {
        let n = lb as nat;
        let pad = bitstring_payload_pad(n, pos);
        assert(all.subrange((pos + pad) as int, (pos + pad + n) as int) =~= v);
    } else {
        let len_bits = cwn_bits(lb, ub, v.len() as int, pos);
        let e1 = pos + len_bits.len();
        let pad = pad_len(e1 as nat);
        let tail = falses(pad) + v + rest;
        assert(ub - lb < pow2(64)) by {
            vstd::arithmetic::power2::lemma2_to64();
            vstd::arithmetic::power2::lemma2_to64_rest();
        }
        lemma_cwn_round_trip(prefix, tail, lb, ub, v.len() as int);
        assert(prefix + len_bits + tail =~= all);
        assert(cwn_decode_result(all, pos, lb, ub) == Ok::<i64, CodecError>(v.len() as i64));
        assert(cwn_decode_end(all, pos, lb, ub) == e1);
        assert(all.subrange((e1 + pad) as int, (e1 + pad + v.len()) as int) =~= v);
    }
}

/// The runtime decode/encode state: an octet buffer held as bits, plus the
/// current decode position. The position never passes the total length.
pub struct AperCodecData {
    bits: Vec<bool>,
    decode_offset: usize,
}

impl AperCodecData {
    /// The buffer contents as a sequence of bits.
    pub closed spec fn bits(&self) -> Seq<bool> {
        self.bits@
    }

    /// The current decode position, in bits from the start of the buffer.
    pub closed spec fn offset(&self) -> nat {
        self.decode_offset as nat
    }

    /// The cursor invariant: the position lies within the buffer.
    pub open spec fn wf(&self) -> bool {
        self.offset() <= self.bits().len()
    }

    /// A cursor over an octet buffer, positioned at its first bit.
    pub fn from_bytes(bytes: &Vec<u8>) -> (r: Self)
        ensures
            r.bits() =~= bytes_to_bits(bytes@),
            r.offset() == 0,
            r.wf(),
    {
        let mut bits: Vec<bool> = Vec::new();
        let n = bytes.len();
        let mut i: usize = 0;
        while i < n
            invariant
                i <= n == bytes@.len(),
                bits@.len() == 8 * i,
                bits@ =~= bytes_to_bits(bytes@.take(i as int)),
            decreases n - i,
        {
            let b = bytes[i];
            let mut k: usize = 0;
            while k < 8
                invariant
                    k <= 8,
                    i < bytes@.len(),
                    b == bytes@[i as int],
                    bits@.len() == 8 * i + k,
                    bits@ =~= bytes_to_bits(bytes@.take(i as int)) + Seq::new(
                        k as nat,
                        |j: int| bit_of_byte(b, j),
                    ),
                decreases 8 - k,
            {
                let bit = ((b >> ((7 - k) as u8)) & 1) == 1;
                bits.push(bit);
                proof {
                    assert(bits@ =~= bytes_to_bits(bytes@.take(i as int)) + Seq::new(
                        (k + 1) as nat,
                        |j: int| bit_of_byte(b, j),
                    ));
                }
                k = k + 1;
            }
            proof {
                assert(bits@ =~= bytes_to_bits(bytes@.take(i + 1)));
            }
            i = i + 1;
        }
        proof {
            assert(bytes@.take(n as int) =~= bytes@);
        }
        AperCodecData { bits, decode_offset: 0 }
    }

    /// The buffer as octets, the last one padded with clear bits up to the
    /// octet boundary: every bit of the cursor keeps its position, read
    /// most significant bit first.
    pub fn into_bytes(&self) -> (r: Vec<u8>)
        requires
            self.bits().len() + 8 <= usize::MAX,
        ensures
            8 * r@.len() < self.bits().len() + 8,
            self.bits().len() <= 8 * r@.len(),
            forall|i: int|
                0 <= i < self.bits().len() ==> #[trigger] bit_of_byte(r@[i / 8], i % 8)
                    == self.bits()[i],
            forall|i: int|
                self.bits().len() <= i < 8 * r@.len() ==> #[trigger] bit_of_byte(r@[i / 8], i % 8)
                    == false,
    {
        let n = self.bits.len();
        let nbytes = n / 8 + (if n % 8 == 0 {
            0
        } else {
            1
        });
        let mut out: Vec<u8> = Vec::new();
        let mut bi: usize = 0;
        while bi < nbytes
            invariant
                bi <= nbytes,
                n == self.bits@.len(),
                n + 8 <= usize::MAX,
                8 * nbytes < n + 8,
                n <= 8 * nbytes,
                out@.len() == bi,
                forall|i: int|
                    0 <= i < 8 * bi && i < n ==> #[trigger] bit_of_byte(out@[i / 8], i % 8)
                        == self.bits@[i],
                forall|i: int|
                    n <= i < 8 * bi ==> #[trigger] bit_of_byte(out@[i / 8], i % 8) == false,
            decreases nbytes - bi,
        {
            let mut byte: u8 = 0;
            proof {
                assert forall|k2: int| 0 <= k2 < 8 implies !bit_of_byte(0u8, k2) by {
                    let sh = (7 - k2) as u8;
                    assert((0u8 >> sh) & 1 == 0) by (bit_vector);
                }
            }
            let mut k: usize = 0;
            while k < 8
                invariant
                    k <= 8,
                    bi < nbytes,
                    n == self.bits@.len(),
                    n + 8 <= usize::MAX,
                    8 * nbytes < n + 8,
                    forall|k2: int|
                        0 <= k2 < k ==> #[trigger] bit_of_byte(byte, k2) == (if 8 * bi + k2 < n {
                            self.bits@[8 * bi + k2]
                        } else {
                            false
                        }),
                    forall|k2: int| k <= k2 < 8 ==> !#[trigger] bit_of_byte(byte, k2),
                decreases 8 - k,
            {
                let idx = 8 * bi + k;
                if idx < n && self.bits[idx] {
                    let sh: u8 = (7 - k) as u8;
                    let nb: u8 = byte | (1u8 << sh);
                    proof {
                        let prev = byte;
                        assert(((prev | (1u8 << sh)) >> sh) & 1 == 1) by (bit_vector)
                            requires
                                sh < 8,
                        ;
                        assert forall|k2: int| 0 <= k2 < 8 && k2 != k implies #[trigger] bit_of_byte(
                            nb,
                            k2,
                        ) == bit_of_byte(prev, k2) by {
                            let sh2 = (7 - k2) as u8;
                            assert(((prev | (1u8 << sh)) >> sh2) & 1 == (prev >> sh2) & 1)
                                by (bit_vector)
                                requires
                                    sh < 8,
                                    sh2 < 8,
                                    sh != sh2,
                            ;
                        }
                    }
                    byte = nb;
                }
                k = k + 1;
            }
            out.push(byte);
            bi = bi + 1;
        }
        out
    }

    /// An empty cursor, ready for encoding.
    pub fn new() -> (r: Self)
        ensures
            r.bits() =~= Seq::<bool>::empty(),
            r.offset() == 0,
            r.wf(),
    {
        AperCodecData { bits: Vec::new(), decode_offset: 0 }
    }

    /// Total length of the buffer in bits.
    pub fn length_in_bits(&self) -> (n: usize)
        ensures
            n == self.bits().len(),
    {
        self.bits.len()
    }

    /// The current decode position in bits.
    pub fn position(&self) -> (n: usize)
        ensures
            n == self.offset(),
    {
        self.decode_offset
    }

    /// Reads the next single bit.
    pub fn decode_bool(&mut self) -> (r: Result<bool, CodecError>)
        requires
            old(self).wf(),
        ensures
            final(self).wf(),
            final(self).bits() == old(self).bits(),
            old(self).offset() < old(self).bits().len() ==> r == Ok::<bool, CodecError>(
                old(self).bits()[old(self).offset() as int],
            ) && final(self).offset() == old(self).offset() + 1,
            old(self).offset() >= old(self).bits().len() ==> r == Err::<bool, CodecError>(
                CodecError::BufferTooShort,
            ) && final(self).offset() == old(self).offset(),
    {
        if self.decode_offset < self.bits.len() {
            let b = self.bits[self.decode_offset];
            self.decode_offset = self.decode_offset + 1;
            Ok(b)
        } else {
            Err(CodecError::BufferTooShort)
        }
    }

    /// Reads the next `n` bits as an unsigned number, most significant bit
    /// first. Fails, moving nothing, when fewer than `n` bits remain.
    pub fn decode_bits_as_u64(&mut self, n: usize) -> (r: Result<u64, CodecError>)
        requires
            old(self).wf(),
            n <= 64,
        ensures
            final(self).wf(),
            final(self).bits() == old(self).bits(),
            old(self).offset() + n <= old(self).bits().len() ==> r == Ok::<u64, CodecError>(
                bits_val(
                    old(self).bits().subrange(
                        old(self).offset() as int,
                        old(self).offset() + n,
                    ),
                ) as u64,
            ) && final(self).offset() == old(self).offset() + n,
            old(self).offset() + n > old(self).bits().len() ==> r == Err::<u64, CodecError>(
                CodecError::BufferTooShort,
            ) && final(self).offset() == old(self).offset(),
    {
        if self.bits.len() - self.decode_offset < n {
            return Err(CodecError::BufferTooShort);
        }
        let ghost start = self.decode_offset as int;
        let mut v: u64 = 0;
        let mut i: usize = 0;
        proof {
            vstd::arithmetic::power2::lemma2_to64();
            vstd::arithmetic::power2::lemma2_to64_rest();
        }
        while i < n
            invariant
                i <= n <= 64,
                0 <= start,
                self.decode_offset == start + i,
                start + n <= self.bits@.len(),
                self.bits@.len() <= usize::MAX,
                self.bits@ == old(self).bits(),
                v == bits_val(self.bits@.subrange(start, start + i)),
                v < pow2(i as nat),
                pow2(63) == 0x8000_0000_0000_0000,
            decreases n - i,
        {
            let b = self.bits[self.decode_offset];
            proof {
                if i < 63 {
                    vstd::arithmetic::power2::lemma_pow2_strictly_increases(i as nat, 63);
                }
                vstd::arithmetic::power2::lemma_pow2_unfold((i + 1) as nat);
                assert(self.bits@.subrange(start, start + i + 1) =~= self.bits@.subrange(
                    start,
                    start + i,
                ).push(b));
                lemma_bits_val_push(self.bits@.subrange(start, start + i), b);
            }
            v = v * 2 + (if b {
                1
            } else {
                0
            });
            self.decode_offset = self.decode_offset + 1;
            i = i + 1;
        }
        Ok(v)
    }

    /// Appends the `n`-bit pattern of `v`, most significant bit first.
    pub fn encode_bits_of_u64(&mut self, n: usize, v: u64)
        requires
            old(self).wf(),
            n <= 64,
            v < pow2(n as nat),
        ensures
            final(self).wf(),
            final(self).offset() == old(self).offset(),
            final(self).bits() =~= old(self).bits() + num_bits(n as nat, v as nat),
    {
        if n == 0 {
            assert(old(self).bits() + num_bits(0, v as nat) =~= old(self).bits());
            return ;
        }
        let mut p: u64 = pow2_u64(n - 1);
        let mut k: usize = 0;
        while k < n
            invariant
                1 <= n <= 64,
                k <= n,
                v < pow2(n as nat),
                self.wf(),
                self.offset() == old(self).offset(),
                k < n ==> p == pow2((n - 1 - k) as nat),
                self.bits@ =~= old(self).bits() + num_bits(n as nat, v as nat).take(k as int),
            decreases n - k,
        {
            proof {
                vstd::arithmetic::power2::lemma_pow2_pos((n - 1 - k) as nat);
            }
            let b = (v / p) % 2 == 1;
            proof {
                assert(num_bits(n as nat, v as nat)[k as int] == b);
                assert(num_bits(n as nat, v as nat).take(k + 1) =~= num_bits(
                    n as nat,
                    v as nat,
                ).take(k as int).push(b));
            }
            self.bits.push(b);
            k = k + 1;
            if k < n {
                proof {
                    vstd::arithmetic::power2::lemma_pow2_unfold((n - k) as nat);
                }
                p = p / 2;
            }
        }
        proof {
            assert(num_bits(n as nat, v as nat).take(n as int) =~= num_bits(n as nat, v as nat));
        }
    }

    /// Appends clear bits until the write position sits on an octet
    /// boundary.
    pub fn encode_align(&mut self)
        requires
            old(self).wf(),
        ensures
            final(self).wf(),
            final(self).offset() == old(self).offset(),
            final(self).bits() =~= old(self).bits() + falses(pad_len(old(self).bits().len())),
    {
        let rem = self.bits.len() % 8;
        if rem == 0 {
            assert(old(self).bits() + falses(0) =~= old(self).bits());
            return ;
        }
        let pad = 8 - rem;
        let mut i: usize = 0;
        while i < pad
            invariant
                i <= pad < 8,
                self.wf(),
                self.offset() == old(self).offset(),
                self.bits@ =~= old(self).bits() + falses(i as nat),
            decreases pad - i,
        {
            proof {
                assert(falses((i + 1) as nat) =~= falses(i as nat).push(false));
            }
            self.bits.push(false);
            i = i + 1;
        }
    }

    /// Encodes a constrained whole number `v` in `[lb, ub]`: the exact
    /// pattern `cwn_bits(lb, ub, v, len)` is appended. A value outside the
    /// declared bounds fails and leaves the buffer untouched.
    pub fn encode_constrained_whole_number(&mut self, lb: i64, ub: i64, v: i64) -> (r: Result<
        (),
        CodecError,
    >)
        requires
            lb <= ub,
            old(self).wf(),
        ensures
            final(self).wf(),
            final(self).offset() == old(self).offset(),
            lb <= v <= ub ==> r == Ok::<(), CodecError>(()) && final(self).bits() =~= old(
                self,
            ).bits() + cwn_bits(lb as int, ub as int, v as int, old(self).bits().len()),
            !(lb <= v <= ub) ==> r == Err::<(), CodecError>(CodecError::ValueOutsideConstraint)
                && final(self).bits() == old(self).bits(),
    {
        if v < lb || v > ub {
            return Err(CodecError::ValueOutsideConstraint);
        }
        let d: u64 = ((ub as i128) - (lb as i128)) as u64;
        let raw: u64 = ((v as i128) - (lb as i128)) as u64;
        proof {
            vstd::arithmetic::power2::lemma2_to64();
            vstd::arithmetic::power2::lemma2_to64_rest();
            assert(pow2(64) == 0x1_0000_0000_0000_0000);
        }
        if d <= 254 {
            let w = bits_needed_u64(d);
            proof {
                lemma_bits_needed_bound(d as nat);
            }
            self.encode_bits_of_u64(w, raw);
            proof {
                assert(self.bits@ =~= old(self).bits() + cwn_bits(
                    lb as int,
                    ub as int,
                    v as int,
                    old(self).bits().len(),
                ));
            }
        } else {
            self.encode_align();
            let w: usize = if d <= 0xFF {
                8
            } else if d <= 0xFFFF {
                16
            } else if d <= 0xFFFF_FFFF {
                32
            } else {
                64
            };
            self.encode_bits_of_u64(w, raw);
            proof {
                assert(self.bits@ =~= old(self).bits() + cwn_bits(
                    lb as int,
                    ub as int,
                    v as int,
                    old(self).bits().len(),
                ));
            }
        }
        Ok(())
    }

    /// Decodes a constrained whole number in `[lb, ub]`: skips alignment
    /// padding where the range calls for it, reads the table-given width and
    /// adds the lower bound. A raw pattern past `ub` is rejected; a buffer
    /// with too few bits fails without moving.
    pub fn decode_constrained_whole_number(&mut self, lb: i64, ub: i64) -> (r: Result<
        i64,
        CodecError,
    >)
        requires
            lb <= ub,
            old(self).wf(),
        ensures
            final(self).wf(),
            final(self).bits() == old(self).bits(),
            r == cwn_decode_result(old(self).bits(), old(self).offset(), lb as int, ub as int),
            final(self).offset() == cwn_decode_end(
                old(self).bits(),
                old(self).offset(),
                lb as int,
                ub as int,
            ),
    {
        let d: u64 = ((ub as i128) - (lb as i128)) as u64;
        proof {
            vstd::arithmetic::power2::lemma2_to64();
            vstd::arithmetic::power2::lemma2_to64_rest();
            assert(pow2(64) == 0x1_0000_0000_0000_0000);
        }
        let pad: usize = if d <= 254 {
            0
        } else {
            let rem = self.decode_offset % 8;
            (8 - rem) % 8
        };
        let w: usize = if d <= 254 {
            bits_needed_u64(d)
        } else if d <= 0xFF {
            8
        } else if d <= 0xFFFF {
            16
        } else if d <= 0xFFFF_FFFF {
            32
        } else {
            64
        };
        if self.bits.len() - self.decode_offset < pad + w {
            return Err(CodecError::BufferTooShort);
        }
        self.decode_offset = self.decode_offset + pad;
        let ghost begin = self.decode_offset as int;
        let raw = match self.decode_bits_as_u64(w) {
            Ok(x) => x,
            Err(e) => {
                return Err(e);
            },
        };
        proof {
            lemma_bits_val_bound(old(self).bits().subrange(begin, begin + w));
            if w < 64 {
                vstd::arithmetic::power2::lemma_pow2_strictly_increases(w as nat, 64);
            }
        }
        if raw > d {
            return Err(CodecError::ValueOutOfRange);
        }
        Ok(((lb as i128) + (raw as i128)) as i64)
    }

    /// Encodes a CHOICE index: a clear extension bit first when the type is
    /// extensible, then the index as a constrained whole number. An index
    /// outside `[lb, ub]` fails and leaves the buffer untouched.
    pub fn encode_choice_idx(&mut self, lb: i64, ub: i64, ext: bool, idx: i64) -> (r: Result<
        (),
        CodecError,
    >)
        requires
            lb <= ub,
            old(self).wf(),
        ensures
            final(self).wf(),
            final(self).offset() == old(self).offset(),
            lb <= idx <= ub ==> r == Ok::<(), CodecError>(()) && final(self).bits() =~= old(
                self,
            ).bits() + choice_idx_bits(lb as int, ub as int, idx as int, ext, old(
                self,
            ).bits().len()),
            !(lb <= idx <= ub) ==> r == Err::<(), CodecError>(CodecError::ValueOutsideConstraint)
                && final(self).bits() == old(self).bits(),
    {
        if idx < lb || idx > ub {
            return Err(CodecError::ValueOutsideConstraint);
        }
        if ext {
            self.encode_bool(false);
        }
        let res = self.encode_constrained_whole_number(lb, ub, idx);
        proof {
            if ext {
                assert(self.bits@ =~= old(self).bits() + choice_idx_bits(
                    lb as int,
                    ub as int,
                    idx as int,
                    ext,
                    old(self).bits().len(),
                ));
            }
        }
        res
    }

    /// Decodes a CHOICE index. With `ext` set, a set extension bit means
    /// the encoder used an extension addition this descriptor does not
    /// know: the result reports `extended = true` without reading further.
    /// Otherwise the index is a constrained whole number in `[lb, ub]`.
    pub fn decode_choice_idx(&mut self, lb: i64, ub: i64, ext: bool) -> (r: Result<
        (i64, bool),
        CodecError,
    >)
        requires
            lb <= ub,
            old(self).wf(),
        ensures
            final(self).wf(),
            final(self).bits() == old(self).bits(),
            r == choice_idx_decode_result(
                old(self).bits(),
                old(self).offset(),
                lb as int,
                ub as int,
                ext,
            ),
            final(self).offset() == choice_idx_decode_end(
                old(self).bits(),
                old(self).offset(),
                lb as int,
                ub as int,
                ext,
            ),
    {
        if ext {
            let b = match self.decode_bool() {
                Ok(b) => b,
                Err(e) => {
                    return Err(e);
                },
            };
            if b {
                return Ok((0, true));
            }
        }
        match self.decode_constrained_whole_number(lb, ub) {
            Ok(v) => Ok((v, false)),
            Err(e) => Err(e),
        }
    }

    /// Reads the next `n` bits as a vector. Fails, moving nothing, when
    /// fewer than `n` bits remain.
    pub fn decode_bits_vec(&mut self, n: usize) -> (r: Result<Vec<bool>, CodecError>)
        requires
            old(self).wf(),
        ensures
            final(self).wf(),
            final(self).bits() == old(self).bits(),
            old(self).offset() + n <= old(self).bits().len() ==> (r matches Ok(rv)
                && rv@ == old(self).bits().subrange(
                    old(self).offset() as int,
                    old(self).offset() + n,
                )
                && final(self).offset() == old(self).offset() + n),
            old(self).offset() + n > old(self).bits().len() ==> r == Err::<Vec<bool>, CodecError>(
                CodecError::BufferTooShort,
            ) && final(self).offset() == old(self).offset(),
    {
        if self.bits.len() - self.decode_offset < n {
            return Err(CodecError::BufferTooShort);
        }
        let ghost start = self.decode_offset as int;
        let mut out: Vec<bool> = Vec::new();
        let mut i: usize = 0;
        while i < n
            invariant
                i <= n,
                0 <= start,
                self.decode_offset == start + i,
                start + n <= self.bits@.len(),
                self.bits@.len() <= usize::MAX,
                self.bits@ == old(self).bits(),
                out@ =~= self.bits@.subrange(start, start + i),
            decreases n - i,
        {
            let b = self.bits[self.decode_offset];
            out.push(b);
            proof {
                assert(out@ =~= self.bits@.subrange(start, start + i + 1));
            }
            self.decode_offset = self.decode_offset + 1;
            i = i + 1;
        }
        Ok(out)
    }

    /// Appends every bit of `v` at the end of the buffer.
    pub fn encode_bits_vec(&mut self, v: &Vec<bool>)
        requires
            old(self).wf(),
        ensures
            final(self).wf(),
            final(self).offset() == old(self).offset(),
            final(self).bits() =~= old(self).bits() + v@,
    {
        let mut i: usize = 0;
        while i < v.len()
            invariant
                i <= v@.len(),
                self.wf(),
                self.offset() == old(self).offset(),
                self.bits@ =~= old(self).bits() + v@.take(i as int),
            decreases v@.len() - i,
        {
            proof {
                assert(v@.take(i + 1) =~= v@.take(i as int).push(v@[i as int]));
            }
            self.bits.push(v[i]);
            i = i + 1;
        }
        proof {
            assert(v@.take(v@.len() as int) =~= v@);
        }
    }

    /// Encodes a size-constrained bit string: a clear extension bit first
    /// when the size is extensible, then, for a fixed size, the payload
    /// alone, and for a variable size, a length determinant followed by the
    /// octet-aligned payload. A payload whose length lies outside
    /// `[lb, ub]` fails and leaves the buffer untouched.
    pub fn encode_bitstring(&mut self, lb: u64, ub: u64, ext: bool, v: &Vec<bool>) -> (r: Result<
        (),
        CodecError,
    >)
        requires
            lb <= ub <= i64::MAX as u64,
            old(self).wf(),
        ensures
            final(self).wf(),
            final(self).offset() == old(self).offset(),
            lb <= v@.len() <= ub ==> r == Ok::<(), CodecError>(()) && final(self).bits() =~= old(
                self,
            ).bits() + bitstring_bits(lb as int, ub as int, ext, v@, old(self).bits().len()),
            !(lb <= v@.len() <= ub) ==> r == Err::<(), CodecError>(
                CodecError::ValueOutsideConstraint,
            ) && final(self).bits() == old(self).bits(),
    {
        let n = v.len();
        if (n as u64) < lb || (n as u64) > ub {
            return Err(CodecError::ValueOutsideConstraint);
        }
        if ext {
            self.encode_bool(false);
        }
        if lb == ub {
            if n > 16 {
                self.encode_align();
            }
            self.encode_bits_vec(v);
        } else {
            let res = self.encode_constrained_whole_number(lb as i64, ub as i64, n as i64);
            proof {
                assert(res == Ok::<(), CodecError>(()));
            }
            self.encode_align();
            self.encode_bits_vec(v);
        }
        proof {
            assert(self.bits@ =~= old(self).bits() + bitstring_bits(
                lb as int,
                ub as int,
                ext,
                v@,
                old(self).bits().len(),
            ));
        }
        Ok(())
    }

    /// Decodes a size-constrained bit string. With `ext` set, a set
    /// extension bit means a size outside the extension root, which this
    /// codec does not support. A fixed size reads the payload alone; a
    /// variable size reads a length determinant, then the octet-aligned
    /// payload.
    pub fn decode_bitstring(&mut self, lb: u64, ub: u64, ext: bool) -> (r: Result<
        Vec<bool>,
        CodecError,
    >)
        requires
            lb <= ub <= i64::MAX as u64,
            old(self).wf(),
        ensures
            final(self).wf(),
            final(self).bits() == old(self).bits(),
            bitstring_decode_result(old(self).bits(), old(self).offset(), lb as int, ub as int, ext)
                matches Ok(p) ==> r matches Ok(rv) && rv@ == p.0 && final(self).offset() == p.1,
            bitstring_decode_result(old(self).bits(), old(self).offset(), lb as int, ub as int, ext)
                matches Err(e) ==> r == Err::<Vec<bool>, CodecError>(e) && old(self).offset()
                <= final(self).offset(),
    {
        if ext {
            let b = match self.decode_bool() {
                Ok(b) => b,
                Err(e) => {
                    return Err(e);
                },
            };
            if b {
                return Err(CodecError::UnsupportedExtension);
            }
        }
        if lb == ub {
            let pad: usize = if lb > 16 {
                let rem = self.decode_offset % 8;
                (8 - rem) % 8
            } else {
                0
            };
            let rem_bits: u64 = (self.bits.len() - self.decode_offset) as u64;
            if (pad as u64) > rem_bits || lb > rem_bits - (pad as u64) {
                return Err(CodecError::BufferTooShort);
            }
            self.decode_offset = self.decode_offset + pad;
            let out = match self.decode_bits_vec(lb as usize) {
                Ok(v) => v,
                Err(e) => {
                    return Err(e);
                },
            };
            Ok(out)
        } else {
            let l = match self.decode_constrained_whole_number(lb as i64, ub as i64) {
                Ok(l) => l,
                Err(e) => {
                    return Err(e);
                },
            };
            let pad: usize = {
                let rem = self.decode_offset % 8;
                (8 - rem) % 8
            };
            let rem_bits: u64 = (self.bits.len() - self.decode_offset) as u64;
            if (pad as u64) > rem_bits || (l as u64) > rem_bits - (pad as u64) {
                return Err(CodecError::BufferTooShort);
            }
            self.decode_offset = self.decode_offset + pad;
            let out = match self.decode_bits_vec(l as usize) {
                Ok(v) => v,
                Err(e) => {
                    return Err(e);
                },
            };
            Ok(out)
        }
    }

    /// Appends a single bit at the end of the buffer.
    pub fn encode_bool(&mut self, b: bool)
        requires
            old(self).wf(),
        ensures
            final(self).wf(),
            final(self).bits() =~= old(self).bits().push(b),
            final(self).offset() == old(self).offset(),
    {
        self.bits.push(b);
    }
}

} // verus!
