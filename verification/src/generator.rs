//! The codec generator binding: descriptor-driven encode and decode.
//!
//! A resolved descriptor drives the dispatch and validation shape that the
//! generated codec of every type follows: a CHOICE decodes its index, fails
//! on extension additions, dispatches on the decoded index to the matching
//! variant's own decoder, and rejects an index with no matching variant.
//! The payload of a variant is decoded by the same machinery, so the codec
//! composes recursively over a type graph of any depth.

use vstd::prelude::*;
use crate::codec::AperCodecData;
use crate::codec::CodecError;
use crate::codec::cwn_bits;
use crate::codec::cwn_decode_result;
use crate::codec::cwn_decode_end;
use crate::codec::cwn_range_ok;
use crate::codec::choice_idx_bits;
use crate::codec::choice_idx_decode_result;
use crate::codec::choice_idx_decode_end;
use crate::codec::bitstring_bits;
use crate::codec::bitstring_decode_result;
use crate::codec::lemma_cwn_round_trip;
use crate::codec::lemma_choice_idx_round_trip;
use crate::codec::lemma_bitstring_round_trip;

verus! {

broadcast use vstd::std_specs::vec::axiom_vec_index_decreases;

/// A fully concrete descriptor, sufficient to drive the codec: bounds, the
/// extensibility flag, and for CHOICE the mapping from discriminant key to
/// the variant's own descriptor, in declaration order.
#[derive(Debug, PartialEq, Eq)]
pub enum AperType {
    Integer { lb: i64, ub: i64, ext: bool },
    BitString { lb: u64, ub: u64, ext: bool },
    Choice { lb: i64, ub: i64, ext: bool, variants: Vec<(i64, Box<AperType>)> },
}

/// A decoded value, shaped by its descriptor.
#[derive(Debug, PartialEq, Eq)]
pub enum AperValue {
    Integer(i64),
    BitString(Vec<bool>),
    Choice(i64, Box<AperValue>),
}

/// The mathematical shape of a decoded value.
pub enum AperValueModel {
    Integer(int),
    BitString(Seq<bool>),
    Choice(int, Box<AperValueModel>),
}

/// The mathematical shape of an [`AperValue`].
pub open spec fn value_model(v: AperValue) -> AperValueModel
    decreases v,
{
    match v {
        AperValue::Integer(x) => AperValueModel::Integer(x as int),
        AperValue::BitString(b) => AperValueModel::BitString(b@),
        AperValue::Choice(k, p) => AperValueModel::Choice(k as int, Box::new(value_model(*p))),
    }
}

/// The first variant at or past position `i` carrying key `k`, if any.
pub open spec fn find_variant_from(variants: Seq<(i64, Box<AperType>)>, k: int, i: nat) -> Option<
    int,
>
    decreases variants.len() - i,
{
    if i >= variants.len() {
        None
    } else if variants[i as int].0 == k {
        Some(i as int)
    } else {
        find_variant_from(variants, k, i + 1)
    }
}

/// The first declared variant carrying key `k`, if any.
pub open spec fn find_variant(variants: Seq<(i64, Box<AperType>)>, k: int) -> Option<int> {
    find_variant_from(variants, k, 0)
}

pub proof fn lemma_find_variant_from_range(variants: Seq<(i64, Box<AperType>)>, k: int, i: nat)
    ensures
        find_variant_from(variants, k, i) matches Some(j) ==> i <= j < variants.len()
            && variants[j].0 == k,
    decreases variants.len() - i,
{
    if i < variants.len() && variants[i as int].0 != k {
        lemma_find_variant_from_range(variants, k, i + 1);
    }
}

/// A descriptor the codec can drive: bounds ordered and within the width
/// table's capacity, recursively for every CHOICE variant.
pub open spec fn wf_type(t: AperType) -> bool
    decreases t,
{
    match t {
        AperType::Integer { lb, ub, .. } => lb <= ub && cwn_range_ok(lb as int, ub as int),
        AperType::BitString { lb, ub, .. } => lb <= ub <= i64::MAX as u64,
        AperType::Choice { lb, ub, variants, .. } => lb <= ub && cwn_range_ok(lb as int, ub as int)
            && (forall|i: int|
            0 <= i < variants@.len() ==> wf_type(*#[trigger] variants@[i].1)),
    }
}

/// Whether a value lies within its descriptor's declared bounds: an INTEGER
/// inside `[lb, ub]`, a bit string whose size is inside `[lb, ub]`, and a
/// CHOICE whose key names a declared variant and whose payload is valid for
/// that variant.
pub open spec fn valid_value(t: AperType, w: AperValueModel) -> bool
    decreases w,
{
    match (t, w) {
        (AperType::Integer { lb, ub, .. }, AperValueModel::Integer(x)) => lb <= x <= ub,
        (AperType::BitString { lb, ub, .. }, AperValueModel::BitString(b)) => lb <= b.len() <= ub,
        (AperType::Choice { lb, ub, variants, .. }, AperValueModel::Choice(k, p)) => {
            &&& lb <= k <= ub
            &&& match find_variant(variants@, k) {
                Some(i) => valid_value(*variants@[i].1, *p),
                None => false,
            }
        },
        _ => false,
    }
}

/// The exact bit pattern of a valid value under its descriptor, written at
/// position `pos`: a CHOICE writes its index, then the chosen variant's
/// payload.
pub open spec fn value_bits(t: AperType, w: AperValueModel, pos: nat) -> Seq<bool>
    decreases w,
{
    match (t, w) {
        (AperType::Integer { lb, ub, .. }, AperValueModel::Integer(x)) => cwn_bits(
            lb as int,
            ub as int,
            x,
            pos,
        ),
        (AperType::BitString { lb, ub, ext }, AperValueModel::BitString(b)) => bitstring_bits(
            lb as int,
            ub as int,
            ext,
            b,
            pos,
        ),
        (AperType::Choice { lb, ub, ext, variants }, AperValueModel::Choice(k, p)) => {
            let idx_bits = choice_idx_bits(lb as int, ub as int, k, ext, pos);
            match find_variant(variants@, k) {
                Some(i) => idx_bits + value_bits(*variants@[i].1, *p, pos + idx_bits.len()),
                None => idx_bits,
            }
        },
        _ => Seq::empty(),
    }
}

/// A variant that `find_variant` names always lies within the list and
/// carries the key looked for.
pub proof fn lemma_find_variant_range(variants: Seq<(i64, Box<AperType>)>, k: int)
    ensures
        find_variant(variants, k) matches Some(i) ==> 0 <= i < variants.len() && variants[i].0
            == k,
{
    lemma_find_variant_from_range(variants, k, 0);
}

/// What decoding a value under descriptor `t` from `bits` at position
/// `off` returns: the value's shape and the cursor position after it. A
/// CHOICE whose stream uses an extension addition fails as unsupported; a
/// decoded index with no matching variant fails as an invalid index.
#[verifier::rlimit(50)]
pub open spec fn value_decode(t: AperType, bits: Seq<bool>, off: nat) -> Result<
    (AperValueModel, nat),
    CodecError,
>
    decreases t
    via value_decode_decreases
{
    match t {
        AperType::Integer { lb, ub, .. } => {
            match cwn_decode_result(bits, off, lb as int, ub as int) {
                Ok(x) => Ok(
                    (AperValueModel::Integer(x as int), cwn_decode_end(bits, off, lb as int, ub as int)),
                ),
                Err(e) => Err(e),
            }
        },
        AperType::BitString { lb, ub, ext } => {
            match bitstring_decode_result(bits, off, lb as int, ub as int, ext) {
                Ok(p) => Ok((AperValueModel::BitString(p.0), p.1)),
                Err(e) => Err(e),
            }
        },
        AperType::Choice { lb, ub, ext, variants } => {
            match choice_idx_decode_result(bits, off, lb as int, ub as int, ext) {
                Err(e) => Err(e),
                Ok((idx, extended)) => {
                    if extended {
                        Err(CodecError::UnsupportedExtension)
                    } else {
                        let end1 = choice_idx_decode_end(bits, off, lb as int, ub as int, ext);
                        match find_variant(variants@, idx as int) {
                            None => Err(CodecError::InvalidChoiceIndex(idx)),
                            Some(i) => {
                                match value_decode(*variants@[i].1, bits, end1) {
                                    Ok((w, end2)) => Ok(
                                        (AperValueModel::Choice(idx as int, Box::new(w)), end2),
                                    ),
                                    Err(e) => Err(e),
                                }
                            },
                        }
                    }
                },
            }
        },
    }
}

/// Round trip of a descriptor-driven value: decoding at the position where
/// `value_bits(t, w, pos)` was written yields the value back and leaves the
/// cursor exactly past the bits the encoder produced. This holds for every
/// valid value of every well-formed descriptor, to any CHOICE depth.
#[verifier::rlimit(100)]
pub proof fn lemma_value_round_trip(prefix: Seq<bool>, rest: Seq<bool>, t: AperType, w: AperValueModel)
    requires
        wf_type(t),
        valid_value(t, w),
    ensures
        ({
            let pos = prefix.len();
            let enc = value_bits(t, w, pos);
            let all = prefix + enc + rest;
            value_decode(t, all, pos) == Ok::<(AperValueModel, nat), CodecError>(
                (w, pos + enc.len()),
            )
        }),
    decreases w,
{
    let pos = prefix.len();
    let enc = value_bits(t, w, pos);
    let all = prefix + enc + rest;
    match (t, w) {
        (AperType::Integer { lb, ub, .. }, AperValueModel::Integer(x)) => {
            lemma_cwn_round_trip(prefix, rest, lb as int, ub as int, x);
        },
        (AperType::BitString { lb, ub, ext }, AperValueModel::BitString(b)) => {
            lemma_bitstring_round_trip(prefix, rest, lb as int, ub as int, ext, b);
        },
        (AperType::Choice { lb, ub, ext, variants }, AperValueModel::Choice(k, p)) => {
            lemma_find_variant_range(variants@, k);
            let i = find_variant(variants@, k).unwrap();
            let idx_bits = choice_idx_bits(lb as int, ub as int, k, ext, pos);
            let payload_bits = value_bits(*variants@[i].1, *p, pos + idx_bits.len());
            lemma_choice_idx_round_trip(prefix, payload_bits + rest, lb as int, ub as int, k, ext);
            assert(prefix + idx_bits + (payload_bits + rest) =~= all);
            lemma_value_round_trip(prefix + idx_bits, rest, *variants@[i].1, *p);
            assert((prefix + idx_bits) + payload_bits + rest =~= all);
        },
        _ => {},
    }
}

/// Finds the first declared variant carrying key `k`.
pub fn lookup_variant(variants: &Vec<(i64, Box<AperType>)>, k: i64) -> (r: Option<usize>)
    ensures
        match r {
            Some(i) => find_variant(variants@, k as int) == Some(i as int),
            None => find_variant(variants@, k as int) is None,
        },
{
    let mut i: usize = 0;
    while i < variants.len()
        invariant
            i <= variants@.len(),
            find_variant(variants@, k as int) == find_variant_from(variants@, k as int, i as nat),
        decreases variants@.len() - i,
    {
        if variants[i].0 == k {
            return Some(i);
        }
        i = i + 1;
    }
    None
}

/// Whether `v` lies within the declared bounds of descriptor `t`.
pub fn check_value(t: &AperType, v: &AperValue) -> (r: bool)
    ensures
        r == valid_value(*t, value_model(*v)),
    decreases *v,
{
    match (t, v) {
        (AperType::Integer { lb, ub, .. }, AperValue::Integer(x)) => *lb <= *x && *x <= *ub,
        (AperType::BitString { lb, ub, .. }, AperValue::BitString(b)) => {
            let n = b.len() as u64;
            *lb <= n && n <= *ub
        },
        (AperType::Choice { lb, ub, variants, .. }, AperValue::Choice(k, p)) => {
            if *k < *lb || *k > *ub {
                return false;
            }
            match lookup_variant(variants, *k) {
                Some(i) => {
                    proof {
                        lemma_find_variant_range(variants@, *k as int);
                    }
                    check_value(&variants[i].1, &**p)
                },
                None => false,
            }
        },
        _ => false,
    }
}

/// Decodes a value driven by its descriptor. A CHOICE decodes its index,
/// fails on an extension addition ("CHOICE additions" are not supported),
/// rejects an index naming no variant, and otherwise dispatches to the
/// matching variant's decoder.
pub fn decode_value(t: &AperType, data: &mut AperCodecData) -> (r: Result<AperValue, CodecError>)
    requires
        wf_type(*t),
        old(data).wf(),
    ensures
        final(data).wf(),
        final(data).bits() == old(data).bits(),
        value_decode(*t, old(data).bits(), old(data).offset()) matches Ok(p) ==> (r matches Ok(rv)
            && value_model(rv) == p.0 && final(data).offset() == p.1),
        value_decode(*t, old(data).bits(), old(data).offset()) matches Err(e) ==> r == Err::<
            AperValue,
            CodecError,
        >(e) && old(data).offset() <= final(data).offset(),
    decreases *t,
{
    match t {
        AperType::Integer { lb, ub, .. } => {
            match data.decode_constrained_whole_number(*lb, *ub) {
                Ok(x) => Ok(AperValue::Integer(x)),
                Err(e) => Err(e),
            }
        },
        AperType::BitString { lb, ub, ext } => {
            match data.decode_bitstring(*lb, *ub, *ext) {
                Ok(b) => Ok(AperValue::BitString(b)),
                Err(e) => Err(e),
            }
        },
        AperType::Choice { lb, ub, ext, variants } => {
            let (idx, extended) = match data.decode_choice_idx(*lb, *ub, *ext) {
                Ok(p) => p,
                Err(e) => {
                    return Err(e);
                },
            };
            if extended {
                return Err(CodecError::UnsupportedExtension);
            }
            match lookup_variant(variants, idx) {
                None => Err(CodecError::InvalidChoiceIndex(idx)),
                Some(i) => {
                    proof {
                        lemma_find_variant_range(variants@, idx as int);
                    }
                    match decode_value(&variants[i].1, data) {
                        Ok(pv) => Ok(AperValue::Choice(idx, Box::new(pv))),
                        Err(e) => Err(e),
                    }
                },
            }
        },
    }
}

/// Encodes a value known to lie within its descriptor's bounds.
fn encode_valid_value(t: &AperType, v: &AperValue, data: &mut AperCodecData)
    requires
        wf_type(*t),
        valid_value(*t, value_model(*v)),
        old(data).wf(),
    ensures
        final(data).wf(),
        final(data).offset() == old(data).offset(),
        final(data).bits() =~= old(data).bits() + value_bits(
            *t,
            value_model(*v),
            old(data).bits().len(),
        ),
    decreases *v,
{
    match (t, v) {
        (AperType::Integer { lb, ub, .. }, AperValue::Integer(x)) => {
            let res = data.encode_constrained_whole_number(*lb, *ub, *x);
            proof {
                assert(res == Ok::<(), CodecError>(()));
            }
        },
        (AperType::BitString { lb, ub, ext }, AperValue::BitString(b)) => {
            let res = data.encode_bitstring(*lb, *ub, *ext, b);
            proof {
                assert(res == Ok::<(), CodecError>(()));
            }
        },
        (AperType::Choice { lb, ub, ext, variants }, AperValue::Choice(k, p)) => {
            proof {
                lemma_find_variant_range(variants@, *k as int);
            }
            match lookup_variant(variants, *k) {
                Some(i) => {
                    let res = data.encode_choice_idx(*lb, *ub, *ext, *k);
                    proof {
                        assert(res == Ok::<(), CodecError>(()));
                    }
                    encode_valid_value(&variants[i].1, &**p, data);
                    proof {
                        assert(final(data).bits() =~= old(data).bits() + value_bits(
                            *t,
                            value_model(*v),
                            old(data).bits().len(),
                        ));
                    }
                },
                None => {
                    proof {
                        assert(false);
                    }
                },
            }
        },
        _ => {
            proof {
                assert(false);
            }
        },
    }
}

/// Encodes a value driven by its descriptor: a value outside the declared
/// bounds fails and leaves the buffer untouched, anything else appends the
/// exact pattern `value_bits` describes.
pub fn encode_value(t: &AperType, v: &AperValue, data: &mut AperCodecData) -> (r: Result<
    (),
    CodecError,
>)
    requires
        wf_type(*t),
        old(data).wf(),
    ensures
        final(data).wf(),
        final(data).offset() == old(data).offset(),
        valid_value(*t, value_model(*v)) ==> r == Ok::<(), CodecError>(()) && final(data).bits()
            =~= old(data).bits() + value_bits(*t, value_model(*v), old(data).bits().len()),
        !valid_value(*t, value_model(*v)) ==> r == Err::<(), CodecError>(
            CodecError::ValueOutsideConstraint,
        ) && final(data).bits() == old(data).bits(),
{
    if !check_value(t, v) {
        return Err(CodecError::ValueOutsideConstraint);
    }
    encode_valid_value(t, v, data);
    Ok(())
}

/// A CHOICE stream whose extension bit is set always fails to decode with
/// the unsupported-extension condition, whatever discriminant or payload
/// bits follow.
pub proof fn lemma_choice_extension_unsupported(
    bits: Seq<bool>,
    off: nat,
    lb: i64,
    ub: i64,
    variants: Vec<(i64, Box<AperType>)>,
)
    requires
        off < bits.len(),
        bits[off as int],
    ensures
        value_decode(AperType::Choice { lb, ub, ext: true, variants }, bits, off) == Err::<
            (AperValueModel, nat),
            CodecError,
        >(CodecError::UnsupportedExtension),
{
}

#[via_fn]
proof fn value_decode_decreases(t: AperType, bits: Seq<bool>, off: nat) {
    if let AperType::Choice { lb: _, ub: _, ext: _, variants } = t {
        assert forall|k: int| #[trigger] find_variant(variants@, k) is Some implies 0
            <= find_variant(variants@, k).unwrap() < variants@.len() by {
            lemma_find_variant_range(variants@, k);
        }
    }
}

} // verus!
