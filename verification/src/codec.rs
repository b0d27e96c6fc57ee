use vstd::prelude::*;

use crate::error::{IndexFileProblem, KdTreeError, Result};
use crate::perm::all_below;
use crate::dataset::KdTreeDataset;
use crate::dynamic::{lemma_leading_zeros_log2, lemma_log2_bound, log2};
use crate::tree::{bbox_shape_error, first_out_of_bounds, lemma_no_inverted, validate_bbox_shape, validate_entries, bbox_contains, dim_contains, lemma_node_range, node_hi, node_lo, node_wf, readable, Interval, KdTreeIndex, Node};

verus! {

/// The eight little-endian bytes of `x`.
pub open spec fn u64_bytes(x: u64) -> Seq<u8> {
    seq![
        x as u8,
        (x >> 8u64) as u8,
        (x >> 16u64) as u8,
        (x >> 24u64) as u8,
        (x >> 32u64) as u8,
        (x >> 40u64) as u8,
        (x >> 48u64) as u8,
        (x >> 56u64) as u8,
    ]
}

/// The number whose little-endian bytes start at `b[at]`.
pub open spec fn u64_at(b: Seq<u8>, at: int) -> u64 {
    (b[at] as u64) | ((b[at + 1] as u64) << 8u64) | ((b[at + 2] as u64) << 16u64) | ((b[at + 3] as u64) << 24u64) | ((
    b[at + 4] as u64) << 32u64) | ((b[at + 5] as u64) << 40u64) | ((b[at + 6] as u64) << 48u64) | ((b[at + 7] as u64)
        << 56u64)
}

/// The saved form of a count or point index.
pub open spec fn usize_bytes(x: usize) -> Seq<u8> {
    u64_bytes(x as u64)
}

/// The size of a coordinate, as an unsigned number.
pub open spec fn magnitude(x: i32) -> u64 {
    if x < 0 {
        (-(x as int)) as u64
    } else {
        x as u64
    }
}

/// The bit pattern of the double `(-1)^neg * m`, where `2^e <= m < 2^(e+1)`:
/// the sign bit, the exponent `e` biased by 1023 in the next eleven bits, and
/// `m` without its leading bit, aligned to the top of the 52-bit fraction.
pub open spec fn float_bits(neg: bool, m: u64, e: u64) -> u64 {
    ((if neg {
        1u64
    } else {
        0u64
    }) << 63u64) | (((1023 + e) as u64) << 52u64) | (((m - (1u64 << e)) as u64) << ((52 - e) as u64))
}

/// The bit pattern of the double that equals `x` (every `i32` is exactly a
/// double); zero is all zero bits.
#[verifier::opaque]
pub open spec fn f64_bits(x: i32) -> u64 {
    if x == 0 {
        0
    } else {
        float_bits(x < 0, magnitude(x), log2(magnitude(x) as nat) as u64)
    }
}

/// The saved form of a coordinate: the little-endian bytes of its value as
/// a double.
pub open spec fn coord_bytes(x: i32) -> Seq<u8> {
    u64_bytes(f64_bits(x))
}

/// Reading back the bytes of a number gives the number.
pub proof fn lemma_u64_round_trip(x: u64)
    ensures
        u64_at(u64_bytes(x), 0) == x,
{
    let b = u64_bytes(x);
    let (b0, b1, b2, b3, b4, b5, b6, b7) = (b[0], b[1], b[2], b[3], b[4], b[5], b[6], b[7]);
    assert((b0 as u64) | ((b1 as u64) << 8u64) | ((b2 as u64) << 16u64) | ((b3 as u64) << 24u64) | ((b4 as u64) << 32u64)
        | ((b5 as u64) << 40u64) | ((b6 as u64) << 48u64) | ((b7 as u64) << 56u64) == x) by (bit_vector)
        requires
            b0 == x as u8,
            b1 == (x >> 8u64) as u8,
            b2 == (x >> 16u64) as u8,
            b3 == (x >> 24u64) as u8,
            b4 == (x >> 32u64) as u8,
            b5 == (x >> 40u64) as u8,
            b6 == (x >> 48u64) as u8,
            b7 == (x >> 56u64) as u8,
    ;
}

/// Eight bytes are the bytes of the number they encode.
pub proof fn lemma_u64_bytes_of(b: Seq<u8>, at: int)
    requires
        0 <= at,
        at + 8 <= b.len(),
    ensures
        u64_bytes(u64_at(b, at)) == b.subrange(at, at + 8),
{
    let x = u64_at(b, at);
    let (b0, b1, b2, b3, b4, b5, b6, b7) = (b[at], b[at + 1], b[at + 2], b[at + 3], b[at + 4], b[at + 5], b[at + 6], b[at + 7]);
    assert(x as u8 == b0 && (x >> 8u64) as u8 == b1 && (x >> 16u64) as u8 == b2 && (x >> 24u64) as u8 == b3 && (x >> 32u64)
        as u8 == b4 && (x >> 40u64) as u8 == b5 && (x >> 48u64) as u8 == b6 && (x >> 56u64) as u8 == b7) by (bit_vector)
        requires
            x == (b0 as u64) | ((b1 as u64) << 8u64) | ((b2 as u64) << 16u64) | ((b3 as u64) << 24u64) | ((b4 as u64)
                << 32u64) | ((b5 as u64) << 40u64) | ((b6 as u64) << 48u64) | ((b7 as u64) << 56u64),
    ;
    assert(u64_bytes(x) =~= b.subrange(at, at + 8));
}

/// Equal bytes encode equal numbers.
pub proof fn lemma_u64_bytes_injective(x: u64, y: u64)
    requires
        u64_bytes(x) == u64_bytes(y),
    ensures
        x == y,
{
    lemma_u64_round_trip(x);
    lemma_u64_round_trip(y);
}

/// The magnitude of a nonzero coordinate has its highest bit at position
/// `log2` of it, at most 31.
proof fn lemma_high_bit(m: u64)
    requires
        1 <= m <= 0x8000_0000,
    ensures
        log2(m as nat) <= 31,
        (1u64 << (log2(m as nat) as u64)) <= m < (1u64 << ((log2(m as nat) + 1) as u64)),
{
    vstd::arithmetic::power2::lemma2_to64();
    lemma_log2_bound(m as nat, 32);
    let e = log2(m as nat);
    vstd::bits::lemma_u64_shl_is_mul(1, e as u64);
    if e + 1 < 32 {
        vstd::arithmetic::power2::lemma_pow2_strictly_increases(e + 1, 32);
    }
    vstd::bits::lemma_u64_shl_is_mul(1, (e + 1) as u64);
}

/// The fields of a double's bit pattern give back its sign, exponent and
/// magnitude.
proof fn lemma_float_fields(neg: bool, m: u64, e: u64)
    requires
        e <= 31,
        (1u64 << e) <= m < (1u64 << ((e + 1) as u64)),
    ensures
        float_bits(neg, m, e) != 0,
        (float_bits(neg, m, e) >> 63u64 == 1) == neg,
        (float_bits(neg, m, e) >> 52u64) & 0x7ffu64 == 1023 + e,
        (1u64 << e) | ((float_bits(neg, m, e) & 0xf_ffff_ffff_ffffu64) >> ((52 - e) as u64)) == m,
{
    let b = float_bits(neg, m, e);
    let s: u64 = if neg {
        1
    } else {
        0
    };
    assert(b == (s << 63u64) | (((1023 + e) as u64) << 52u64) | (((m - (1u64 << e)) as u64) << ((52 - e) as u64)));
    assert({
        let b2 = (s << 63u64) | (((1023 + e) as u64) << 52u64) | (((m - (1u64 << e)) as u64) << ((52 - e) as u64));
        &&& b2 != 0
        &&& (b2 >> 63u64 == 1) == (s == 1)
        &&& (b2 >> 52u64) & 0x7ffu64 == 1023 + e
        &&& (1u64 << e) | ((b2 & 0xf_ffff_ffff_ffffu64) >> ((52 - e) as u64)) == m
    }) by (bit_vector)
        requires
            e <= 31,
            s <= 1,
            (1u64 << e) <= m < (1u64 << ((e + 1) as u64)),
    ;
}

/// What the bit pattern of a coordinate says: zero for zero, and otherwise
/// its sign, its exponent and its magnitude, in the fields of a double.
pub proof fn lemma_f64_bits_fields(x: i32)
    ensures
        x == 0 ==> f64_bits(x) == 0,
        x != 0 ==> {
            let b = f64_bits(x);
            let e = log2(magnitude(x) as nat) as u64;
            &&& b != 0
            &&& e <= 31
            &&& (b >> 63u64 == 1) == (x < 0)
            &&& (b >> 52u64) & 0x7ffu64 == 1023 + e
            &&& (1u64 << e) | ((b & 0xf_ffff_ffff_ffffu64) >> ((52 - e) as u64)) == magnitude(x)
        },
{
    reveal(f64_bits);
    if x != 0 {
        lemma_high_bit(magnitude(x));
        lemma_float_fields(x < 0, magnitude(x), log2(magnitude(x) as nat) as u64);
    }
}

/// Distinct coordinates have distinct bit patterns.
pub proof fn lemma_f64_bits_injective(x: i32, y: i32)
    requires
        f64_bits(x) == f64_bits(y),
    ensures
        x == y,
{
    lemma_f64_bits_fields(x);
    lemma_f64_bits_fields(y);
}

/// Appends the saved form of `value`: eight little-endian bytes.
pub fn write_u64(out: &mut Vec<u8>, value: usize)
    ensures
        final(out)@ == old(out)@ + usize_bytes(value),
{
    let v = value as u64;
    out.push(v as u8);
    out.push((v >> 8u64) as u8);
    out.push((v >> 16u64) as u8);
    out.push((v >> 24u64) as u8);
    out.push((v >> 32u64) as u8);
    out.push((v >> 40u64) as u8);
    out.push((v >> 48u64) as u8);
    out.push((v >> 56u64) as u8);
    assert(out@ =~= old(out)@ + usize_bytes(value));
}

/// The eight bytes at `pos` as a number, advancing `pos` past them; fails if
/// fewer bytes remain.
pub fn read_raw_u64(bytes: &[u8], pos: &mut usize) -> (r: Result<u64>)
    requires
        *old(pos) <= bytes@.len(),
    ensures
        *old(pos) + 8 <= bytes@.len() ==> r == Ok::<u64, KdTreeError>(u64_at(bytes@, *old(pos) as int)) && *final(pos) == *old(pos) + 8,
        *old(pos) + 8 > bytes@.len() ==> r == Err::<u64, KdTreeError>(KdTreeError::InvalidIndexFile(IndexFileProblem::UnexpectedEnd))
            && *final(pos) == *old(pos),
{
    let p = *pos;
    if bytes.len() - p < 8 {
        return Err(KdTreeError::InvalidIndexFile(IndexFileProblem::UnexpectedEnd));
    }
    let v = (bytes[p] as u64) | ((bytes[p + 1] as u64) << 8u64) | ((bytes[p + 2] as u64) << 16u64) | ((bytes[p + 3] as u64)
        << 24u64) | ((bytes[p + 4] as u64) << 32u64) | ((bytes[p + 5] as u64) << 40u64) | ((bytes[p + 6] as u64) << 48u64)
        | ((bytes[p + 7] as u64) << 56u64);
    *pos = p + 8;
    Ok(v)
}

/// The count or point index at `pos`, advancing `pos` past it; fails if
/// fewer than eight bytes remain, or if the number exceeds `usize`.
pub fn read_u64(bytes: &[u8], pos: &mut usize) -> (r: Result<usize>)
    requires
        *old(pos) <= bytes@.len(),
    ensures
        *old(pos) + 8 > bytes@.len() ==> r == Err::<usize, KdTreeError>(KdTreeError::InvalidIndexFile(IndexFileProblem::UnexpectedEnd))
            && *final(pos) == *old(pos),
        *old(pos) + 8 <= bytes@.len() && u64_at(bytes@, *old(pos) as int) > usize::MAX ==> r == Err::<usize, KdTreeError>(
            KdTreeError::InvalidIndexFile(IndexFileProblem::ValueOutOfRange),
        ),
        *old(pos) + 8 <= bytes@.len() && u64_at(bytes@, *old(pos) as int) <= usize::MAX ==> r == Ok::<usize, KdTreeError>(
            u64_at(bytes@, *old(pos) as int) as usize,
        ) && *final(pos) == *old(pos) + 8,
        r matches Ok(x) ==> bytes@.subrange(*old(pos) as int, *final(pos) as int) == usize_bytes(x),
        *old(pos) <= *final(pos) <= bytes@.len(),
{
    let p = *pos;
    let v = match read_raw_u64(bytes, pos) {
        Ok(v) => v,
        Err(e) => {
            return Err(e);
        },
    };
    if v > usize::MAX as u64 {
        return Err(KdTreeError::InvalidIndexFile(IndexFileProblem::ValueOutOfRange));
    }
    proof {
        lemma_u64_bytes_of(bytes@, p as int);
    }
    Ok(v as usize)
}

/// The bit pattern of `x` as a double.
pub fn coord_float_bits(x: i32) -> (b: u64)
    ensures
        b == f64_bits(x),
{
    reveal(f64_bits);
    if x == 0 {
        return 0;
    }
    let m: u64 = if x < 0 {
        (-(x as i64)) as u64
    } else {
        x as u64
    };
    proof {
        lemma_high_bit(m);
        lemma_leading_zeros_log2(m);
    }
    let e: u64 = 63 - m.leading_zeros() as u64;
    let s: u64 = if x < 0 {
        1
    } else {
        0
    };
    (s << 63u64) | ((1023 + e) << 52u64) | ((m - (1u64 << e)) << (52 - e))
}

/// The coordinate at `pos`, advancing `pos` past it; fails if fewer than
/// eight bytes remain, or if they are not the bit pattern of an `i32` as a
/// double.
pub fn read_coord(bytes: &[u8], pos: &mut usize) -> (r: Result<i32>)
    requires
        *old(pos) <= bytes@.len(),
    ensures
        *old(pos) + 8 > bytes@.len() ==> r == Err::<i32, KdTreeError>(KdTreeError::InvalidIndexFile(IndexFileProblem::UnexpectedEnd)),
        *old(pos) + 8 <= bytes@.len() ==> {
            &&& forall|y: i32| #[trigger] f64_bits(y) == u64_at(bytes@, *old(pos) as int) ==> r == Ok::<i32, KdTreeError>(y)
                && *final(pos) == *old(pos) + 8
            &&& r is Err ==> r == Err::<i32, KdTreeError>(KdTreeError::InvalidIndexFile(IndexFileProblem::ValueOutOfRange))
        },
        r matches Ok(x) ==> bytes@.subrange(*old(pos) as int, *final(pos) as int) == coord_bytes(x) && *final(pos) == *old(pos)
            + 8,
        *old(pos) <= *final(pos) <= bytes@.len(),
{
    let p = *pos;
    let v = match read_raw_u64(bytes, pos) {
        Ok(v) => v,
        Err(e) => {
            return Err(e);
        },
    };
    let ghost y: i32 = choose|y: i32| f64_bits(y) == v;
    proof {
        lemma_u64_bytes_of(bytes@, p as int);
        if exists|z: i32| f64_bits(z) == v {
            lemma_f64_bits_fields(y);
            assert forall|z: i32| #[trigger] f64_bits(z) == v implies z == y by {
                lemma_f64_bits_injective(z, y);
            }
        }
    }
    let x: i32 = if v == 0 {
        0
    } else {
        let ex = (v >> 52u64) & 0x7ffu64;
        if ex < 1023 || ex > 1054 {
            return Err(KdTreeError::InvalidIndexFile(IndexFileProblem::ValueOutOfRange));
        }
        let e = ex - 1023;
        let m = (1u64 << e) | ((v & 0xf_ffff_ffff_ffffu64) >> (52 - e));
        if (v >> 63u64) == 1 {
            if m > 0x8000_0000 {
                return Err(KdTreeError::InvalidIndexFile(IndexFileProblem::ValueOutOfRange));
            }
            if m == 0x8000_0000 {
                i32::MIN
            } else {
                -(m as i32)
            }
        } else {
            if m > 0x7fff_ffff {
                return Err(KdTreeError::InvalidIndexFile(IndexFileProblem::ValueOutOfRange));
            }
            m as i32
        }
    };
    if coord_float_bits(x) != v {
        return Err(KdTreeError::InvalidIndexFile(IndexFileProblem::ValueOutOfRange));
    }
    Ok(x)
}

/// Appends the saved form of a coordinate.
pub fn write_coord(out: &mut Vec<u8>, value: i32)
    ensures
        final(out)@ == old(out)@ + coord_bytes(value),
{
    let v = coord_float_bits(value);
    out.push(v as u8);
    out.push((v >> 8u64) as u8);
    out.push((v >> 16u64) as u8);
    out.push((v >> 24u64) as u8);
    out.push((v >> 32u64) as u8);
    out.push((v >> 40u64) as u8);
    out.push((v >> 48u64) as u8);
    out.push((v >> 56u64) as u8);
    assert(out@ =~= old(out)@ + coord_bytes(value));
}


/// The bytes that start a saved index.
pub open spec fn index_magic() -> Seq<u8> {
    seq![78u8, 75u8, 68u8, 82u8, 83u8, 48u8, 49u8]
}

/// `piece` stands in `s` from position `at` on.
pub open spec fn occurs_at(piece: Seq<u8>, s: Seq<u8>, at: int) -> bool {
    &&& 0 <= at
    &&& at + piece.len() <= s.len()
    &&& s.subrange(at, at + piece.len()) == piece
}

/// The saved form of a list of point indices.
pub open spec fn entries_bytes(v: Seq<usize>) -> Seq<u8>
    decreases v.len(),
{
    if v.len() == 0 {
        Seq::empty()
    } else {
        entries_bytes(v.drop_last()) + usize_bytes(v.last())
    }
}

/// The saved form of a box.
pub open spec fn bbox_bytes(b: Seq<Interval>) -> Seq<u8>
    decreases b.len(),
{
    if b.len() == 0 {
        Seq::empty()
    } else {
        bbox_bytes(b.drop_last()) + coord_bytes(b.last().low) + coord_bytes(b.last().high)
    }
}

/// The saved form of a node: a tag byte, its fields, then its children.
pub open spec fn node_bytes(n: Node) -> Seq<u8>
    decreases n,
{
    match n {
        Node::Leaf { left, right } => seq![0u8] + usize_bytes(left) + usize_bytes(right),
        Node::Split { divfeat, divlow, divhigh, child1, child2 } => seq![1u8] + usize_bytes(divfeat) + coord_bytes(divlow)
            + coord_bytes(divhigh) + node_bytes(*child1) + node_bytes(*child2),
    }
}

/// The saved form of an optional root: a presence byte, then the node.
pub open spec fn root_bytes(r: Option<Box<Node>>) -> Seq<u8> {
    match r {
        None => seq![0u8],
        Some(n) => seq![1u8] + node_bytes(*n),
    }
}

/// The saved form of the fixed fields that start an index.
pub open spec fn index_header(dim: usize, size: usize, size_at_build: usize, leaf: usize, n: usize) -> Seq<u8> {
    index_magic() + usize_bytes(dim) + usize_bytes(size) + usize_bytes(size_at_build) + usize_bytes(leaf) + usize_bytes(n)
}

/// The saved form of an index of `dim` dimensions built with leaves of at
/// most `leaf` points: the header, the point indices, the box and the nodes.
pub open spec fn index_bytes(dim: usize, leaf: usize, idx: KdTreeIndex) -> Seq<u8> {
    index_header(dim, idx.size, idx.size_at_index_build, leaf, idx.v_acc.len()) + entries_bytes(idx.v_acc@) + usize_bytes(
        idx.root_bbox.len(),
    ) + bbox_bytes(idx.root_bbox@) + root_bytes(idx.root_node)
}

/// `bytes` starts with the saved form of `idx`.
pub open spec fn encodes(bytes: Seq<u8>, dim: usize, leaf: usize, idx: KdTreeIndex) -> bool {
    occurs_at(index_bytes(dim, leaf, idx), bytes, 0)
}

/// Two indices have the same contents.
pub open spec fn same_index(a: KdTreeIndex, b: KdTreeIndex) -> bool {
    &&& a.v_acc@ == b.v_acc@
    &&& a.root_node == b.root_node
    &&& a.root_bbox@ == b.root_bbox@
    &&& a.size == b.size
    &&& a.size_at_index_build == b.size_at_index_build
}

/// A concatenation stands in `s` when its parts stand there one after the other.
pub proof fn lemma_occurs_concat(a: Seq<u8>, b: Seq<u8>, s: Seq<u8>, at: int)
    ensures
        occurs_at(a + b, s, at) <==> occurs_at(a, s, at) && occurs_at(b, s, at + a.len()),
{
    let la = a.len() as int;
    let lb = b.len() as int;
    if occurs_at(a + b, s, at) {
        let whole = s.subrange(at, at + la + lb);
        assert forall|i: int| 0 <= i < la implies #[trigger] s.subrange(at, at + la)[i] == a[i] by {
            assert(whole[i] == (a + b)[i]);
        }
        assert(s.subrange(at, at + la) =~= a);
        assert forall|i: int| 0 <= i < lb implies #[trigger] s.subrange(at + la, at + la + lb)[i] == b[i] by {
            assert(whole[la + i] == (a + b)[la + i]);
        }
        assert(s.subrange(at + la, at + la + lb) =~= b);
    }
    if occurs_at(a, s, at) && occurs_at(b, s, at + a.len()) {
        assert forall|i: int| 0 <= i < la + lb implies #[trigger] s.subrange(at, at + la + lb)[i] == (a + b)[i] by {
            if i < la {
                assert(s.subrange(at, at + la)[i] == a[i]);
            } else {
                assert(s.subrange(at + la, at + la + lb)[i - la] == b[i - la]);
            }
        }
        assert(s.subrange(at, at + la + lb) =~= a + b);
    }
}

/// Eight bytes standing at `at` read back as the number they encode.
pub proof fn lemma_u64_at_piece(s: Seq<u8>, at: int, x: u64)
    requires
        occurs_at(u64_bytes(x), s, at),
    ensures
        u64_at(s, at) == x,
{
    lemma_u64_round_trip(x);
    let p = s.subrange(at, at + 8);
    assert(p[0] == s[at] && p[1] == s[at + 1] && p[2] == s[at + 2] && p[3] == s[at + 3]);
    assert(p[4] == s[at + 4] && p[5] == s[at + 5] && p[6] == s[at + 6] && p[7] == s[at + 7]);
}

/// The saved form of a list holds each entry at its place.
pub proof fn lemma_entries_bytes(v: Seq<usize>)
    ensures
        entries_bytes(v).len() == 8 * v.len(),
        forall|k: int| 0 <= k < v.len() ==> entries_bytes(v).subrange(8 * k, 8 * k + 8) == #[trigger] usize_bytes(v[k]),
    decreases v.len(),
{
    if v.len() > 0 {
        let w = v.drop_last();
        lemma_entries_bytes(w);
        let e = entries_bytes(w);
        assert forall|k: int| 0 <= k < v.len() implies entries_bytes(v).subrange(8 * k, 8 * k + 8) == #[trigger] usize_bytes(
            v[k],
        ) by {
            if k < v.len() - 1 {
                assert(entries_bytes(v).subrange(8 * k, 8 * k + 8) =~= e.subrange(8 * k, 8 * k + 8));
                assert(w[k] == v[k]);
            } else {
                assert(entries_bytes(v).subrange(8 * k, 8 * k + 8) =~= usize_bytes(v.last()));
            }
        }
    }
}

/// The saved form of a box holds each bound at its place.
pub proof fn lemma_bbox_bytes(b: Seq<Interval>)
    ensures
        bbox_bytes(b).len() == 16 * b.len(),
        forall|k: int|
            0 <= k < b.len() ==> {
                &&& bbox_bytes(b).subrange(16 * k, 16 * k + 8) == coord_bytes((#[trigger] b[k]).low)
                &&& bbox_bytes(b).subrange(16 * k + 8, 16 * k + 16) == coord_bytes(b[k].high)
            },
    decreases b.len(),
{
    if b.len() > 0 {
        let w = b.drop_last();
        lemma_bbox_bytes(w);
        let e = bbox_bytes(w);
        assert forall|k: int| 0 <= k < b.len() implies {
            &&& bbox_bytes(b).subrange(16 * k, 16 * k + 8) == coord_bytes((#[trigger] b[k]).low)
            &&& bbox_bytes(b).subrange(16 * k + 8, 16 * k + 16) == coord_bytes(b[k].high)
        } by {
            if k < b.len() - 1 {
                assert(bbox_bytes(b).subrange(16 * k, 16 * k + 8) =~= e.subrange(16 * k, 16 * k + 8));
                assert(bbox_bytes(b).subrange(16 * k + 8, 16 * k + 16) =~= e.subrange(16 * k + 8, 16 * k + 16));
                assert(w[k] == b[k]);
            } else {
                assert(bbox_bytes(b).subrange(16 * k, 16 * k + 8) =~= coord_bytes(b.last().low));
                assert(bbox_bytes(b).subrange(16 * k + 8, 16 * k + 16) =~= coord_bytes(b.last().high));
            }
        }
    }
}

/// Equal saved lists of one length are equal lists.
pub proof fn lemma_entries_injective(v: Seq<usize>, w: Seq<usize>)
    requires
        v.len() == w.len(),
        entries_bytes(v) == entries_bytes(w),
    ensures
        v == w,
{
    lemma_entries_bytes(v);
    lemma_entries_bytes(w);
    assert forall|k: int| 0 <= k < v.len() implies v[k] == w[k] by {
        assert(usize_bytes(v[k]) == usize_bytes(w[k]));
        lemma_u64_bytes_injective(v[k] as u64, w[k] as u64);
    }
    assert(v =~= w);
}

/// Equal saved boxes of one length are equal boxes.
pub proof fn lemma_bbox_injective(b: Seq<Interval>, c: Seq<Interval>)
    requires
        b.len() == c.len(),
        bbox_bytes(b) == bbox_bytes(c),
    ensures
        b == c,
{
    lemma_bbox_bytes(b);
    lemma_bbox_bytes(c);
    assert forall|k: int| 0 <= k < b.len() implies b[k] == c[k] by {
        assert(coord_bytes(b[k].low) == coord_bytes(c[k].low));
        assert(coord_bytes(b[k].high) == coord_bytes(c[k].high));
        lemma_u64_bytes_injective(f64_bits(b[k].low), f64_bits(c[k].low));
        lemma_u64_bytes_injective(f64_bits(b[k].high), f64_bits(c[k].high));
        lemma_f64_bits_injective(b[k].low, c[k].low);
        lemma_f64_bits_injective(b[k].high, c[k].high);
    }
    assert(b =~= c);
}

/// A saved node is never empty, and starts with its tag.
pub proof fn lemma_node_bytes_tag(n: Node)
    ensures
        node_bytes(n).len() >= 17,
        node_bytes(n)[0] == if n is Leaf {
            0u8
        } else {
            1u8
        },
    decreases n,
{
    match n {
        Node::Leaf { .. } => {},
        Node::Split { child1, child2, .. } => {
            lemma_node_bytes_tag(*child1);
        },
    }
}

/// What a saved node standing at `at` says: its tag and fields at their
/// places, and its children one after the other behind them.
pub proof fn lemma_node_fields(n: Node, s: Seq<u8>, at: int)
    requires
        occurs_at(node_bytes(n), s, at),
    ensures
        s[at] == node_bytes(n)[0],
        n matches Node::Leaf { left, right } ==> {
            &&& occurs_at(usize_bytes(left), s, at + 1)
            &&& occurs_at(usize_bytes(right), s, at + 9)
            &&& u64_at(s, at + 1) == left as u64
            &&& u64_at(s, at + 9) == right as u64
        },
        n matches Node::Split { divfeat, divlow, divhigh, child1, child2 } ==> {
            &&& occurs_at(usize_bytes(divfeat), s, at + 1)
            &&& occurs_at(coord_bytes(divlow), s, at + 9)
            &&& occurs_at(coord_bytes(divhigh), s, at + 17)
            &&& u64_at(s, at + 1) == divfeat as u64
            &&& u64_at(s, at + 9) == f64_bits(divlow)
            &&& u64_at(s, at + 17) == f64_bits(divhigh)
            &&& occurs_at(node_bytes(*child1), s, at + 25)
            &&& occurs_at(node_bytes(*child2), s, at + 25 + node_bytes(*child1).len())
        },
{
    lemma_node_bytes_tag(n);
    assert(s.subrange(at, at + node_bytes(n).len())[0] == s[at]);
    match n {
        Node::Leaf { left, right } => {
            lemma_occurs_concat(seq![0u8] + usize_bytes(left), usize_bytes(right), s, at);
            lemma_occurs_concat(seq![0u8], usize_bytes(left), s, at);
            lemma_u64_at_piece(s, at + 1, left as u64);
            lemma_u64_at_piece(s, at + 9, right as u64);
        },
        Node::Split { divfeat, divlow, divhigh, child1, child2 } => {
            let h = seq![1u8] + usize_bytes(divfeat) + coord_bytes(divlow) + coord_bytes(divhigh);
            lemma_occurs_concat(h + node_bytes(*child1), node_bytes(*child2), s, at);
            lemma_occurs_concat(h, node_bytes(*child1), s, at);
            lemma_occurs_concat(seq![1u8] + usize_bytes(divfeat) + coord_bytes(divlow), coord_bytes(divhigh), s, at);
            lemma_occurs_concat(seq![1u8] + usize_bytes(divfeat), coord_bytes(divlow), s, at);
            lemma_occurs_concat(seq![1u8], usize_bytes(divfeat), s, at);
            lemma_u64_at_piece(s, at + 1, divfeat as u64);
            lemma_u64_at_piece(s, at + 9, f64_bits(divlow));
            lemma_u64_at_piece(s, at + 17, f64_bits(divhigh));
        },
    }
}

/// Two saved nodes standing at one place are the same node: the saved form
/// of a node tells where it ends.
pub proof fn lemma_node_bytes_unique(n1: Node, n2: Node, s: Seq<u8>, at: int)
    requires
        occurs_at(node_bytes(n1), s, at),
        occurs_at(node_bytes(n2), s, at),
    ensures
        n1 == n2,
    decreases n1,
{
    lemma_node_bytes_tag(n1);
    lemma_node_bytes_tag(n2);
    lemma_node_fields(n1, s, at);
    lemma_node_fields(n2, s, at);
    match n1 {
        Node::Leaf { .. } => {},
        Node::Split { child1: a1, child2: b1, .. } => {
            match n2 {
                Node::Leaf { .. } => {},
                Node::Split { divlow: l2, divhigh: h2, child1: a2, child2: b2, .. } => {
                    if let Node::Split { divlow: l1, divhigh: h1, .. } = n1 {
                        lemma_f64_bits_injective(l1, l2);
                        lemma_f64_bits_injective(h1, h2);
                    }
                    lemma_node_bytes_unique(*a1, *a2, s, at + 25);
                    lemma_node_bytes_unique(*b1, *b2, s, at + 25 + node_bytes(*a1).len());
                },
            }
        },
    }
}

/// A part of a piece standing in `s` stands there too.
pub proof fn lemma_occurs_sub(piece: Seq<u8>, s: Seq<u8>, at: int, i: int, j: int)
    requires
        occurs_at(piece, s, at),
        0 <= i <= j <= piece.len(),
    ensures
        occurs_at(piece.subrange(i, j), s, at + i),
{
    assert forall|k: int| 0 <= k < j - i implies #[trigger] s.subrange(at + i, at + j)[k] == piece.subrange(i, j)[k] by {
        assert(s.subrange(at, at + piece.len())[i + k] == piece[i + k]);
    }
    assert(s.subrange(at + i, at + j) =~= piece.subrange(i, j));
}

/// `s` ends inside `piece` placed at `at`: what `s` holds from `at` on is a
/// proper beginning of `piece`.
pub open spec fn cut_short(piece: Seq<u8>, s: Seq<u8>, at: int) -> bool {
    &&& 0 <= at <= s.len() < at + piece.len()
    &&& s.subrange(at, s.len() as int) == piece.subrange(0, s.len() - at)
}

/// A part of a piece that `s` ends inside, and that `s` holds whole, stands
/// in `s`.
pub proof fn lemma_cut_window(piece: Seq<u8>, s: Seq<u8>, at: int, i: int, j: int)
    requires
        cut_short(piece, s, at),
        0 <= i <= j <= piece.len(),
        at + j <= s.len(),
    ensures
        occurs_at(piece.subrange(i, j), s, at + i),
{
    let l = s.len() - at;
    assert forall|k: int| 0 <= k < j - i implies #[trigger] s.subrange(at + i, at + j)[k] == piece.subrange(i, j)[k] by {
        assert(s.subrange(at, s.len() as int)[i + k] == piece.subrange(0, l)[i + k]);
    }
    assert(s.subrange(at + i, at + j) =~= piece.subrange(i, j));
}

/// Where `s` ends inside a concatenation: inside its first part, or after the
/// whole first part and inside the second.
pub proof fn lemma_cut_concat(a: Seq<u8>, b: Seq<u8>, s: Seq<u8>, at: int)
    requires
        cut_short(a + b, s, at),
    ensures
        s.len() < at + a.len() ==> cut_short(a, s, at),
        s.len() >= at + a.len() ==> occurs_at(a, s, at) && cut_short(b, s, at + a.len()),
{
    let l = s.len() - at;
    let ab = a + b;
    if s.len() < at + a.len() {
        assert forall|k: int| 0 <= k < l implies #[trigger] s.subrange(at, s.len() as int)[k] == a.subrange(0, l)[k] by {
            assert(ab.subrange(0, l)[k] == ab[k]);
        }
        assert(s.subrange(at, s.len() as int) =~= a.subrange(0, l));
    } else {
        lemma_cut_window(ab, s, at, 0, a.len() as int);
        assert(ab.subrange(0, a.len() as int) =~= a);
        let lb = s.len() - at - a.len();
        assert forall|k: int| 0 <= k < lb implies #[trigger] s.subrange(at + a.len(), s.len() as int)[k] == b.subrange(0, lb)[k] by {
            assert(s.subrange(at, s.len() as int)[a.len() + k] == ab.subrange(0, l)[a.len() + k]);
        }
        assert(s.subrange(at + a.len(), s.len() as int) =~= b.subrange(0, lb));
    }
}

/// What a saved node that `s` ends inside says, as far as `s` goes: its tag,
/// the fields that `s` holds whole, and where `s` ends among its children.
pub proof fn lemma_node_cut(m: Node, s: Seq<u8>, at: int)
    requires
        cut_short(node_bytes(m), s, at),
    ensures
        at < s.len() ==> s[at] == node_bytes(m)[0],
        m is Leaf ==> s.len() < at + 17,
        m matches Node::Leaf { left, .. } ==> (at + 9 <= s.len() ==> u64_at(s, at + 1) == left as u64),
        m matches Node::Split { divfeat, divlow, divhigh, child1, child2 } ==> {
            &&& at + 9 <= s.len() ==> u64_at(s, at + 1) == divfeat as u64
            &&& at + 17 <= s.len() ==> u64_at(s, at + 9) == f64_bits(divlow)
            &&& at + 25 <= s.len() ==> u64_at(s, at + 17) == f64_bits(divhigh)
            &&& at + 25 <= s.len() ==> {
                ||| cut_short(node_bytes(*child1), s, at + 25)
                ||| occurs_at(node_bytes(*child1), s, at + 25) && cut_short(
                    node_bytes(*child2),
                    s,
                    at + 25 + node_bytes(*child1).len(),
                )
            }
        },
{
    lemma_node_bytes_tag(m);
    if at < s.len() {
        lemma_cut_window(node_bytes(m), s, at, 0, 1);
        assert(s.subrange(at, at + 1)[0] == s[at]);
    }
    match m {
        Node::Leaf { left, right } => {
            lemma_cut_concat(seq![0u8] + usize_bytes(left), usize_bytes(right), s, at);
            if at + 9 <= s.len() {
                lemma_occurs_concat(seq![0u8], usize_bytes(left), s, at);
                lemma_u64_at_piece(s, at + 1, left as u64);
            }
        },
        Node::Split { divfeat, divlow, divhigh, child1, child2 } => {
            let h0 = seq![1u8];
            let h1 = h0 + usize_bytes(divfeat);
            let h2 = h1 + coord_bytes(divlow);
            let h3 = h2 + coord_bytes(divhigh);
            lemma_cut_concat(h3 + node_bytes(*child1), node_bytes(*child2), s, at);
            if s.len() < at + h3.len() + node_bytes(*child1).len() {
                lemma_cut_concat(h3, node_bytes(*child1), s, at);
            }
            if at + 9 <= s.len() {
                if s.len() < at + 25 {
                    lemma_cut_concat(h2, coord_bytes(divhigh), s, at);
                    if s.len() < at + 17 {
                        lemma_cut_concat(h1, coord_bytes(divlow), s, at);
                    } else {
                        lemma_occurs_concat(h1, coord_bytes(divlow), s, at);
                    }
                } else {
                    if s.len() >= at + h3.len() + node_bytes(*child1).len() {
                        lemma_occurs_concat(h3, node_bytes(*child1), s, at);
                    }
                    lemma_occurs_concat(h2, coord_bytes(divhigh), s, at);
                    lemma_occurs_concat(h1, coord_bytes(divlow), s, at);
                    lemma_u64_at_piece(s, at + 17, f64_bits(divhigh));
                }
                if at + 17 <= s.len() {
                    lemma_occurs_concat(h1, coord_bytes(divlow), s, at);
                    lemma_u64_at_piece(s, at + 9, f64_bits(divlow));
                }
                lemma_occurs_concat(h0, usize_bytes(divfeat), s, at);
                lemma_u64_at_piece(s, at + 1, divfeat as u64);
            }
        },
    }
}

/// Reads `n` point indices saved at `pos`, advancing `pos` past them.
fn read_entries(bytes: &[u8], pos: &mut usize, n: usize) -> (r: Result<Vec<usize>>)
    requires
        *old(pos) <= bytes@.len(),
    ensures
        *old(pos) <= *final(pos) <= bytes@.len(),
        r matches Ok(v) ==> v@.len() == n && occurs_at(entries_bytes(v@), bytes@, *old(pos) as int) && *final(pos) == *old(pos)
            + 8 * n,
        forall|w: Seq<usize>| w.len() == n && #[trigger] occurs_at(entries_bytes(w), bytes@, *old(pos) as int) ==> r is Ok,
        forall|w: Seq<usize>| w.len() == n && #[trigger] cut_short(entries_bytes(w), bytes@, *old(pos) as int) ==> r == Err::<
            Vec<usize>,
            KdTreeError,
        >(KdTreeError::InvalidIndexFile(IndexFileProblem::UnexpectedEnd)),
        r matches Err(e) ==> e == KdTreeError::InvalidIndexFile(IndexFileProblem::UnexpectedEnd) || e == KdTreeError::InvalidIndexFile(
            IndexFileProblem::ValueOutOfRange,
        ),
{
    let start = *pos;
    let mut v: Vec<usize> = Vec::new();
    let mut k: usize = 0;
    proof {
        assert(bytes@.subrange(start as int, start as int) =~= entries_bytes(v@));
    }
    while k < n
        invariant
            start == *old(pos),
            start <= bytes@.len(),
            0 <= k <= n,
            v@.len() == k,
            *pos == start + 8 * k,
            *pos <= bytes@.len(),
            occurs_at(entries_bytes(v@), bytes@, start as int),
        decreases n - k,
    {
        let ghost p = *pos;
        proof {
            lemma_entries_bytes(v@);
        }
        match read_u64(bytes, pos) {
            Ok(x) => {
                proof {
                    assert(v@.push(x).drop_last() =~= v@);
                    lemma_occurs_concat(entries_bytes(v@), usize_bytes(x), bytes@, start as int);
                }
                v.push(x);
            },
            Err(e) => {
                proof {
                    assert forall|w: Seq<usize>| w.len() == n && #[trigger] occurs_at(entries_bytes(w), bytes@, start as int) implies false by {
                        lemma_entries_bytes(w);
                        lemma_occurs_sub(entries_bytes(w), bytes@, start as int, 8 * k, 8 * k + 8);
                        assert(entries_bytes(w).subrange(8 * k, 8 * k + 8) == usize_bytes(w[k as int]));
                        lemma_u64_at_piece(bytes@, p as int, w[k as int] as u64);
                    }
                    assert forall|w: Seq<usize>| w.len() == n && #[trigger] cut_short(entries_bytes(w), bytes@, start as int) implies e
                        == KdTreeError::InvalidIndexFile(IndexFileProblem::UnexpectedEnd) by {
                        lemma_entries_bytes(w);
                        if p + 8 <= bytes@.len() {
                            lemma_cut_window(entries_bytes(w), bytes@, start as int, 8 * k, 8 * k + 8);
                            assert(entries_bytes(w).subrange(8 * k, 8 * k + 8) == usize_bytes(w[k as int]));
                            lemma_u64_at_piece(bytes@, p as int, w[k as int] as u64);
                        }
                    }
                }
                return Err(e);
            },
        }
        k = k + 1;
    }
    proof {
        assert forall|w: Seq<usize>| w.len() == n && #[trigger] cut_short(entries_bytes(w), bytes@, start as int) implies false by {
            lemma_entries_bytes(w);
        }
    }
    Ok(v)
}

/// Reads a box of `n` intervals saved at `pos`, advancing `pos` past it.
fn read_bbox(bytes: &[u8], pos: &mut usize, n: usize) -> (r: Result<Vec<Interval>>)
    requires
        *old(pos) <= bytes@.len(),
    ensures
        *old(pos) <= *final(pos) <= bytes@.len(),
        r matches Ok(b) ==> b@.len() == n && occurs_at(bbox_bytes(b@), bytes@, *old(pos) as int) && *final(pos) == *old(pos)
            + 16 * n,
        forall|c: Seq<Interval>| c.len() == n && #[trigger] occurs_at(bbox_bytes(c), bytes@, *old(pos) as int) ==> r is Ok,
        forall|c: Seq<Interval>| c.len() == n && #[trigger] cut_short(bbox_bytes(c), bytes@, *old(pos) as int) ==> r == Err::<
            Vec<Interval>,
            KdTreeError,
        >(KdTreeError::InvalidIndexFile(IndexFileProblem::UnexpectedEnd)),
        r matches Err(e) ==> e == KdTreeError::InvalidIndexFile(IndexFileProblem::UnexpectedEnd) || e == KdTreeError::InvalidIndexFile(
            IndexFileProblem::ValueOutOfRange,
        ),
{
    let start = *pos;
    let mut b: Vec<Interval> = Vec::new();
    let mut k: usize = 0;
    proof {
        assert(bytes@.subrange(start as int, start as int) =~= bbox_bytes(b@));
    }
    while k < n
        invariant
            start == *old(pos),
            start <= bytes@.len(),
            0 <= k <= n,
            b@.len() == k,
            *pos == start + 16 * k,
            *pos <= bytes@.len(),
            occurs_at(bbox_bytes(b@), bytes@, start as int),
        decreases n - k,
    {
        let ghost p = *pos;
        proof {
            lemma_bbox_bytes(b@);
        }
        let low = match read_coord(bytes, pos) {
            Ok(x) => x,
            Err(e) => {
                proof {
                    assert forall|c: Seq<Interval>| c.len() == n && #[trigger] occurs_at(bbox_bytes(c), bytes@, start as int) implies false by {
                        lemma_bbox_bytes(c);
                        lemma_occurs_sub(bbox_bytes(c), bytes@, start as int, 16 * k, 16 * k + 8);
                        assert(bbox_bytes(c).subrange(16 * k, 16 * k + 8) == coord_bytes(c[k as int].low));
                        lemma_u64_at_piece(bytes@, p as int, f64_bits(c[k as int].low));
                    }
                    assert forall|c: Seq<Interval>| c.len() == n && #[trigger] cut_short(bbox_bytes(c), bytes@, start as int) implies e
                        == KdTreeError::InvalidIndexFile(IndexFileProblem::UnexpectedEnd) by {
                        lemma_bbox_bytes(c);
                        if p + 8 <= bytes@.len() {
                            lemma_cut_window(bbox_bytes(c), bytes@, start as int, 16 * k, 16 * k + 8);
                            assert(bbox_bytes(c).subrange(16 * k, 16 * k + 8) == coord_bytes(c[k as int].low));
                            lemma_u64_at_piece(bytes@, p as int, f64_bits(c[k as int].low));
                        }
                    }
                }
                return Err(e);
            },
        };
        let high = match read_coord(bytes, pos) {
            Ok(x) => x,
            Err(e) => {
                proof {
                    assert forall|c: Seq<Interval>| c.len() == n && #[trigger] occurs_at(bbox_bytes(c), bytes@, start as int) implies false by {
                        lemma_bbox_bytes(c);
                        lemma_occurs_sub(bbox_bytes(c), bytes@, start as int, 16 * k + 8, 16 * k + 16);
                        assert(bbox_bytes(c).subrange(16 * k + 8, 16 * k + 16) == coord_bytes(c[k as int].high));
                        lemma_u64_at_piece(bytes@, p + 8, f64_bits(c[k as int].high));
                    }
                    assert forall|c: Seq<Interval>| c.len() == n && #[trigger] cut_short(bbox_bytes(c), bytes@, start as int) implies e
                        == KdTreeError::InvalidIndexFile(IndexFileProblem::UnexpectedEnd) by {
                        lemma_bbox_bytes(c);
                        if p + 16 <= bytes@.len() {
                            lemma_cut_window(bbox_bytes(c), bytes@, start as int, 16 * k + 8, 16 * k + 16);
                            assert(bbox_bytes(c).subrange(16 * k + 8, 16 * k + 16) == coord_bytes(c[k as int].high));
                            lemma_u64_at_piece(bytes@, p + 8, f64_bits(c[k as int].high));
                        }
                    }
                }
                return Err(e);
            },
        };
        proof {
            let iv = Interval { low, high };
            assert(b@.push(iv).drop_last() =~= b@);
            lemma_occurs_concat(bbox_bytes(b@), coord_bytes(low), bytes@, start as int);
            lemma_occurs_concat(bbox_bytes(b@) + coord_bytes(low), coord_bytes(high), bytes@, start as int);
        }
        b.push(Interval { low, high });
        k = k + 1;
    }
    proof {
        assert forall|c: Seq<Interval>| c.len() == n && #[trigger] cut_short(bbox_bytes(c), bytes@, start as int) implies false by {
            lemma_bbox_bytes(c);
        }
    }
    Ok(b)
}

/// Reads a node saved at `pos`, advancing `pos` past it.
fn read_node(bytes: &[u8], pos: &mut usize) -> (r: Result<Box<Node>>)
    requires
        *old(pos) <= bytes@.len(),
    ensures
        *old(pos) <= *final(pos) <= bytes@.len(),
        r matches Ok(n) ==> occurs_at(node_bytes(*n), bytes@, *old(pos) as int) && *final(pos) == *old(pos) + node_bytes(
            *n,
        ).len(),
        forall|n: Node| #[trigger] occurs_at(node_bytes(n), bytes@, *old(pos) as int) ==> r is Ok,
        r matches Err(e) ==> e is InvalidIndexFile,
        *old(pos) < bytes@.len() && bytes@[*old(pos) as int] > 1 ==> r == Err::<Box<Node>, KdTreeError>(
            KdTreeError::InvalidIndexFile(IndexFileProblem::InvalidNodeTag { tag: bytes@[*old(pos) as int] }),
        ),
        forall|m: Node| #[trigger] cut_short(node_bytes(m), bytes@, *old(pos) as int) ==> r == Err::<Box<Node>, KdTreeError>(
            KdTreeError::InvalidIndexFile(IndexFileProblem::UnexpectedEnd),
        ),
    decreases bytes@.len() - *old(pos),
{
    let p = *pos;
    if p >= bytes.len() {
        proof {
            assert forall|n: Node| #[trigger] occurs_at(node_bytes(n), bytes@, p as int) implies false by {
                lemma_node_bytes_tag(n);
            }
        }
        return Err(KdTreeError::InvalidIndexFile(IndexFileProblem::UnexpectedEnd));
    }
    let tag = bytes[p];
    *pos = p + 1;
    if tag == 0 {
        let left = match read_u64(bytes, pos) {
            Ok(x) => x,
            Err(e) => {
                proof {
                    assert forall|n: Node| #[trigger] occurs_at(node_bytes(n), bytes@, p as int) implies false by {
                        lemma_node_bytes_tag(n);
                        lemma_node_fields(n, bytes@, p as int);
                    }
                    assert forall|m: Node| #[trigger] cut_short(node_bytes(m), bytes@, p as int) implies e == KdTreeError::InvalidIndexFile(IndexFileProblem::UnexpectedEnd) by {
                        lemma_node_bytes_tag(m);
                        lemma_node_cut(m, bytes@, p as int);
                    }
                }
                return Err(e);
            },
        };
        let right = match read_u64(bytes, pos) {
            Ok(x) => x,
            Err(e) => {
                proof {
                    assert forall|n: Node| #[trigger] occurs_at(node_bytes(n), bytes@, p as int) implies false by {
                        lemma_node_bytes_tag(n);
                        lemma_node_fields(n, bytes@, p as int);
                    }
                    assert forall|m: Node| #[trigger] cut_short(node_bytes(m), bytes@, p as int) implies e == KdTreeError::InvalidIndexFile(IndexFileProblem::UnexpectedEnd) by {
                        lemma_node_bytes_tag(m);
                        lemma_node_cut(m, bytes@, p as int);
                    }
                }
                return Err(e);
            },
        };
        let node = Node::Leaf { left, right };
        proof {
            assert forall|m: Node| #[trigger] cut_short(node_bytes(m), bytes@, p as int) implies false by {
                lemma_node_bytes_tag(m);
                lemma_node_cut(m, bytes@, p as int);
            }
            assert(bytes@.subrange(p as int, p + 1) =~= seq![0u8]);
            lemma_occurs_concat(seq![0u8], usize_bytes(left), bytes@, p as int);
            lemma_occurs_concat(seq![0u8] + usize_bytes(left), usize_bytes(right), bytes@, p as int);
        }
        Ok(Box::new(node))
    } else if tag == 1 {
        let divfeat = match read_u64(bytes, pos) {
            Ok(x) => x,
            Err(e) => {
                proof {
                    assert forall|n: Node| #[trigger] occurs_at(node_bytes(n), bytes@, p as int) implies false by {
                        lemma_node_bytes_tag(n);
                        lemma_node_fields(n, bytes@, p as int);
                    }
                    assert forall|m: Node| #[trigger] cut_short(node_bytes(m), bytes@, p as int) implies e == KdTreeError::InvalidIndexFile(IndexFileProblem::UnexpectedEnd) by {
                        lemma_node_bytes_tag(m);
                        lemma_node_cut(m, bytes@, p as int);
                    }
                }
                return Err(e);
            },
        };
        let divlow = match read_coord(bytes, pos) {
            Ok(x) => x,
            Err(e) => {
                proof {
                    assert forall|n: Node| #[trigger] occurs_at(node_bytes(n), bytes@, p as int) implies false by {
                        lemma_node_bytes_tag(n);
                        lemma_node_fields(n, bytes@, p as int);
                    }
                    assert forall|m: Node| #[trigger] cut_short(node_bytes(m), bytes@, p as int) implies e == KdTreeError::InvalidIndexFile(IndexFileProblem::UnexpectedEnd) by {
                        lemma_node_bytes_tag(m);
                        lemma_node_cut(m, bytes@, p as int);
                    }
                }
                return Err(e);
            },
        };
        let divhigh = match read_coord(bytes, pos) {
            Ok(x) => x,
            Err(e) => {
                proof {
                    assert forall|n: Node| #[trigger] occurs_at(node_bytes(n), bytes@, p as int) implies false by {
                        lemma_node_bytes_tag(n);
                        lemma_node_fields(n, bytes@, p as int);
                    }
                    assert forall|m: Node| #[trigger] cut_short(node_bytes(m), bytes@, p as int) implies e == KdTreeError::InvalidIndexFile(IndexFileProblem::UnexpectedEnd) by {
                        lemma_node_bytes_tag(m);
                        lemma_node_cut(m, bytes@, p as int);
                    }
                }
                return Err(e);
            },
        };
        let ghost p1 = *pos;
        let child1 = match read_node(bytes, pos) {
            Ok(c) => c,
            Err(e) => {
                proof {
                    assert forall|n: Node| #[trigger] occurs_at(node_bytes(n), bytes@, p as int) implies false by {
                        lemma_node_bytes_tag(n);
                        lemma_node_fields(n, bytes@, p as int);
                        if let Node::Split { child1: c1, .. } = n {
                            assert(occurs_at(node_bytes(*c1), bytes@, p1 as int));
                        }
                    }
                    assert forall|m: Node| #[trigger] cut_short(node_bytes(m), bytes@, p as int) implies e == KdTreeError::InvalidIndexFile(IndexFileProblem::UnexpectedEnd) by {
                        lemma_node_bytes_tag(m);
                        lemma_node_cut(m, bytes@, p as int);
                        if let Node::Split { child1: c1, .. } = m {
                            if occurs_at(node_bytes(*c1), bytes@, p1 as int) {
                                assert(false);
                            }
                        }
                    }
                }
                return Err(e);
            },
        };
        let ghost p2 = *pos;
        let child2 = match read_node(bytes, pos) {
            Ok(c) => c,
            Err(e) => {
                proof {
                    assert forall|n: Node| #[trigger] occurs_at(node_bytes(n), bytes@, p as int) implies false by {
                        lemma_node_bytes_tag(n);
                        lemma_node_fields(n, bytes@, p as int);
                        if let Node::Split { child1: c1, child2: c2, .. } = n {
                            lemma_node_bytes_unique(*c1, *child1, bytes@, p1 as int);
                            assert(occurs_at(node_bytes(*c2), bytes@, p2 as int));
                        }
                    }
                    assert forall|m: Node| #[trigger] cut_short(node_bytes(m), bytes@, p as int) implies e == KdTreeError::InvalidIndexFile(IndexFileProblem::UnexpectedEnd) by {
                        lemma_node_bytes_tag(m);
                        lemma_node_cut(m, bytes@, p as int);
                        if let Node::Split { child1: c1, child2: c2, .. } = m {
                            if cut_short(node_bytes(*c1), bytes@, p1 as int) {
                                assert(false);
                            } else {
                                lemma_node_bytes_unique(*c1, *child1, bytes@, p1 as int);
                                assert(cut_short(node_bytes(*c2), bytes@, p2 as int));
                            }
                        }
                    }
                }
                return Err(e);
            },
        };
        let node = Node::Split { divfeat, divlow, divhigh, child1, child2 };
        proof {
            assert forall|m: Node| #[trigger] cut_short(node_bytes(m), bytes@, p as int) implies false by {
                lemma_node_bytes_tag(m);
                lemma_node_cut(m, bytes@, p as int);
                if let Node::Split { child1: c1, child2: c2, .. } = m {
                    if cut_short(node_bytes(*c1), bytes@, p1 as int) {
                        assert(false);
                    } else {
                        lemma_node_bytes_unique(*c1, *child1, bytes@, p1 as int);
                        assert(cut_short(node_bytes(*c2), bytes@, p2 as int));
                    }
                }
            }
            assert(bytes@.subrange(p as int, p + 1) =~= seq![1u8]);
            let h0 = seq![1u8];
            let h1 = h0 + usize_bytes(divfeat);
            let h2 = h1 + coord_bytes(divlow);
            let h3 = h2 + coord_bytes(divhigh);
            lemma_occurs_concat(h0, usize_bytes(divfeat), bytes@, p as int);
            lemma_occurs_concat(h1, coord_bytes(divlow), bytes@, p as int);
            lemma_occurs_concat(h2, coord_bytes(divhigh), bytes@, p as int);
            lemma_occurs_concat(h3, node_bytes(*child1), bytes@, p as int);
            lemma_occurs_concat(h3 + node_bytes(*child1), node_bytes(*child2), bytes@, p as int);
        }
        Ok(Box::new(node))
    } else {
        proof {
            assert forall|n: Node| #[trigger] occurs_at(node_bytes(n), bytes@, p as int) implies false by {
                lemma_node_bytes_tag(n);
                lemma_node_fields(n, bytes@, p as int);
            }
            assert forall|m: Node| #[trigger] cut_short(node_bytes(m), bytes@, p as int) implies false by {
                lemma_node_bytes_tag(m);
                lemma_node_cut(m, bytes@, p as int);
            }
        }
        Err(KdTreeError::InvalidIndexFile(IndexFileProblem::InvalidNodeTag { tag }))
    }
}

/// Whether the entries of `v`, all below `count`, are distinct.
fn entries_distinct(v: &Vec<usize>, count: usize) -> (b: bool)
    requires
        all_below(v@, count as nat),
    ensures
        b == v@.no_duplicates(),
{
    let mut seen: Vec<bool> = Vec::new();
    let mut i: usize = 0;
    while i < count
        invariant
            0 <= i <= count,
            seen@.len() == i,
            forall|c: int| 0 <= c < i ==> !(#[trigger] seen@[c]),
        decreases count - i,
    {
        seen.push(false);
        i = i + 1;
    }
    let mut k: usize = 0;
    while k < v.len()
        invariant
            0 <= k <= v@.len(),
            all_below(v@, count as nat),
            seen@.len() == count,
            forall|c: int| 0 <= c < count ==> (#[trigger] seen@[c] <==> exists|j: int| 0 <= j < k && v@[j] as int == c),
            v@.take(k as int).no_duplicates(),
        decreases v@.len() - k,
    {
        let c = v[k];
        if seen[c] {
            proof {
                let j = choose|j: int| 0 <= j < k && v@[j] as int == c as int;
                assert(v@[j] == v@[k as int]);
            }
            return false;
        }
        seen.set(c, true);
        proof {
            let t = v@.take(k + 1);
            assert forall|i: int, j: int| 0 <= i < k + 1 && 0 <= j < k + 1 && i != j implies #[trigger] t[i] != #[trigger] t[j] by {
                if i < k && j < k {
                    assert(v@.take(k as int)[i] != v@.take(k as int)[j]);
                } else if i == k {
                    if v@[j] == v@[i] {
                        assert(seen@[c as int]);
                    }
                } else {
                    if v@[j] == v@[i] {
                        assert(seen@[c as int]);
                    }
                }
            }
            assert forall|d: int| 0 <= d < count implies (#[trigger] seen@[d] <==> exists|j: int| 0 <= j < k + 1 && v@[j] as int == d) by {
                if d == c as int {
                    assert(v@[k as int] as int == d);
                } else if seen@[d] {
                    let j = choose|j: int| 0 <= j < k && v@[j] as int == d;
                    assert(0 <= j < k + 1 && v@[j] as int == d);
                }
            }
        }
        k = k + 1;
    }
    proof {
        assert(v@.take(k as int) =~= v@);
    }
    true
}

/// The range of entries that `node` covers.
fn node_bounds(node: &Node) -> (r: (usize, usize))
    ensures
        r.0 == node_lo(*node),
        r.1 == node_hi(*node),
    decreases node,
{
    match node {
        Node::Leaf { left, right } => (*left, *right),
        Node::Split { child1, child2, .. } => (node_bounds(&**child1).0, node_bounds(&**child2).1),
    }
}

/// Whether `node` is a valid subtree over `v` for the points of `dataset`.
#[verifier::loop_isolation(false)]
fn check_node<D: KdTreeDataset>(dataset: &D, v: &Vec<usize>, dim: usize, node: &Node) -> (b: bool)
    requires
        readable(dataset, v@, dim as nat),
    ensures
        b == node_wf(*node, v@, dataset, dim as nat),
    decreases node,
{
    match node {
        Node::Leaf { left, right } => *left <= *right && *right <= v.len(),
        Node::Split { divfeat, divlow, divhigh, child1, child2 } => {
            if *divfeat >= dim || *divlow > *divhigh {
                return false;
            }
            if !check_node(dataset, v, dim, &**child1) {
                return false;
            }
            if !check_node(dataset, v, dim, &**child2) {
                return false;
            }
            let (lo1, hi1) = node_bounds(&**child1);
            let (lo2, hi2) = node_bounds(&**child2);
            if hi1 != lo2 {
                return false;
            }
            proof {
                lemma_node_range(**child1, v@, dataset, dim as nat);
                lemma_node_range(**child2, v@, dataset, dim as nat);
            }
            let f = *divfeat;
            let mut k = lo1;
            while k < hi1
                invariant
                    lo1 <= k <= hi1 <= v@.len(),
                    f < dim,
                    readable(dataset, v@, dim as nat),
                    forall|j: int| lo1 <= j < k ==> dataset.spec_pt(#[trigger] v@[j] as int, f as int) <= *divlow,
                decreases hi1 - k,
            {
                if dataset.kdtree_get_pt(v[k], f) > *divlow {
                    proof {
                        assert(node_lo(**child1) <= k < node_hi(**child1));
                        assert(dataset.spec_pt(v@[k as int] as int, f as int) > *divlow);
                    }
                    return false;
                }
                k = k + 1;
            }
            let mut k = lo2;
            while k < hi2
                invariant
                    lo2 <= k <= hi2 <= v@.len(),
                    f < dim,
                    readable(dataset, v@, dim as nat),
                    forall|j: int| lo2 <= j < k ==> dataset.spec_pt(#[trigger] v@[j] as int, f as int) >= *divhigh,
                decreases hi2 - k,
            {
                if dataset.kdtree_get_pt(v[k], f) < *divhigh {
                    proof {
                        assert(node_lo(**child2) <= k < node_hi(**child2));
                        assert(dataset.spec_pt(v@[k as int] as int, f as int) < *divhigh);
                    }
                    return false;
                }
                k = k + 1;
            }
            true
        },
    }
}

/// Whether every point of `v` lies inside `bbox`.
fn check_bbox_contains<D: KdTreeDataset>(dataset: &D, v: &Vec<usize>, bbox: &Vec<Interval>, dim: usize) -> (b: bool)
    requires
        readable(dataset, v@, dim as nat),
        bbox@.len() == dim,
    ensures
        b == bbox_contains(bbox@, v@, dataset, 0, v@.len() as int, dim as nat),
{
    let mut d: usize = 0;
    while d < dim
        invariant
            0 <= d <= dim,
            bbox@.len() == dim,
            readable(dataset, v@, dim as nat),
            forall|e: int| 0 <= e < d ==> #[trigger] dim_contains(bbox@[e], v@, dataset, 0, v@.len() as int, e),
        decreases dim - d,
    {
        let mut k: usize = 0;
        while k < v.len()
            invariant
                0 <= k <= v@.len(),
                d < dim,
                bbox@.len() == dim,
                readable(dataset, v@, dim as nat),
                forall|j: int| 0 <= j < k ==> bbox@[d as int].low <= #[trigger] dataset.spec_pt(v@[j] as int, d as int) <= bbox@[d as int].high,
            decreases v@.len() - k,
        {
            let x = dataset.kdtree_get_pt(v[k], d);
            if x < bbox[d].low || x > bbox[d].high {
                proof {
                    assert(!dim_contains(bbox@[d as int], v@, dataset, 0, v@.len() as int, d as int));
                }
                return false;
            }
            k = k + 1;
        }
        proof {
            assert(dim_contains(bbox@[d as int], v@, dataset, 0, v@.len() as int, d as int));
        }
        d = d + 1;
    }
    true
}

/// What a saved index standing at the start of `bytes` says, field by field.
pub proof fn lemma_index_pieces(bytes: Seq<u8>, dim: usize, leaf: usize, idx: KdTreeIndex)
    requires
        encodes(bytes, dim, leaf, idx),
    ensures
        bytes.len() >= 47,
        bytes.subrange(0, 7) == index_magic(),
        u64_at(bytes, 7) == dim as u64,
        u64_at(bytes, 15) == idx.size as u64,
        u64_at(bytes, 23) == idx.size_at_index_build as u64,
        u64_at(bytes, 31) == leaf as u64,
        u64_at(bytes, 39) == idx.v_acc.len() as u64,
        occurs_at(entries_bytes(idx.v_acc@), bytes, 47),
        47 + 8 * idx.v_acc@.len() + 8 <= bytes.len(),
        u64_at(bytes, 47 + 8 * idx.v_acc@.len() as int) == idx.root_bbox.len() as u64,
        occurs_at(bbox_bytes(idx.root_bbox@), bytes, 55 + 8 * idx.v_acc@.len() as int),
        occurs_at(root_bytes(idx.root_node), bytes, 55 + 8 * idx.v_acc@.len() as int + 16 * idx.root_bbox@.len() as int),
{
    let n = idx.v_acc.len();
    let bl = idx.root_bbox.len();
    let m = index_magic();
    let h1 = m + usize_bytes(dim);
    let h2 = h1 + usize_bytes(idx.size);
    let h3 = h2 + usize_bytes(idx.size_at_index_build);
    let h4 = h3 + usize_bytes(leaf);
    let h5 = h4 + usize_bytes(n);
    let e = h5 + entries_bytes(idx.v_acc@);
    let f = e + usize_bytes(bl);
    let g = f + bbox_bytes(idx.root_bbox@);
    lemma_entries_bytes(idx.v_acc@);
    lemma_bbox_bytes(idx.root_bbox@);
    lemma_occurs_concat(g, root_bytes(idx.root_node), bytes, 0);
    lemma_occurs_concat(f, bbox_bytes(idx.root_bbox@), bytes, 0);
    lemma_occurs_concat(e, usize_bytes(bl), bytes, 0);
    lemma_occurs_concat(h5, entries_bytes(idx.v_acc@), bytes, 0);
    lemma_occurs_concat(h4, usize_bytes(n), bytes, 0);
    lemma_occurs_concat(h3, usize_bytes(leaf), bytes, 0);
    lemma_occurs_concat(h2, usize_bytes(idx.size_at_index_build), bytes, 0);
    lemma_occurs_concat(h1, usize_bytes(idx.size), bytes, 0);
    lemma_occurs_concat(m, usize_bytes(dim), bytes, 0);
    lemma_u64_at_piece(bytes, 7, dim as u64);
    lemma_u64_at_piece(bytes, 15, idx.size as u64);
    lemma_u64_at_piece(bytes, 23, idx.size_at_index_build as u64);
    lemma_u64_at_piece(bytes, 31, leaf as u64);
    lemma_u64_at_piece(bytes, 39, n as u64);
    lemma_u64_at_piece(bytes, 47 + 8 * idx.v_acc@.len() as int, bl as u64);
}

/// The bytes that `s` holds of a piece standing in a longer sequence `whole`
/// that `s` ends inside: the piece whole if `s` reaches past it, and else
/// cut short.
proof fn lemma_cut_piece(whole: Seq<u8>, s: Seq<u8>, piece: Seq<u8>, at: int)
    requires
        cut_short(whole, s, 0),
        occurs_at(piece, whole, at),
    ensures
        at + piece.len() <= s.len() ==> occurs_at(piece, s, at),
        at <= s.len() < at + piece.len() ==> cut_short(piece, s, at),
{
    let l = s.len() as int;
    assert forall|i: int| 0 <= i < l implies s[i] == #[trigger] whole[i] by {
        assert(s.subrange(0, l)[i] == whole.subrange(0, l)[i]);
    }
    if at + piece.len() <= l {
        assert forall|k: int| 0 <= k < piece.len() implies #[trigger] s.subrange(at, at + piece.len())[k] == piece[k] by {
            assert(whole.subrange(at, at + piece.len())[k] == piece[k]);
            assert(s[at + k] == whole[at + k]);
        }
        assert(s.subrange(at, at + piece.len()) =~= piece);
    } else if at <= l {
        assert forall|k: int| 0 <= k < l - at implies #[trigger] s.subrange(at, l)[k] == piece.subrange(0, l - at)[k] by {
            assert(whole.subrange(at, at + piece.len())[k] == piece[k]);
            assert(s[at + k] == whole[at + k]);
        }
        assert(s.subrange(at, l) =~= piece.subrange(0, l - at));
    }
}

/// A number that both `whole` and bytes that end inside it hold is the same
/// in both.
proof fn lemma_cut_u64(whole: Seq<u8>, s: Seq<u8>, at: int)
    requires
        cut_short(whole, s, 0),
        0 <= at,
        at + 8 <= s.len(),
    ensures
        u64_at(s, at) == u64_at(whole, at),
{
    lemma_u64_bytes_of(whole, at);
    assert(occurs_at(whole.subrange(at, at + 8), whole, at));
    lemma_cut_piece(whole, s, whole.subrange(at, at + 8), at);
    lemma_u64_at_piece(s, at, u64_at(whole, at));
}

/// What bytes that end inside the saved form of an index hold of it: each
/// header field, box length and byte that they reach, each list that they
/// hold whole, and where they end.
#[verifier::spinoff_prover]
pub proof fn lemma_index_cut(bytes: Seq<u8>, dim: usize, leaf: usize, idx: KdTreeIndex)
    requires
        cut_short(index_bytes(dim, leaf, idx), bytes, 0),
    ensures
        bytes.len() >= 7 ==> bytes.subrange(0, 7) == index_magic(),
        bytes.len() >= 15 ==> u64_at(bytes, 7) == dim as u64,
        bytes.len() >= 23 ==> u64_at(bytes, 15) == idx.size as u64,
        bytes.len() >= 31 ==> u64_at(bytes, 23) == idx.size_at_index_build as u64,
        bytes.len() >= 39 ==> u64_at(bytes, 31) == leaf as u64,
        bytes.len() >= 47 ==> u64_at(bytes, 39) == idx.v_acc.len() as u64,
        bytes.len() >= 47 + 8 * idx.v_acc@.len() ==> occurs_at(entries_bytes(idx.v_acc@), bytes, 47),
        47 <= bytes.len() < 47 + 8 * idx.v_acc@.len() ==> cut_short(entries_bytes(idx.v_acc@), bytes, 47),
        bytes.len() >= 55 + 8 * idx.v_acc@.len() ==> u64_at(bytes, 47 + 8 * idx.v_acc@.len() as int) == idx.root_bbox.len() as u64,
        bytes.len() >= 55 + 8 * idx.v_acc@.len() + 16 * idx.root_bbox@.len() ==> occurs_at(
            bbox_bytes(idx.root_bbox@),
            bytes,
            55 + 8 * idx.v_acc@.len() as int,
        ),
        55 + 8 * idx.v_acc@.len() <= bytes.len() < 55 + 8 * idx.v_acc@.len() + 16 * idx.root_bbox@.len() ==> cut_short(
            bbox_bytes(idx.root_bbox@),
            bytes,
            55 + 8 * idx.v_acc@.len() as int,
        ),
        bytes.len() > 55 + 8 * idx.v_acc@.len() + 16 * idx.root_bbox@.len() ==> {
            &&& idx.root_node is Some
            &&& bytes[55 + 8 * idx.v_acc@.len() + 16 * idx.root_bbox@.len() as int] == 1
            &&& cut_short(node_bytes(*idx.root_node->0), bytes, 56 + 8 * idx.v_acc@.len() + 16 * idx.root_bbox@.len() as int)
        },
{
    let whole = index_bytes(dim, leaf, idx);
    assert(encodes(whole, dim, leaf, idx)) by {
        assert(whole.subrange(0, whole.len() as int) =~= whole);
    }
    lemma_index_pieces(whole, dim, leaf, idx);
    lemma_index_len(dim, leaf, idx);
    lemma_index_cut_parts(whole, bytes, dim, leaf, idx);
}

/// The length of the saved form of an index.
proof fn lemma_index_len(dim: usize, leaf: usize, idx: KdTreeIndex)
    ensures
        index_bytes(dim, leaf, idx).len() == 55 + 8 * idx.v_acc@.len() + 16 * idx.root_bbox@.len() + root_bytes(
            idx.root_node,
        ).len(),
        entries_bytes(idx.v_acc@).len() == 8 * idx.v_acc@.len(),
        bbox_bytes(idx.root_bbox@).len() == 16 * idx.root_bbox@.len(),
{
    lemma_entries_bytes(idx.v_acc@);
    lemma_bbox_bytes(idx.root_bbox@);
}

/// `lemma_index_cut`, over the facts it needs of the saved form.
#[verifier::spinoff_prover]
proof fn lemma_index_cut_parts(whole: Seq<u8>, bytes: Seq<u8>, dim: usize, leaf: usize, idx: KdTreeIndex)
    requires
        cut_short(whole, bytes, 0),
        whole.len() >= 47,
        whole.subrange(0, 7) == index_magic(),
        u64_at(whole, 7) == dim as u64,
        u64_at(whole, 15) == idx.size as u64,
        u64_at(whole, 23) == idx.size_at_index_build as u64,
        u64_at(whole, 31) == leaf as u64,
        u64_at(whole, 39) == idx.v_acc.len() as u64,
        occurs_at(entries_bytes(idx.v_acc@), whole, 47),
        u64_at(whole, 47 + 8 * idx.v_acc@.len() as int) == idx.root_bbox.len() as u64,
        occurs_at(bbox_bytes(idx.root_bbox@), whole, 55 + 8 * idx.v_acc@.len() as int),
        occurs_at(root_bytes(idx.root_node), whole, 55 + 8 * idx.v_acc@.len() as int + 16 * idx.root_bbox@.len() as int),
        whole.len() == 55 + 8 * idx.v_acc@.len() + 16 * idx.root_bbox@.len() + root_bytes(idx.root_node).len(),
        entries_bytes(idx.v_acc@).len() == 8 * idx.v_acc@.len(),
        bbox_bytes(idx.root_bbox@).len() == 16 * idx.root_bbox@.len(),
    ensures
        bytes.len() >= 7 ==> bytes.subrange(0, 7) == index_magic(),
        bytes.len() >= 15 ==> u64_at(bytes, 7) == dim as u64,
        bytes.len() >= 23 ==> u64_at(bytes, 15) == idx.size as u64,
        bytes.len() >= 31 ==> u64_at(bytes, 23) == idx.size_at_index_build as u64,
        bytes.len() >= 39 ==> u64_at(bytes, 31) == leaf as u64,
        bytes.len() >= 47 ==> u64_at(bytes, 39) == idx.v_acc.len() as u64,
        bytes.len() >= 47 + 8 * idx.v_acc@.len() ==> occurs_at(entries_bytes(idx.v_acc@), bytes, 47),
        47 <= bytes.len() < 47 + 8 * idx.v_acc@.len() ==> cut_short(entries_bytes(idx.v_acc@), bytes, 47),
        bytes.len() >= 55 + 8 * idx.v_acc@.len() ==> u64_at(bytes, 47 + 8 * idx.v_acc@.len() as int) == idx.root_bbox.len() as u64,
        bytes.len() >= 55 + 8 * idx.v_acc@.len() + 16 * idx.root_bbox@.len() ==> occurs_at(
            bbox_bytes(idx.root_bbox@),
            bytes,
            55 + 8 * idx.v_acc@.len() as int,
        ),
        55 + 8 * idx.v_acc@.len() <= bytes.len() < 55 + 8 * idx.v_acc@.len() + 16 * idx.root_bbox@.len() ==> cut_short(
            bbox_bytes(idx.root_bbox@),
            bytes,
            55 + 8 * idx.v_acc@.len() as int,
        ),
        bytes.len() > 55 + 8 * idx.v_acc@.len() + 16 * idx.root_bbox@.len() ==> {
            &&& idx.root_node is Some
            &&& bytes[55 + 8 * idx.v_acc@.len() + 16 * idx.root_bbox@.len() as int] == 1
            &&& cut_short(node_bytes(*idx.root_node->0), bytes, 56 + 8 * idx.v_acc@.len() + 16 * idx.root_bbox@.len() as int)
        },
{
    let n = idx.v_acc@.len() as int;
    let q = 55 + 8 * n + 16 * idx.root_bbox@.len();
    if bytes.len() >= 7 {
        lemma_cut_piece(whole, bytes, whole.subrange(0, 7), 0);
    }
    if bytes.len() >= 15 {
        lemma_cut_u64(whole, bytes, 7);
    }
    if bytes.len() >= 23 {
        lemma_cut_u64(whole, bytes, 15);
    }
    if bytes.len() >= 31 {
        lemma_cut_u64(whole, bytes, 23);
    }
    if bytes.len() >= 39 {
        lemma_cut_u64(whole, bytes, 31);
    }
    if bytes.len() >= 47 {
        lemma_cut_u64(whole, bytes, 39);
    }
    if bytes.len() >= 55 + 8 * n {
        lemma_cut_u64(whole, bytes, 47 + 8 * n);
    }
    lemma_cut_piece(whole, bytes, entries_bytes(idx.v_acc@), 47);
    lemma_cut_piece(whole, bytes, bbox_bytes(idx.root_bbox@), 55 + 8 * n);
    if bytes.len() > q {
        lemma_cut_piece(whole, bytes, root_bytes(idx.root_node), q);
        match idx.root_node {
            Some(nd) => {
                lemma_occurs_concat(seq![1u8], node_bytes(*nd), whole, q);
                assert(whole.subrange(q, q + 1)[0] == whole[q]);
                lemma_cut_piece(whole, bytes, node_bytes(*nd), q + 1);
                lemma_cut_piece(whole, bytes, whole.subrange(q, q + 1), q);
                assert(bytes.subrange(q, q + 1)[0] == bytes[q]);
            },
            None => {},
        }
    }
}

/// `bytes` start with a saved header for `dim` dimensions whose counts fit
/// `usize`, followed by the saved entries `v`.
pub open spec fn saved_entries(bytes: Seq<u8>, dim: usize, v: Seq<usize>) -> bool {
    &&& bytes.len() >= 47
    &&& occurs_at(index_magic(), bytes, 0)
    &&& u64_at(bytes, 7) == dim as u64
    &&& u64_at(bytes, 15) <= usize::MAX
    &&& u64_at(bytes, 23) <= usize::MAX
    &&& u64_at(bytes, 31) <= usize::MAX
    &&& u64_at(bytes, 39) == v.len()
    &&& occurs_at(entries_bytes(v), bytes, 47)
}

/// ... and then by the saved length `dim` and the saved box `b`.
pub open spec fn saved_box(bytes: Seq<u8>, dim: usize, v: Seq<usize>, b: Seq<Interval>) -> bool {
    &&& saved_entries(bytes, dim, v)
    &&& 55 + 8 * v.len() <= bytes.len()
    &&& u64_at(bytes, 47 + 8 * v.len() as int) == dim as u64
    &&& b.len() == dim
    &&& occurs_at(bbox_bytes(b), bytes, 55 + 8 * v.len() as int)
}

/// The saved entries and the saved box that bytes start with are determined
/// by the bytes.
pub proof fn lemma_saved_parts_unique(bytes: Seq<u8>, dim: usize, v: Seq<usize>, w: Seq<usize>, b: Seq<Interval>, c: Seq<Interval>)
    ensures
        saved_entries(bytes, dim, v) && saved_entries(bytes, dim, w) ==> v == w,
        saved_box(bytes, dim, v, b) && saved_box(bytes, dim, w, c) ==> b == c,
{
    if saved_entries(bytes, dim, v) && saved_entries(bytes, dim, w) {
        lemma_entries_bytes(v);
        lemma_entries_bytes(w);
        lemma_entries_injective(v, w);
    }
    if saved_box(bytes, dim, v, b) && saved_box(bytes, dim, w, c) {
        lemma_entries_bytes(v);
        lemma_entries_bytes(w);
        lemma_entries_injective(v, w);
        lemma_bbox_bytes(b);
        lemma_bbox_bytes(c);
        lemma_bbox_injective(b, c);
    }
}

/// Reads the saved root at `pos`: a presence byte, then the node if the byte
/// is 1, advancing `pos` past them.
fn read_root(bytes: &[u8], pos: &mut usize) -> (r: Result<Option<Box<Node>>>)
    requires
        *old(pos) <= bytes@.len(),
    ensures
        r matches Ok(rt) ==> occurs_at(root_bytes(rt), bytes@, *old(pos) as int) && *final(pos) == *old(pos) + root_bytes(
            rt,
        ).len(),
        forall|rt: Option<Box<Node>>| #[trigger] occurs_at(root_bytes(rt), bytes@, *old(pos) as int) ==> r == Ok::<
            Option<Box<Node>>,
            KdTreeError,
        >(rt),
        *old(pos) == bytes@.len() ==> r == Err::<Option<Box<Node>>, KdTreeError>(
            KdTreeError::InvalidIndexFile(IndexFileProblem::UnexpectedEnd),
        ),
        *old(pos) < bytes@.len() && bytes@[*old(pos) as int] > 1 ==> r == Err::<Option<Box<Node>>, KdTreeError>(
            KdTreeError::InvalidIndexFile(IndexFileProblem::InvalidRootPresence { byte: bytes@[*old(pos) as int] }),
        ),
        *old(pos) + 1 < bytes@.len() && bytes@[*old(pos) as int] == 1 && bytes@[*old(pos) + 1] > 1 ==> r == Err::<
            Option<Box<Node>>,
            KdTreeError,
        >(KdTreeError::InvalidIndexFile(IndexFileProblem::InvalidNodeTag { tag: bytes@[*old(pos) + 1] })),
        forall|m: Node|
            *old(pos) < bytes@.len() && bytes@[*old(pos) as int] == 1 && #[trigger] cut_short(
                node_bytes(m),
                bytes@,
                *old(pos) + 1,
            ) ==> r == Err::<Option<Box<Node>>, KdTreeError>(KdTreeError::InvalidIndexFile(IndexFileProblem::UnexpectedEnd)),
        r matches Err(e) ==> e is InvalidIndexFile,
{
    let p = *pos;
    if p >= bytes.len() {
        proof {
            assert forall|rt: Option<Box<Node>>| #[trigger] occurs_at(root_bytes(rt), bytes@, p as int) implies false by {}
        }
        return Err(KdTreeError::InvalidIndexFile(IndexFileProblem::UnexpectedEnd));
    }
    let present = bytes[p];
    *pos = p + 1;
    proof {
        assert forall|rt: Option<Box<Node>>| #[trigger] occurs_at(root_bytes(rt), bytes@, p as int) implies bytes@[p as int]
            == root_bytes(rt)[0] && (rt matches Some(nd) ==> occurs_at(node_bytes(*nd), bytes@, p + 1)) by {
            assert(bytes@.subrange(p as int, p + root_bytes(rt).len())[0] == bytes@[p as int]);
            if let Some(nd) = rt {
                lemma_occurs_concat(seq![1u8], node_bytes(*nd), bytes@, p as int);
            }
        }
    }
    if present == 0 {
        proof {
            assert(bytes@.subrange(p as int, p + 1) =~= seq![0u8]);
        }
        Ok(None)
    } else if present == 1 {
        match read_node(bytes, pos) {
            Ok(nd) => {
                proof {
                    assert(bytes@.subrange(p as int, p + 1) =~= seq![1u8]);
                    lemma_occurs_concat(seq![1u8], node_bytes(*nd), bytes@, p as int);
                    assert forall|rt: Option<Box<Node>>| #[trigger] occurs_at(root_bytes(rt), bytes@, p as int) implies rt
                        == Some(nd) by {
                        if let Some(nd2) = rt {
                            lemma_node_bytes_unique(*nd2, *nd, bytes@, p + 1);
                        }
                    }
                }
                Ok(Some(nd))
            },
            Err(e) => Err(e),
        }
    } else {
        Err(KdTreeError::InvalidIndexFile(IndexFileProblem::InvalidRootPresence { byte: present }))
    }
}

/// Whether the entries `v`, all points of `dataset`, the root and the box
/// form a valid index: no entry repeats, and a root covers all the entries
/// with a valid subtree inside the box.
fn check_index<D: KdTreeDataset>(
    dataset: &D,
    v: &Vec<usize>,
    dim: usize,
    root: &Option<Box<Node>>,
    bbox: &Vec<Interval>,
    count: usize,
) -> (b: bool)
    requires
        count == dataset.spec_point_count(),
        all_below(v@, count as nat),
        readable(dataset, v@, dim as nat),
        bbox@.len() == dim,
    ensures
        b == (v@.no_duplicates() && (root matches Some(nd) ==> {
            &&& node_wf(**nd, v@, dataset, dim as nat)
            &&& node_lo(**nd) == 0
            &&& node_hi(**nd) == v@.len()
            &&& bbox_contains(bbox@, v@, dataset, 0, v@.len() as int, dim as nat)
        })),
{
    if !entries_distinct(v, count) {
        return false;
    }
    match root {
        Some(nd) => {
            let node: &Node = &**nd;
            let (lo, hi) = node_bounds(node);
            check_node(dataset, v, dim, node) && lo == 0 && hi == v.len() && check_bbox_contains(dataset, v, bbox, dim)
        },
        None => true,
    }
}

/// Bytes holding a header, entries, a box length, a box and a root one after
/// the other hold the saved form of the index they make up.
proof fn lemma_index_assembled(bytes: Seq<u8>, dim: usize, leaf: usize, idx: KdTreeIndex, n: usize, bl: usize)
    requires
        n == idx.v_acc@.len(),
        bl == idx.root_bbox@.len(),
        occurs_at(index_magic(), bytes, 0),
        occurs_at(usize_bytes(dim), bytes, 7),
        occurs_at(usize_bytes(idx.size), bytes, 15),
        occurs_at(usize_bytes(idx.size_at_index_build), bytes, 23),
        occurs_at(usize_bytes(leaf), bytes, 31),
        occurs_at(usize_bytes(n), bytes, 39),
        occurs_at(entries_bytes(idx.v_acc@), bytes, 47),
        occurs_at(usize_bytes(bl), bytes, 47 + 8 * n),
        occurs_at(bbox_bytes(idx.root_bbox@), bytes, 55 + 8 * n),
        occurs_at(root_bytes(idx.root_node), bytes, 55 + 8 * n + 16 * bl),
    ensures
        encodes(bytes, dim, leaf, idx),
{
    let m = index_magic();
    let h1 = m + usize_bytes(dim);
    let h2 = h1 + usize_bytes(idx.size);
    let h3 = h2 + usize_bytes(idx.size_at_index_build);
    let h4 = h3 + usize_bytes(leaf);
    let h5 = h4 + usize_bytes(n);
    let e = h5 + entries_bytes(idx.v_acc@);
    let f = e + usize_bytes(bl);
    let g = f + bbox_bytes(idx.root_bbox@);
    lemma_entries_bytes(idx.v_acc@);
    lemma_bbox_bytes(idx.root_bbox@);
    lemma_occurs_concat(m, usize_bytes(dim), bytes, 0);
    lemma_occurs_concat(h1, usize_bytes(idx.size), bytes, 0);
    lemma_occurs_concat(h2, usize_bytes(idx.size_at_index_build), bytes, 0);
    lemma_occurs_concat(h3, usize_bytes(leaf), bytes, 0);
    lemma_occurs_concat(h4, usize_bytes(n), bytes, 0);
    lemma_occurs_concat(h5, entries_bytes(idx.v_acc@), bytes, 0);
    lemma_occurs_concat(e, usize_bytes(bl), bytes, 0);
    lemma_occurs_concat(f, bbox_bytes(idx.root_bbox@), bytes, 0);
    lemma_occurs_concat(g, root_bytes(idx.root_node), bytes, 0);
}

/// The header of a saved index for `dim` dimensions is whole and fits: the
/// magic bytes, the dimensionality `dim`, and four counts that fit `usize`.
pub open spec fn header_ok(bytes: Seq<u8>, dim: usize) -> bool {
    &&& bytes.len() >= 47
    &&& bytes.subrange(0, 7) == index_magic()
    &&& u64_at(bytes, 7) == dim as u64
    &&& u64_at(bytes, 15) <= usize::MAX
    &&& u64_at(bytes, 23) <= usize::MAX
    &&& u64_at(bytes, 31) <= usize::MAX
    &&& u64_at(bytes, 39) <= usize::MAX
}

/// Reads the header of a saved index for `dim` dimensions: checks the magic
/// bytes and the dimensionality, and returns the size, the size at build, the
/// leaf size and the number of entries. Besides a wrong magic or
/// dimensionality or a count that does not fit `usize`, it fails only when
/// the bytes end early.
fn read_header(bytes: &[u8], dim: usize) -> (r: Result<(usize, usize, usize, usize)>)
    ensures
        header_ok(bytes@, dim) <==> r is Ok,
        r matches Ok((s, sa, l, n)) ==> s == u64_at(bytes@, 15) && sa == u64_at(bytes@, 23) && l == u64_at(bytes@, 31) && n
            == u64_at(bytes@, 39),
        r matches Ok((s, sa, l, n)) ==> {
            &&& occurs_at(index_magic(), bytes@, 0)
            &&& occurs_at(usize_bytes(dim), bytes@, 7)
            &&& occurs_at(usize_bytes(s), bytes@, 15)
            &&& occurs_at(usize_bytes(sa), bytes@, 23)
            &&& occurs_at(usize_bytes(l), bytes@, 31)
            &&& occurs_at(usize_bytes(n), bytes@, 39)
        },
        bytes@.len() <= usize::MAX,
        bytes@.len() < 7 ==> r == Err::<(usize, usize, usize, usize), KdTreeError>(
            KdTreeError::InvalidIndexFile(IndexFileProblem::UnexpectedEnd),
        ),
        bytes@.len() >= 7 && bytes@.subrange(0, 7) != index_magic() ==> r == Err::<(usize, usize, usize, usize), KdTreeError>(
            KdTreeError::InvalidIndexFile(IndexFileProblem::BadMagic),
        ),
        bytes@.len() >= 15 && bytes@.subrange(0, 7) == index_magic() && u64_at(bytes@, 7) <= usize::MAX && u64_at(bytes@, 7)
            != dim as u64 ==> r == Err::<(usize, usize, usize, usize), KdTreeError>(
            KdTreeError::InvalidIndexFile(
                IndexFileProblem::DimensionalityMismatch { saved: u64_at(bytes@, 7) as usize, expected: dim },
            ),
        ),
        r is Err && (bytes@.len() >= 7 ==> bytes@.subrange(0, 7) == index_magic()) && (bytes@.len() >= 15 ==> u64_at(bytes@, 7)
            == dim as u64) && (bytes@.len() >= 23 ==> u64_at(bytes@, 15) <= usize::MAX) && (bytes@.len() >= 31 ==> u64_at(
            bytes@,
            23,
        ) <= usize::MAX) && (bytes@.len() >= 39 ==> u64_at(bytes@, 31) <= usize::MAX) && (bytes@.len() >= 47 ==> u64_at(
            bytes@,
            39,
        ) <= usize::MAX) ==> r == Err::<(usize, usize, usize, usize), KdTreeError>(
            KdTreeError::InvalidIndexFile(IndexFileProblem::UnexpectedEnd),
        ),
        r matches Err(e) ==> e is InvalidIndexFile,
{
    if bytes.len() < 7 {
        return Err(KdTreeError::InvalidIndexFile(IndexFileProblem::UnexpectedEnd));
    }
    if !(bytes[0] == 78u8 && bytes[1] == 75u8 && bytes[2] == 68u8 && bytes[3] == 82u8 && bytes[4] == 83u8 && bytes[5] == 48u8
        && bytes[6] == 49u8) {
        proof {
            if bytes@.subrange(0, 7) == index_magic() {
                assert(bytes@.subrange(0, 7)[0] == bytes@[0] && bytes@.subrange(0, 7)[1] == bytes@[1]);
                assert(bytes@.subrange(0, 7)[2] == bytes@[2] && bytes@.subrange(0, 7)[3] == bytes@[3]);
                assert(bytes@.subrange(0, 7)[4] == bytes@[4] && bytes@.subrange(0, 7)[5] == bytes@[5]);
                assert(bytes@.subrange(0, 7)[6] == bytes@[6]);
            }
        }
        return Err(KdTreeError::InvalidIndexFile(IndexFileProblem::BadMagic));
    }
    proof {
        assert(bytes@.subrange(0, 7) =~= index_magic());
    }
    let mut pos: usize = 7;
    let saved_dim = match read_u64(bytes, &mut pos) {
        Ok(x) => x,
        Err(e) => {
            return Err(e);
        },
    };
    if saved_dim != dim {
        return Err(
            KdTreeError::InvalidIndexFile(IndexFileProblem::DimensionalityMismatch { saved: saved_dim, expected: dim }),
        );
    }
    let size = match read_u64(bytes, &mut pos) {
        Ok(x) => x,
        Err(e) => {
            return Err(e);
        },
    };
    let size_at_build = match read_u64(bytes, &mut pos) {
        Ok(x) => x,
        Err(e) => {
            return Err(e);
        },
    };
    let leaf = match read_u64(bytes, &mut pos) {
        Ok(x) => x,
        Err(e) => {
            return Err(e);
        },
    };
    let n = match read_u64(bytes, &mut pos) {
        Ok(x) => x,
        Err(e) => {
            return Err(e);
        },
    };
    Ok((size, size_at_build, leaf, n))
}

/// Reads an index saved by `write_index` for a tree of `dim` dimensions over
/// `dataset`, and checks it against the dataset. Returns the saved leaf size
/// with the index. Bytes after the saved index are not read.
#[verifier::spinoff_prover]
#[verifier::rlimit(100)]
pub fn read_index<D: KdTreeDataset>(bytes: &[u8], dataset: &D, dim: usize) -> (r: Result<(usize, KdTreeIndex)>)
    requires
        dataset.spec_point_count() > 0 ==> dim <= dataset.spec_point_dim(),
    ensures
        r matches Ok((leaf, idx)) ==> encodes(bytes@, dim, leaf, idx) && idx.wf(dataset, dim as nat),
        (exists|leaf: usize, idx: KdTreeIndex| #[trigger] encodes(bytes@, dim, leaf, idx) && idx.wf(dataset, dim as nat)) ==> r is Ok,
        bytes@.len() < 7 ==> r == Err::<(usize, KdTreeIndex), KdTreeError>(
            KdTreeError::InvalidIndexFile(IndexFileProblem::UnexpectedEnd),
        ),
        bytes@.len() >= 7 && bytes@.subrange(0, 7) != index_magic() ==> r == Err::<(usize, KdTreeIndex), KdTreeError>(
            KdTreeError::InvalidIndexFile(IndexFileProblem::BadMagic),
        ),
        bytes@.len() >= 15 && bytes@.subrange(0, 7) == index_magic() && u64_at(bytes@, 7) <= usize::MAX && u64_at(bytes@, 7)
            != dim as u64 ==> r == Err::<(usize, KdTreeIndex), KdTreeError>(
            KdTreeError::InvalidIndexFile(
                IndexFileProblem::DimensionalityMismatch { saved: u64_at(bytes@, 7) as usize, expected: dim },
            ),
        ),
        forall|v: Seq<usize>|
            #[trigger] saved_entries(bytes@, dim, v) && !all_below(v, dataset.spec_point_count()) ==> r == Err::<
                (usize, KdTreeIndex),
                KdTreeError,
            >(
                KdTreeError::IndexOutOfBounds {
                    index: v[first_out_of_bounds(v, dataset.spec_point_count(), 0)->0 as int],
                    len: dataset.spec_point_count() as usize,
                },
            ),
        forall|v: Seq<usize>|
            #[trigger] saved_entries(bytes@, dim, v) && all_below(v, dataset.spec_point_count()) && 55 + 8 * v.len()
                <= bytes@.len() && u64_at(bytes@, 47 + 8 * v.len() as int) <= usize::MAX && u64_at(bytes@, 47 + 8 * v.len() as int) != dim
                as u64 ==> r == Err::<(usize, KdTreeIndex), KdTreeError>(
                KdTreeError::InvalidIndexFile(
                    IndexFileProblem::BoundingBoxDimensionalityMismatch {
                        saved: u64_at(bytes@, 47 + 8 * v.len() as int) as usize,
                        expected: dim,
                    },
                ),
            ),
        forall|v: Seq<usize>, b: Seq<Interval>|
            #[trigger] saved_box(bytes@, dim, v, b) && all_below(v, dataset.spec_point_count()) && bbox_shape_error(
                b,
                dim as nat,
            ) is Some ==> r == Err::<(usize, KdTreeIndex), KdTreeError>(bbox_shape_error(b, dim as nat)->0),
        forall|v: Seq<usize>, b: Seq<Interval>|
            #[trigger] saved_box(bytes@, dim, v, b) && all_below(v, dataset.spec_point_count()) && bbox_shape_error(
                b,
                dim as nat,
            ) is None && 55 + 8 * v.len() + 16 * dim < bytes@.len() && bytes@[55 + 8 * v.len() + 16 * dim] > 1 ==> r
                == Err::<(usize, KdTreeIndex), KdTreeError>(
                KdTreeError::InvalidIndexFile(
                    IndexFileProblem::InvalidRootPresence { byte: bytes@[55 + 8 * v.len() + 16 * dim] },
                ),
            ),
        forall|v: Seq<usize>, b: Seq<Interval>|
            #[trigger] saved_box(bytes@, dim, v, b) && all_below(v, dataset.spec_point_count()) && bbox_shape_error(
                b,
                dim as nat,
            ) is None && 56 + 8 * v.len() + 16 * dim < bytes@.len() && bytes@[55 + 8 * v.len() + 16 * dim] == 1
                && bytes@[56 + 8 * v.len() + 16 * dim] > 1 ==> r == Err::<(usize, KdTreeIndex), KdTreeError>(
                KdTreeError::InvalidIndexFile(IndexFileProblem::InvalidNodeTag { tag: bytes@[56 + 8 * v.len() + 16 * dim] }),
            ),
        forall|leaf: usize, idx: KdTreeIndex|
            #[trigger] cut_short(index_bytes(dim, leaf, idx), bytes@, 0) && idx.wf(dataset, dim as nat) ==> r == Err::<
                (usize, KdTreeIndex),
                KdTreeError,
            >(KdTreeError::InvalidIndexFile(IndexFileProblem::UnexpectedEnd)),
        r matches Err(e) ==> e is InvalidIndexFile || e is IndexOutOfBounds || e is InvalidBoundingBox,
        r matches Err(KdTreeError::IndexOutOfBounds { .. }) ==> exists|v: Seq<usize>|
            #[trigger] saved_entries(bytes@, dim, v) && !all_below(v, dataset.spec_point_count()),
        r matches Err(KdTreeError::InvalidBoundingBox(_)) ==> exists|v: Seq<usize>, b: Seq<Interval>|
            #[trigger] saved_box(bytes@, dim, v, b) && all_below(v, dataset.spec_point_count()) && bbox_shape_error(
                b,
                dim as nat,
            ) is Some,
        r matches Err(KdTreeError::IndexOutOfBounds { index, len }) ==> len == dataset.spec_point_count() && index >= len,
        r matches Err(KdTreeError::InvalidBoundingBox(p)) ==> p is HighBelowLow,
{
    let ghost has = exists|leaf: usize, idx: KdTreeIndex| #[trigger] encodes(bytes@, dim, leaf, idx) && idx.wf(dataset, dim as nat);
    let ghost target: (usize, KdTreeIndex) = choose|leaf: usize, idx: KdTreeIndex| #[trigger] encodes(bytes@, dim, leaf, idx)
        && idx.wf(dataset, dim as nat);
    let ghost t = target.1;
    let ghost cut = exists|leaf: usize, idx: KdTreeIndex| #[trigger] cut_short(index_bytes(dim, leaf, idx), bytes@, 0) && idx.wf(
        dataset,
        dim as nat,
    );
    let ghost ct: (usize, KdTreeIndex) = choose|leaf: usize, idx: KdTreeIndex| #[trigger] cut_short(
        index_bytes(dim, leaf, idx),
        bytes@,
        0,
    ) && idx.wf(dataset, dim as nat);
    let ghost u = ct.1;
    proof {
        if has {
            lemma_index_pieces(bytes@, dim, target.0, t);
        }
    }
    let (size, size_at_build, leaf, n) = match read_header(bytes, dim) {
        Ok(h) => h,
        Err(e) => {
            proof {
                assert forall|w: Seq<usize>| #[trigger] saved_entries(bytes@, dim, w) implies false by {
                    lemma_entries_bytes(w);
                    assert(index_magic().len() == 7);
                    assert(header_ok(bytes@, dim));
                }
                if cut {
                    lemma_index_cut(bytes@, dim, ct.0, u);
                    lemma_entries_bytes(u.v_acc@);
                    lemma_bbox_bytes(u.root_bbox@);
                    assert(u.v_acc@.len() <= usize::MAX);
                }
            }
            return Err(e);
        },
    };
    let mut pos: usize = 47;
    proof {
        if has {
            assert(t.v_acc@.len() == n);
            assert(occurs_at(entries_bytes(t.v_acc@), bytes@, 47));
        }
    }
    let v = match read_entries(bytes, &mut pos, n) {
        Ok(v) => v,
        Err(e) => {
            proof {
                assert forall|w: Seq<usize>| #[trigger] saved_entries(bytes@, dim, w) implies false by {
                    assert(w.len() == n);
                    assert(occurs_at(entries_bytes(w), bytes@, 47));
                }
                if cut {
                    lemma_index_cut(bytes@, dim, ct.0, u);
                    lemma_entries_bytes(u.v_acc@);
                    lemma_bbox_bytes(u.root_bbox@);
                    assert(u.v_acc@.len() == n);
                }
            }
            return Err(e);
        },
    };
    proof {
        if has {
            lemma_entries_bytes(v@);
            lemma_entries_bytes(t.v_acc@);
            lemma_entries_injective(v@, t.v_acc@);
        }
        assert forall|w: Seq<usize>| #[trigger] saved_entries(bytes@, dim, w) implies w == v@ by {
            lemma_entries_bytes(v@);
            lemma_entries_bytes(w);
            assert(w.len() == n);
            lemma_entries_injective(v@, w);
        }
    }
    match validate_entries(&v, dataset) {
        Ok(()) => {},
        Err(e) => {
            proof {
                assert(saved_entries(bytes@, dim, v@));
                if cut {
                    lemma_index_cut(bytes@, dim, ct.0, u);
                    lemma_entries_bytes(u.v_acc@);
                    lemma_bbox_bytes(u.root_bbox@);
                    assert(saved_entries(bytes@, dim, u.v_acc@));
                }
            }
            return Err(e);
        },
    }
    let ghost pos_bl = pos;
    let bl = match read_u64(bytes, &mut pos) {
        Ok(x) => x,
        Err(e) => {
            proof {
                if cut {
                    lemma_index_cut(bytes@, dim, ct.0, u);
                    lemma_entries_bytes(u.v_acc@);
                    lemma_bbox_bytes(u.root_bbox@);
                    assert(saved_entries(bytes@, dim, u.v_acc@));
                }
            }
            return Err(e);
        },
    };
    if bl != dim {
        proof {
            if cut {
                lemma_index_cut(bytes@, dim, ct.0, u);
                lemma_entries_bytes(u.v_acc@);
                lemma_bbox_bytes(u.root_bbox@);
                assert(saved_entries(bytes@, dim, u.v_acc@));
            }
        }
        return Err(
            KdTreeError::InvalidIndexFile(IndexFileProblem::BoundingBoxDimensionalityMismatch { saved: bl, expected: dim }),
        );
    }
    proof {
        if has {
            assert(t.root_bbox@.len() == bl);
            assert(occurs_at(bbox_bytes(t.root_bbox@), bytes@, pos as int));
        }
    }
    let bbox = match read_bbox(bytes, &mut pos, bl) {
        Ok(b) => b,
        Err(e) => {
            proof {
                if cut {
                    lemma_index_cut(bytes@, dim, ct.0, u);
                    lemma_entries_bytes(u.v_acc@);
                    lemma_bbox_bytes(u.root_bbox@);
                    assert(saved_entries(bytes@, dim, u.v_acc@));
                }
            }
            return Err(e);
        },
    };
    proof {
        if has {
            lemma_bbox_bytes(bbox@);
            lemma_bbox_bytes(t.root_bbox@);
            lemma_bbox_injective(bbox@, t.root_bbox@);
            lemma_no_inverted(bbox@, 0);
        }
        assert forall|w: Seq<usize>, b: Seq<Interval>| #[trigger] saved_box(bytes@, dim, w, b) implies b == bbox@ by {
            assert(w == v@);
            lemma_bbox_bytes(bbox@);
            lemma_bbox_bytes(b);
            lemma_bbox_injective(b, bbox@);
        }
    }
    match validate_bbox_shape(dim, bbox.as_slice()) {
        Ok(()) => {},
        Err(e) => {
            proof {
                assert(saved_box(bytes@, dim, v@, bbox@));
                if cut {
                    lemma_index_cut(bytes@, dim, ct.0, u);
                    lemma_entries_bytes(u.v_acc@);
                    lemma_bbox_bytes(u.root_bbox@);
                    assert(saved_entries(bytes@, dim, u.v_acc@));
                    assert(saved_box(bytes@, dim, u.v_acc@, u.root_bbox@));
                    lemma_no_inverted(bbox@, 0);
                }
            }
            return Err(e);
        },
    }
    let ghost pos_root = pos;
    proof {
        if has {
            assert(occurs_at(root_bytes(t.root_node), bytes@, pos as int));
        }
    }
    let root = match read_root(bytes, &mut pos) {
        Ok(rt) => rt,
        Err(e) => {
            proof {
                if cut {
                    lemma_index_cut(bytes@, dim, ct.0, u);
                    lemma_entries_bytes(u.v_acc@);
                    lemma_bbox_bytes(u.root_bbox@);
                    assert(saved_entries(bytes@, dim, u.v_acc@));
                    assert(saved_box(bytes@, dim, u.v_acc@, u.root_bbox@));
                }
            }
            return Err(e);
        },
    };
    proof {
        if cut {
            lemma_index_cut(bytes@, dim, ct.0, u);
            lemma_entries_bytes(u.v_acc@);
            lemma_bbox_bytes(u.root_bbox@);
            assert(saved_entries(bytes@, dim, u.v_acc@));
            assert(saved_box(bytes@, dim, u.v_acc@, u.root_bbox@));
            assert(false);
        }
    }
    let count = dataset.kdtree_get_point_count();
    if !check_index(dataset, &v, dim, &root, &bbox, count) {
        return Err(KdTreeError::InvalidIndexFile(IndexFileProblem::InconsistentIndex));
    }
    let idx = KdTreeIndex { v_acc: v, root_node: root, root_bbox: bbox, size, size_at_index_build: size_at_build };
    proof {
        lemma_index_assembled(bytes@, dim, leaf, idx, n, bl);
    }
    Ok((leaf, idx))
}

/// Saved indices read back unchanged: bytes that start with the saved form
/// of two indices start with the saved form of one and the same index, so
/// what `read_index` finds in the output of `write_index` is what was written.
pub proof fn lemma_save_load_round_trip(
    bytes: Seq<u8>,
    dim: usize,
    leaf: usize,
    idx: KdTreeIndex,
    leaf2: usize,
    idx2: KdTreeIndex,
)
    requires
        encodes(bytes, dim, leaf, idx),
        encodes(bytes, dim, leaf2, idx2),
    ensures
        leaf == leaf2,
        same_index(idx, idx2),
{
    lemma_index_pieces(bytes, dim, leaf, idx);
    lemma_index_pieces(bytes, dim, leaf2, idx2);
    lemma_entries_bytes(idx.v_acc@);
    lemma_entries_bytes(idx2.v_acc@);
    lemma_entries_injective(idx.v_acc@, idx2.v_acc@);
    lemma_bbox_bytes(idx.root_bbox@);
    lemma_bbox_bytes(idx2.root_bbox@);
    lemma_bbox_injective(idx.root_bbox@, idx2.root_bbox@);
    let at = 55 + 8 * idx.v_acc@.len() as int + 16 * idx.root_bbox@.len() as int;
    assert(bytes.subrange(at, at + root_bytes(idx.root_node).len())[0] == bytes[at]);
    assert(bytes.subrange(at, at + root_bytes(idx2.root_node).len())[0] == bytes[at]);
    if idx.root_node is Some && idx2.root_node is Some {
        let n1 = idx.root_node->0;
        let n2 = idx2.root_node->0;
        lemma_occurs_concat(seq![1u8], node_bytes(*n1), bytes, at);
        lemma_occurs_concat(seq![1u8], node_bytes(*n2), bytes, at);
        lemma_node_bytes_unique(*n1, *n2, bytes, at + 1);
    }
}

/// Appends the saved form of a list of point indices.
fn write_entries(out: &mut Vec<u8>, v: &Vec<usize>)
    ensures
        final(out)@ == old(out)@ + entries_bytes(v@),
{
    let mut k: usize = 0;
    while k < v.len()
        invariant
            0 <= k <= v@.len(),
            out@ == old(out)@ + entries_bytes(v@.take(k as int)),
        decreases v@.len() - k,
    {
        write_u64(out, v[k]);
        assert(v@.take(k as int + 1).drop_last() =~= v@.take(k as int));
        assert(old(out)@ + entries_bytes(v@.take(k as int + 1)) =~= old(out)@ + entries_bytes(v@.take(k as int)) + usize_bytes(v@[k as int]));
        k = k + 1;
    }
    assert(v@.take(k as int) =~= v@);
}

/// Appends the saved form of a box.
fn write_bbox(out: &mut Vec<u8>, b: &Vec<Interval>)
    ensures
        final(out)@ == old(out)@ + bbox_bytes(b@),
{
    let mut k: usize = 0;
    while k < b.len()
        invariant
            0 <= k <= b@.len(),
            out@ == old(out)@ + bbox_bytes(b@.take(k as int)),
        decreases b@.len() - k,
    {
        write_coord(out, b[k].low);
        write_coord(out, b[k].high);
        assert(b@.take(k as int + 1).drop_last() =~= b@.take(k as int));
        assert(old(out)@ + bbox_bytes(b@.take(k as int + 1)) =~= old(out)@ + bbox_bytes(b@.take(k as int)) + coord_bytes(
            b@[k as int].low,
        ) + coord_bytes(b@[k as int].high));
        k = k + 1;
    }
    assert(b@.take(k as int) =~= b@);
}

/// Appends the saved form of a node.
fn write_node(out: &mut Vec<u8>, node: &Node)
    ensures
        final(out)@ == old(out)@ + node_bytes(*node),
    decreases node,
{
    match node {
        Node::Leaf { left, right } => {
            out.push(0u8);
            write_u64(out, *left);
            write_u64(out, *right);
            assert(out@ =~= old(out)@ + node_bytes(*node));
        },
        Node::Split { divfeat, divlow, divhigh, child1, child2 } => {
            out.push(1u8);
            write_u64(out, *divfeat);
            write_coord(out, *divlow);
            write_coord(out, *divhigh);
            write_node(out, &**child1);
            write_node(out, &**child2);
            assert(out@ =~= old(out)@ + node_bytes(*node));
        },
    }
}

/// Appends the saved form of an index: the magic bytes, the dimensionality,
/// the sizes and leaf size, the point indices, the box and the nodes.
pub fn write_index(out: &mut Vec<u8>, dim: usize, leaf: usize, idx: &KdTreeIndex)
    ensures
        final(out)@ == old(out)@ + index_bytes(dim, leaf, *idx),
{
    let ghost o = out@;
    out.push(78u8);
    out.push(75u8);
    out.push(68u8);
    out.push(82u8);
    out.push(83u8);
    out.push(48u8);
    out.push(49u8);
    assert(out@ =~= o + index_magic());
    write_u64(out, dim);
    write_u64(out, idx.size);
    write_u64(out, idx.size_at_index_build);
    write_u64(out, leaf);
    write_u64(out, idx.v_acc.len());
    let ghost h = index_header(dim, idx.size, idx.size_at_index_build, leaf, idx.v_acc.len());
    assert(out@ =~= o + h);
    write_entries(out, &idx.v_acc);
    let ghost h2 = h + entries_bytes(idx.v_acc@);
    assert(out@ =~= o + h2);
    write_u64(out, idx.root_bbox.len());
    let ghost h3 = h2 + usize_bytes(idx.root_bbox.len());
    assert(out@ =~= o + h3);
    write_bbox(out, &idx.root_bbox);
    let ghost h4 = h3 + bbox_bytes(idx.root_bbox@);
    assert(out@ =~= o + h4);
    match &idx.root_node {
        Some(root) => {
            out.push(1u8);
            write_node(out, &**root);
        },
        None => {
            out.push(0u8);
        },
    }
    assert(out@ =~= o + (h4 + root_bytes(idx.root_node)));
}

} // verus!
