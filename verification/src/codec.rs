//! The variable-length integer layer of the wire format.
//!
//! A value is stored in the smallest of four forms, selected by the two
//! lowest bits of the first byte: one byte for values under `2^6`, two
//! little-endian bytes for values under `2^14`, four for values under
//! `2^30`, and a marker byte followed by four plain little-endian bytes for
//! the rest of the `u32` range. Decoding accepts only the canonical, that
//! is smallest, form of each value.

use vstd::prelude::*;
use crate::compact::{CompactRow, CompactSolution, MAX_FANOUT};

verus! {

/// The byte encoding of a `u32` in the variable-length form.
pub open spec fn compact_bytes_u32(x: u32) -> Seq<u8> {
    if x < 64 {
        seq![(x * 4) as u8]
    } else if x < 16384 {
        seq![((x * 4 + 1) % 256) as u8, ((x * 4 + 1) / 256) as u8]
    } else if x < 1073741824 {
        seq![
            ((x * 4 + 2) % 256) as u8,
            (((x * 4 + 2) / 256) % 256) as u8,
            (((x * 4 + 2) / 65536) % 256) as u8,
            ((x * 4 + 2) / 16777216) as u8,
        ]
    } else {
        seq![
            3u8,
            (x % 256) as u8,
            ((x / 256) % 256) as u8,
            ((x / 65536) % 256) as u8,
            (x / 16777216) as u8,
        ]
    }
}

/// The byte encoding of a `u16`: the same form, which for this range never
/// needs the marker byte.
pub open spec fn compact_bytes_u16(x: u16) -> Seq<u8> {
    compact_bytes_u32(x as u32)
}

/// `pat` occurs in `bytes` starting exactly at `pos`.
pub open spec fn prefix_at(bytes: Seq<u8>, pos: int, pat: Seq<u8>) -> bool {
    &&& 0 <= pos
    &&& pos + pat.len() <= bytes.len()
    &&& bytes.subrange(pos, pos + pat.len()) == pat
}

/// Appends the variable-length encoding of `x` to `out`.
pub fn encode_u32_into(x: u32, out: &mut Vec<u8>)
    ensures
        final(out)@ == old(out)@ + compact_bytes_u32(x),
{
    if x < 64 {
        out.push((x * 4) as u8);
        assert(final(out)@ =~= old(out)@ + compact_bytes_u32(x));
    } else if x < 16384 {
        let v: u32 = x * 4 + 1;
        out.push((v % 256) as u8);
        out.push((v / 256) as u8);
        assert(final(out)@ =~= old(out)@ + compact_bytes_u32(x));
    } else if x < 1073741824 {
        let v: u32 = x * 4 + 2;
        out.push((v % 256) as u8);
        out.push(((v / 256) % 256) as u8);
        out.push(((v / 65536) % 256) as u8);
        out.push((v / 16777216) as u8);
        assert(final(out)@ =~= old(out)@ + compact_bytes_u32(x));
    } else {
        out.push(3u8);
        out.push((x % 256) as u8);
        out.push(((x / 256) % 256) as u8);
        out.push(((x / 65536) % 256) as u8);
        out.push((x / 16777216) as u8);
        assert(final(out)@ =~= old(out)@ + compact_bytes_u32(x));
    }
}

/// Appends the variable-length encoding of `x` to `out`.
pub fn encode_u16_into(x: u16, out: &mut Vec<u8>)
    ensures
        final(out)@ == old(out)@ + compact_bytes_u16(x),
{
    encode_u32_into(x as u32, out);
}

/// The little-endian reassembly of four bytes.
spec fn le4(b0: u8, b1: u8, b2: u8, b3: u8) -> int {
    b0 + b1 * 256 + b2 * 65536 + b3 * 16777216
}

/// The four little-endian base-256 digits of `v < 2^32` are its four
/// layered quotients, and they reassemble to `v`.
proof fn lemma_le4_digits(v: int)
    requires
        0 <= v < 4294967296,
    ensures
        le4(
            (v % 256) as u8,
            ((v / 256) % 256) as u8,
            ((v / 65536) % 256) as u8,
            (v / 16777216) as u8,
        ) == v,
        0 <= v % 256 < 256,
        0 <= (v / 256) % 256 < 256,
        0 <= (v / 65536) % 256 < 256,
        0 <= v / 16777216 < 256,
{
    vstd::arithmetic::div_mod::lemma_fundamental_div_mod(v, 256);
    vstd::arithmetic::div_mod::lemma_fundamental_div_mod(v / 256, 256);
    vstd::arithmetic::div_mod::lemma_fundamental_div_mod(v / 65536, 256);
    vstd::arithmetic::div_mod::lemma_div_denominator(v, 256, 256);
    vstd::arithmetic::div_mod::lemma_div_denominator(v, 65536, 256);
    assert(v / 256 / 256 == v / 65536);
    assert(v / 65536 / 256 == v / 16777216);
    assert(0 <= v / 256) by {
        vstd::arithmetic::div_mod::lemma_div_pos_is_pos(v, 256);
    }
    assert(0 <= v / 65536) by {
        vstd::arithmetic::div_mod::lemma_div_pos_is_pos(v, 65536);
    }
    assert(0 <= v / 16777216) by {
        vstd::arithmetic::div_mod::lemma_div_pos_is_pos(v, 16777216);
    }
    assert(v / 16777216 < 256) by {
        vstd::arithmetic::div_mod::lemma_div_is_ordered(v, 4294967295, 16777216);
    }
}

/// A nonnegative value `4q + r` with `r < 4` splits by the Euclidean rules:
/// quotient `q`, remainder `r`, also through any multiple of four.
proof fn lemma_mod4_of_scaled(x: int, r: int)
    requires
        0 <= x,
        0 <= r < 4,
    ensures
        (x * 4 + r) % 4 == r,
        (x * 4 + r) / 4 == x,
        (x * 4 + r) % 256 % 4 == r,
{
    let v = x * 4 + r;
    vstd::arithmetic::div_mod::lemma_fundamental_div_mod_converse(v, 4, x, r);
    vstd::arithmetic::div_mod::lemma_fundamental_div_mod(v, 256);
    let k = v / 256;
    let b = v % 256;
    assert(v == 256 * k + b && 0 <= b < 256);
    assert(b == (x - 64 * k) * 4 + r);
    assert(0 <= x - 64 * k) by {
        assert(b >= 0 && b == (x - 64 * k) * 4 + r);
    }
    vstd::arithmetic::div_mod::lemma_fundamental_div_mod_converse(b, 4, x - 64 * k, r);
}

/// Reads one variable-length `u32` starting at `pos`. Returns the value
/// and the position after it, exactly when the bytes at `pos` hold the
/// canonical encoding of some value; the two ensures clauses make the
/// parse both sound and complete.
pub fn decode_u32_at(bytes: &Vec<u8>, pos: usize) -> (r: Option<(u32, usize)>)
    ensures
        r matches Some((x, n))
            ==> pos + compact_bytes_u32(x).len() == n && prefix_at(bytes@, pos as int, compact_bytes_u32(x)),
        forall|y: u32|
            prefix_at(bytes@, pos as int, #[trigger] compact_bytes_u32(y))
                ==> r == Some::<(u32, usize)>((y, (pos + compact_bytes_u32(y).len()) as usize)),
{
    if pos >= bytes.len() {
        return None;
    }
    let b0 = bytes[pos];
    let mode = b0 % 4;
    if mode == 0 {
        let x: u32 = b0 as u32 / 4;
        proof {
            lemma_mod4_of_scaled(x as int, 0);
            vstd::arithmetic::div_mod::lemma_fundamental_div_mod(b0 as int, 4);
            assert(b0 == x * 4);
            assert(prefix_at(bytes@, pos as int, compact_bytes_u32(x))) by {
                assert(bytes@.subrange(pos as int, pos + 1) =~= compact_bytes_u32(x));
            }
            assert forall|y: u32| prefix_at(bytes@, pos as int, #[trigger] compact_bytes_u32(y))
                implies y == x by {
                lemma_decode_mode(bytes@, pos as int, y, b0);
                assert(b0 == y * 4);
            }
        }
        return Some((x, pos + 1));
    } else if mode == 1 {
        if pos + 1 >= bytes.len() {
            proof {
                assert forall|y: u32| !prefix_at(bytes@, pos as int, #[trigger] compact_bytes_u32(y)) by {
                    if prefix_at(bytes@, pos as int, compact_bytes_u32(y)) {
                        lemma_decode_mode(bytes@, pos as int, y, b0);
                    }
                }
            }
            return None;
        }
        let b1 = bytes[pos + 1];
        let v: u32 = b0 as u32 + b1 as u32 * 256;
        let x: u32 = v / 4;
        proof {
            vstd::arithmetic::div_mod::lemma_fundamental_div_mod_converse(
                v as int, 256, b1 as int, b0 as int);
            assert(v % 4 == 1) by {
                vstd::arithmetic::div_mod::lemma_mod_breakdown(v as int, 4, 64);
            }
            vstd::arithmetic::div_mod::lemma_fundamental_div_mod(v as int, 4);
            assert(v == x * 4 + 1);
        }
        if x < 64 {
            proof {
                assert forall|y: u32| !prefix_at(bytes@, pos as int, #[trigger] compact_bytes_u32(y)) by {
                    if prefix_at(bytes@, pos as int, compact_bytes_u32(y)) {
                        lemma_decode_mode(bytes@, pos as int, y, b0);
                        lemma_mod4_of_scaled(y as int, 1);
                        assert(bytes@.subrange(pos as int, pos + 2)[1] == b1);
                        assert(b0 == (y * 4 + 1) % 256 && b1 == (y * 4 + 1) / 256);
                        vstd::arithmetic::div_mod::lemma_fundamental_div_mod(y * 4 + 1, 256);
                        assert(v == y * 4 + 1);
                    }
                }
            }
            return None;
        }
        proof {
            lemma_mod4_of_scaled(x as int, 1);
            assert(x < 16384) by {
                assert(v <= 255 + 255 * 256);
            }
            vstd::arithmetic::div_mod::lemma_fundamental_div_mod(v as int, 256);
            assert(b1 == v / 256 && b0 == v % 256);
            assert(prefix_at(bytes@, pos as int, compact_bytes_u32(x))) by {
                assert(bytes@.subrange(pos as int, pos + 2) =~= compact_bytes_u32(x));
            }
            assert forall|y: u32| prefix_at(bytes@, pos as int, #[trigger] compact_bytes_u32(y))
                implies y == x by {
                lemma_decode_mode(bytes@, pos as int, y, b0);
                lemma_mod4_of_scaled(y as int, 1);
                assert(bytes@.subrange(pos as int, pos + 2)[1] == b1);
                assert(b0 == (y * 4 + 1) % 256 && b1 == (y * 4 + 1) / 256);
                vstd::arithmetic::div_mod::lemma_fundamental_div_mod(y * 4 + 1, 256);
                assert(v == y * 4 + 1);
            }
        }
        return Some((x, pos + 2));
    } else if mode == 2 {
        if bytes.len() - pos < 4 {
            proof {
                assert forall|y: u32| !prefix_at(bytes@, pos as int, #[trigger] compact_bytes_u32(y)) by {
                    if prefix_at(bytes@, pos as int, compact_bytes_u32(y)) {
                        lemma_decode_mode(bytes@, pos as int, y, b0);
                    }
                }
            }
            return None;
        }
        let b1 = bytes[pos + 1];
        let b2 = bytes[pos + 2];
        let b3 = bytes[pos + 3];
        let v: u32 = b0 as u32 + b1 as u32 * 256 + b2 as u32 * 65536 + b3 as u32 * 16777216;
        let x: u32 = v / 4;
        proof {
            assert(v % 4 == 2) by {
                vstd::arithmetic::div_mod::lemma_fundamental_div_mod_converse(
                    v as int, 4, (b0 / 4) as int + b1 * 64 + b2 * 16384 + b3 * 4194304, 2);
            }
            vstd::arithmetic::div_mod::lemma_fundamental_div_mod(v as int, 4);
            assert(v == x * 4 + 2);
        }
        if x < 16384 {
            proof {
                assert forall|y: u32| !prefix_at(bytes@, pos as int, #[trigger] compact_bytes_u32(y)) by {
                    if prefix_at(bytes@, pos as int, compact_bytes_u32(y)) {
                        lemma_decode_mode(bytes@, pos as int, y, b0);
                        lemma_four_byte_agreement(bytes@, pos as int, y, b0, b1, b2, b3);
                        assert(v == y * 4 + 2);
                        lemma_mod4_of_scaled(y as int, 2);
                    }
                }
            }
            return None;
        }
        proof {
            lemma_mod4_of_scaled(x as int, 2);
            assert(x < 1073741824) by {
                assert(v < 4294967296);
            }
            lemma_le4_digits(v as int);
            vstd::arithmetic::div_mod::lemma_fundamental_div_mod_converse(
                v as int, 256,
                b1 as int + b2 * 256 + b3 * 65536, b0 as int);
            vstd::arithmetic::div_mod::lemma_fundamental_div_mod_converse(
                (v / 256) as int, 256, b2 as int + b3 * 256, b1 as int);
            vstd::arithmetic::div_mod::lemma_div_denominator(v as int, 256, 256);
            vstd::arithmetic::div_mod::lemma_fundamental_div_mod_converse(
                (v / 65536) as int, 256, b3 as int, b2 as int);
            vstd::arithmetic::div_mod::lemma_div_denominator(v as int, 65536, 256);
            assert(b0 == v % 256 && b1 == (v / 256) % 256 && b2 == (v / 65536) % 256
                && b3 == v / 16777216);
            assert(prefix_at(bytes@, pos as int, compact_bytes_u32(x))) by {
                assert(bytes@.subrange(pos as int, pos + 4) =~= compact_bytes_u32(x));
            }
            assert forall|y: u32| prefix_at(bytes@, pos as int, #[trigger] compact_bytes_u32(y))
                implies y == x by {
                lemma_decode_mode(bytes@, pos as int, y, b0);
                lemma_four_byte_agreement(bytes@, pos as int, y, b0, b1, b2, b3);
                assert(v == y * 4 + 2);
                lemma_mod4_of_scaled(y as int, 2);
            }
        }
        return Some((x, pos + 4));
    } else {
        if b0 != 3 {
            proof {
                assert forall|y: u32| !prefix_at(bytes@, pos as int, #[trigger] compact_bytes_u32(y)) by {
                    if prefix_at(bytes@, pos as int, compact_bytes_u32(y)) {
                        lemma_decode_mode(bytes@, pos as int, y, b0);
                    }
                }
            }
            return None;
        }
        if bytes.len() - pos < 5 {
            proof {
                assert forall|y: u32| !prefix_at(bytes@, pos as int, #[trigger] compact_bytes_u32(y)) by {
                    if prefix_at(bytes@, pos as int, compact_bytes_u32(y)) {
                        lemma_decode_mode(bytes@, pos as int, y, b0);
                    }
                }
            }
            return None;
        }
        let b1 = bytes[pos + 1];
        let b2 = bytes[pos + 2];
        let b3 = bytes[pos + 3];
        let b4 = bytes[pos + 4];
        let x: u32 = b1 as u32 + b2 as u32 * 256 + b3 as u32 * 65536 + b4 as u32 * 16777216;
        if x < 1073741824 {
            proof {
                assert forall|y: u32| !prefix_at(bytes@, pos as int, #[trigger] compact_bytes_u32(y)) by {
                    if prefix_at(bytes@, pos as int, compact_bytes_u32(y)) {
                        lemma_decode_mode(bytes@, pos as int, y, b0);
                        lemma_big_byte_agreement(bytes@, pos as int, y, b1, b2, b3, b4);
                        assert(x == y);
                    }
                }
            }
            return None;
        }
        proof {
            lemma_le4_digits(x as int);
            vstd::arithmetic::div_mod::lemma_fundamental_div_mod_converse(
                x as int, 256, b2 as int + b3 * 256 + b4 * 65536, b1 as int);
            vstd::arithmetic::div_mod::lemma_fundamental_div_mod_converse(
                (x / 256) as int, 256, b3 as int + b4 * 256, b2 as int);
            vstd::arithmetic::div_mod::lemma_div_denominator(x as int, 256, 256);
            vstd::arithmetic::div_mod::lemma_fundamental_div_mod_converse(
                (x / 65536) as int, 256, b4 as int, b3 as int);
            vstd::arithmetic::div_mod::lemma_div_denominator(x as int, 65536, 256);
            assert(b1 == x % 256 && b2 == (x / 256) % 256 && b3 == (x / 65536) % 256
                && b4 == x / 16777216);
            assert(prefix_at(bytes@, pos as int, compact_bytes_u32(x))) by {
                assert(bytes@.subrange(pos as int, pos + 5) =~= compact_bytes_u32(x));
            }
            assert forall|y: u32| prefix_at(bytes@, pos as int, #[trigger] compact_bytes_u32(y))
                implies y == x by {
                lemma_decode_mode(bytes@, pos as int, y, b0);
                lemma_big_byte_agreement(bytes@, pos as int, y, b1, b2, b3, b4);
            }
        }
        return Some((x, pos + 5));
    }
}

/// What the first byte of an encoding says about the encoded value: the
/// two lowest bits give the form, so the value's range, and with it the
/// length of the whole encoding.
proof fn lemma_decode_mode(bytes: Seq<u8>, pos: int, y: u32, b0: u8)
    requires
        prefix_at(bytes, pos, compact_bytes_u32(y)),
        pos < bytes.len(),
        bytes[pos] == b0,
    ensures
        y < 64 ==> b0 % 4 == 0 && b0 == y * 4,
        64 <= y < 16384 ==> b0 % 4 == 1 && pos + 2 <= bytes.len(),
        16384 <= y < 1073741824 ==> b0 % 4 == 2 && pos + 4 <= bytes.len(),
        y >= 1073741824 ==> b0 == 3 && pos + 5 <= bytes.len(),
{
    assert(bytes.subrange(pos, pos + compact_bytes_u32(y).len() as int)[0] == b0);
    if y < 64 {
        lemma_mod4_of_scaled(y as int, 0);
    } else if y < 16384 {
        lemma_mod4_of_scaled(y as int, 1);
    } else if y < 1073741824 {
        lemma_mod4_of_scaled(y as int, 2);
    }
}

/// In the four-byte form the stored bytes are the digits of `4y + 2`.
proof fn lemma_four_byte_agreement(bytes: Seq<u8>, pos: int, y: u32, b0: u8, b1: u8, b2: u8, b3: u8)
    requires
        prefix_at(bytes, pos, compact_bytes_u32(y)),
        16384 <= y < 1073741824,
        pos + 4 <= bytes.len(),
        bytes[pos] == b0,
        bytes[pos + 1] == b1,
        bytes[pos + 2] == b2,
        bytes[pos + 3] == b3,
    ensures
        b0 + b1 * 256 + b2 * 65536 + b3 * 16777216 == y * 4 + 2,
{
    let e = compact_bytes_u32(y);
    assert(bytes.subrange(pos, pos + 4)[0] == b0);
    assert(bytes.subrange(pos, pos + 4)[1] == b1);
    assert(bytes.subrange(pos, pos + 4)[2] == b2);
    assert(bytes.subrange(pos, pos + 4)[3] == b3);
    lemma_le4_digits(y * 4 + 2);
}

/// In the marker form the four trailing bytes are the digits of `y`.
proof fn lemma_big_byte_agreement(bytes: Seq<u8>, pos: int, y: u32, b1: u8, b2: u8, b3: u8, b4: u8)
    requires
        prefix_at(bytes, pos, compact_bytes_u32(y)),
        y >= 1073741824,
        pos + 5 <= bytes.len(),
        bytes[pos + 1] == b1,
        bytes[pos + 2] == b2,
        bytes[pos + 3] == b3,
        bytes[pos + 4] == b4,
    ensures
        b1 + b2 * 256 + b3 * 65536 + b4 * 16777216 == y,
{
    let e = compact_bytes_u32(y);
    assert(bytes.subrange(pos, pos + 5)[1] == b1);
    assert(bytes.subrange(pos, pos + 5)[2] == b2);
    assert(bytes.subrange(pos, pos + 5)[3] == b3);
    assert(bytes.subrange(pos, pos + 5)[4] == b4);
    lemma_le4_digits(y as int);
}

/// Reads one variable-length `u16` starting at `pos`: the `u32` form,
/// refused when the value leaves the `u16` range.
pub fn decode_u16_at(bytes: &Vec<u8>, pos: usize) -> (r: Option<(u16, usize)>)
    ensures
        r matches Some((x, n))
            ==> pos + compact_bytes_u16(x).len() == n && prefix_at(bytes@, pos as int, compact_bytes_u16(x)),
        forall|y: u16|
            prefix_at(bytes@, pos as int, #[trigger] compact_bytes_u16(y))
                ==> r == Some::<(u16, usize)>((y, (pos + compact_bytes_u16(y).len()) as usize)),
{
    match decode_u32_at(bytes, pos) {
        Some((v, n)) => {
            if v <= 65535 {
                Some((v as u16, n))
            } else {
                proof {
                    assert forall|y: u16| !prefix_at(bytes@, pos as int, #[trigger] compact_bytes_u16(y)) by {
                        assert(compact_bytes_u16(y) == compact_bytes_u32(y as u32));
                    }
                }
                None
            }
        },
        None => {
            proof {
                assert forall|y: u16| !prefix_at(bytes@, pos as int, #[trigger] compact_bytes_u16(y)) by {
                    assert(compact_bytes_u16(y) == compact_bytes_u32(y as u32));
                }
            }
            None
        },
    }
}

/// The mathematical shape of one row: voter index, explicit edges, final
/// target.
pub type RowModel = (u32, Seq<(u16, u16)>, u16);

/// The mathematical shape of a whole solution: sixteen buckets of rows.
pub type SolutionModel = Seq<Seq<RowModel>>;

/// The model of one stored row.
pub open spec fn row_model(r: CompactRow) -> RowModel {
    (r.voter, r.edges@, r.last_target)
}

/// The model of one bucket.
pub open spec fn bucket_model(b: Vec<CompactRow>) -> Seq<RowModel> {
    b@.map_values(|r: CompactRow| row_model(r))
}

/// The model of a whole solution.
pub open spec fn solution_model(c: CompactSolution) -> SolutionModel {
    c.buckets@.map_values(|b: Vec<CompactRow>| bucket_model(b))
}

/// A model with every bucket present and every row of the right arity.
pub open spec fn wf_model(m: SolutionModel) -> bool {
    &&& m.len() == MAX_FANOUT
    &&& forall|k: int, j: int|
        0 <= k < m.len() && 0 <= j < m[k].len() ==> (#[trigger] m[k][j]).1.len() == k
}

/// Every bucket is small enough for its length prefix.
pub open spec fn encodable_model(m: SolutionModel) -> bool {
    forall|k: int| 0 <= k < m.len() ==> (#[trigger] m[k]).len() <= u32::MAX
}

/// The bytes of one explicit edge: target index, then share.
pub open spec fn pair_bytes(e: (u16, u16)) -> Seq<u8> {
    compact_bytes_u16(e.0) + compact_bytes_u16(e.1)
}

/// The bytes of a run of explicit edges, in order.
pub open spec fn edges_bytes(edges: Seq<(u16, u16)>) -> Seq<u8>
    decreases edges.len(),
{
    if edges.len() == 0 {
        Seq::empty()
    } else {
        edges_bytes(edges.drop_last()) + pair_bytes(edges.last())
    }
}

/// The bytes of one row: voter, explicit edges, final target. No length
/// prefix: the arity is fixed by the enclosing bucket.
pub open spec fn row_bytes(r: RowModel) -> Seq<u8> {
    compact_bytes_u32(r.0) + edges_bytes(r.1) + compact_bytes_u16(r.2)
}

/// The bytes of a run of rows, in order.
pub open spec fn rows_bytes(rows: Seq<RowModel>) -> Seq<u8>
    decreases rows.len(),
{
    if rows.len() == 0 {
        Seq::empty()
    } else {
        rows_bytes(rows.drop_last()) + row_bytes(rows.last())
    }
}

/// The bytes of one bucket: its row count, then its rows.
pub open spec fn bucket_bytes(rows: Seq<RowModel>) -> Seq<u8> {
    compact_bytes_u32(rows.len() as u32) + rows_bytes(rows)
}

/// The bytes of a run of buckets, in increasing arity order.
pub open spec fn buckets_bytes(m: SolutionModel) -> Seq<u8>
    decreases m.len(),
{
    if m.len() == 0 {
        Seq::empty()
    } else {
        buckets_bytes(m.drop_last()) + bucket_bytes(m.last())
    }
}

/// The full wire encoding of a solution.
pub open spec fn encoded_bytes(c: CompactSolution) -> Seq<u8> {
    buckets_bytes(solution_model(c))
}

/// Appending one element extends the encoded run by that element's bytes.
proof fn lemma_edges_bytes_take_step(edges: Seq<(u16, u16)>, i: int)
    requires
        0 <= i < edges.len(),
    ensures
        edges_bytes(edges.take(i + 1)) == edges_bytes(edges.take(i)) + pair_bytes(edges[i]),
{
    assert(edges.take(i + 1).drop_last() =~= edges.take(i));
    assert(edges.take(i + 1).last() == edges[i]);
}

/// Appending one row extends the encoded run by that row's bytes.
proof fn lemma_rows_bytes_take_step(rows: Seq<RowModel>, j: int)
    requires
        0 <= j < rows.len(),
    ensures
        rows_bytes(rows.take(j + 1)) == rows_bytes(rows.take(j)) + row_bytes(rows[j]),
{
    assert(rows.take(j + 1).drop_last() =~= rows.take(j));
    assert(rows.take(j + 1).last() == rows[j]);
}

/// Appending one bucket extends the encoded run by that bucket's bytes.
proof fn lemma_buckets_bytes_take_step(m: SolutionModel, k: int)
    requires
        0 <= k < m.len(),
    ensures
        buckets_bytes(m.take(k + 1)) == buckets_bytes(m.take(k)) + bucket_bytes(m[k]),
{
    assert(m.take(k + 1).drop_last() =~= m.take(k));
    assert(m.take(k + 1).last() == m[k]);
}

/// Serializes a whole solution: all buckets in increasing arity order,
/// each a row count followed by its fixed-arity rows.
pub fn encode(c: &CompactSolution) -> (out: Vec<u8>)
    requires
        encodable_model(solution_model(*c)),
    ensures
        out@ == encoded_bytes(*c),
{
    let ghost m = solution_model(*c);
    let mut out: Vec<u8> = Vec::new();
    let mut k: usize = 0;
    proof {
        assert(out@ =~= buckets_bytes(m.take(0)));
    }
    while k < c.buckets.len()
        invariant
            m == solution_model(*c),
            encodable_model(m),
            m.len() == c.buckets@.len(),
            k <= c.buckets@.len(),
            out@ == buckets_bytes(m.take(k as int)),
        decreases c.buckets@.len() - k,
    {
        let ghost out_bucket = out@;
        let ghost bm = m[k as int];
        proof {
            assert(bm == bucket_model(c.buckets@[k as int]));
            assert(bm.len() == c.buckets@[k as int]@.len());
        }
        let rows = &c.buckets[k];
        encode_u32_into(rows.len() as u32, &mut out);
        let mut j: usize = 0;
        proof {
            assert(out@ =~= out_bucket + compact_bytes_u32(rows@.len() as u32)
                + rows_bytes(bm.take(0)));
        }
        while j < rows.len()
            invariant
                bm == bucket_model(*rows),
                bm.len() == rows@.len(),
                j <= rows@.len(),
                out@ == out_bucket + compact_bytes_u32(rows@.len() as u32)
                    + rows_bytes(bm.take(j as int)),
            decreases rows@.len() - j,
        {
            let ghost out_row = out@;
            let ghost rm = bm[j as int];
            proof {
                assert(rm == row_model(rows@[j as int]));
            }
            let row = &rows[j];
            encode_u32_into(row.voter, &mut out);
            let mut i: usize = 0;
            proof {
                assert(out@ =~= out_row + compact_bytes_u32(rm.0) + edges_bytes(rm.1.take(0)));
            }
            while i < row.edges.len()
                invariant
                    rm.1 == row.edges@,
                    i <= row.edges@.len(),
                    out@ == out_row + compact_bytes_u32(rm.0)
                        + edges_bytes(rm.1.take(i as int)),
                decreases row.edges@.len() - i,
            {
                let (t, s) = row.edges[i];
                encode_u16_into(t, &mut out);
                encode_u16_into(s, &mut out);
                proof {
                    lemma_edges_bytes_take_step(rm.1, i as int);
                    assert(out@ =~= out_row + compact_bytes_u32(rm.0)
                        + edges_bytes(rm.1.take(i + 1)));
                }
                i = i + 1;
            }
            encode_u16_into(row.last_target, &mut out);
            proof {
                assert(rm.1.take(rm.1.len() as int) =~= rm.1);
                lemma_rows_bytes_take_step(bm, j as int);
                assert(out@ =~= out_bucket + compact_bytes_u32(rows@.len() as u32)
                    + rows_bytes(bm.take(j + 1)));
            }
            j = j + 1;
        }
        proof {
            assert(bm.take(bm.len() as int) =~= bm);
            lemma_buckets_bytes_take_step(m, k as int);
            assert(out@ =~= buckets_bytes(m.take(k + 1)));
        }
        k = k + 1;
    }
    proof {
        assert(m.take(m.len() as int) =~= m);
    }
    out
}

/// The number of bytes that `encode` produces for this solution.
pub fn encoded_size(c: &CompactSolution) -> (n: usize)
    requires
        encodable_model(solution_model(*c)),
    ensures
        n == encoded_bytes(*c).len(),
{
    let bytes = encode(c);
    bytes.len()
}

/// The bytes of the edges from position `i` on, in order.
pub open spec fn edges_bytes_from(edges: Seq<(u16, u16)>, i: int) -> Seq<u8>
    decreases edges.len() - i,
{
    if i < 0 || i >= edges.len() {
        Seq::empty()
    } else {
        pair_bytes(edges[i]) + edges_bytes_from(edges, i + 1)
    }
}

/// The bytes of the rows from position `j` on, in order.
pub open spec fn rows_bytes_from(rows: Seq<RowModel>, j: int) -> Seq<u8>
    decreases rows.len() - j,
{
    if j < 0 || j >= rows.len() {
        Seq::empty()
    } else {
        row_bytes(rows[j]) + rows_bytes_from(rows, j + 1)
    }
}

/// The bytes of the buckets from position `k` on, in order.
pub open spec fn buckets_bytes_from(m: SolutionModel, k: int) -> Seq<u8>
    decreases m.len() - k,
{
    if k < 0 || k >= m.len() {
        Seq::empty()
    } else {
        bucket_bytes(m[k]) + buckets_bytes_from(m, k + 1)
    }
}

/// An encoded run splits at any point into its first part and the rest.
proof fn lemma_edges_bytes_split(edges: Seq<(u16, u16)>, i: int)
    requires
        0 <= i <= edges.len(),
    ensures
        edges_bytes(edges) == edges_bytes(edges.take(i)) + edges_bytes_from(edges, i),
    decreases edges.len() - i,
{
    if i == edges.len() {
        assert(edges.take(i) =~= edges);
        assert(edges_bytes(edges.take(i)) + edges_bytes_from(edges, i) =~= edges_bytes(edges));
    } else {
        lemma_edges_bytes_split(edges, i + 1);
        lemma_edges_bytes_take_step(edges, i);
        assert(edges_bytes(edges.take(i)) + (pair_bytes(edges[i]) + edges_bytes_from(edges, i + 1))
            =~= (edges_bytes(edges.take(i)) + pair_bytes(edges[i])) + edges_bytes_from(edges, i + 1));
    }
}

/// An encoded run splits at any point into its first part and the rest.
proof fn lemma_rows_bytes_split(rows: Seq<RowModel>, j: int)
    requires
        0 <= j <= rows.len(),
    ensures
        rows_bytes(rows) == rows_bytes(rows.take(j)) + rows_bytes_from(rows, j),
    decreases rows.len() - j,
{
    if j == rows.len() {
        assert(rows.take(j) =~= rows);
        assert(rows_bytes(rows.take(j)) + rows_bytes_from(rows, j) =~= rows_bytes(rows));
    } else {
        lemma_rows_bytes_split(rows, j + 1);
        lemma_rows_bytes_take_step(rows, j);
        assert(rows_bytes(rows.take(j)) + (row_bytes(rows[j]) + rows_bytes_from(rows, j + 1))
            =~= (rows_bytes(rows.take(j)) + row_bytes(rows[j])) + rows_bytes_from(rows, j + 1));
    }
}

/// An encoded run splits at any point into its first part and the rest.
proof fn lemma_buckets_bytes_split(m: SolutionModel, k: int)
    requires
        0 <= k <= m.len(),
    ensures
        buckets_bytes(m) == buckets_bytes(m.take(k)) + buckets_bytes_from(m, k),
    decreases m.len() - k,
{
    if k == m.len() {
        assert(m.take(k) =~= m);
        assert(buckets_bytes(m.take(k)) + buckets_bytes_from(m, k) =~= buckets_bytes(m));
    } else {
        lemma_buckets_bytes_split(m, k + 1);
        lemma_buckets_bytes_take_step(m, k);
        assert(buckets_bytes(m.take(k)) + (bucket_bytes(m[k]) + buckets_bytes_from(m, k + 1))
            =~= (buckets_bytes(m.take(k)) + bucket_bytes(m[k])) + buckets_bytes_from(m, k + 1));
    }
}

/// A pattern built of two parts sits at `pos` exactly when the first part
/// sits at `pos` and the second right after it.
proof fn lemma_prefix_at_concat(bytes: Seq<u8>, pos: int, a: Seq<u8>, b: Seq<u8>)
    requires
        0 <= pos,
    ensures
        prefix_at(bytes, pos, a + b) <==> (prefix_at(bytes, pos, a)
            && prefix_at(bytes, pos + a.len(), b)),
{
    if prefix_at(bytes, pos, a + b) {
        let whole = bytes.subrange(pos, pos + a.len() + b.len());
        assert(whole == a + b);
        assert forall|i: int| 0 <= i < a.len()
            implies bytes.subrange(pos, pos + a.len())[i] == a[i] by {
            assert(whole[i] == a[i]);
        }
        assert(bytes.subrange(pos, pos + a.len()) =~= a);
        assert forall|i: int| 0 <= i < b.len()
            implies bytes.subrange(pos + a.len(), pos + a.len() + b.len())[i] == b[i] by {
            assert(whole[a.len() + i] == b[i]);
        }
        assert(bytes.subrange(pos + a.len(), pos + a.len() + b.len()) =~= b);
    }
    if prefix_at(bytes, pos, a) && prefix_at(bytes, pos + a.len(), b) {
        let whole = bytes.subrange(pos, pos + a.len() + b.len());
        assert forall|i: int| 0 <= i < a.len() + b.len() implies whole[i] == (a + b)[i] by {
            if i < a.len() {
                assert(bytes.subrange(pos, pos + a.len())[i] == a[i]);
            } else {
                assert(bytes.subrange(pos + a.len(), pos + a.len() + b.len())[i - a.len()]
                    == b[i - a.len()]);
            }
        }
        assert(whole =~= a + b);
    }
}

/// Reads one row of the given arity: a voter, that many explicit edges,
/// and the final target. Sound and complete for the row wire format.
fn decode_row_at(bytes: &Vec<u8>, pos: usize, arity_edges: usize) -> (r: Option<(CompactRow, usize)>)
    ensures
        r matches Some((row, n)) ==> {
            &&& row.edges@.len() == arity_edges
            &&& n == pos + row_bytes(row_model(row)).len()
            &&& prefix_at(bytes@, pos as int, row_bytes(row_model(row)))
        },
        forall|rm: RowModel|
            rm.1.len() == arity_edges && prefix_at(bytes@, pos as int, #[trigger] row_bytes(rm))
                ==> (r matches Some((row, n)) && row_model(row) == rm
                    && n == pos + row_bytes(rm).len()),
{
    proof {
        assert forall|rm: RowModel|
            rm.1.len() == arity_edges && prefix_at(bytes@, pos as int, #[trigger] row_bytes(rm))
            implies prefix_at(bytes@, pos as int, compact_bytes_u32(rm.0))
                && prefix_at(bytes@, pos + compact_bytes_u32(rm.0).len(),
                    edges_bytes(rm.1) + compact_bytes_u16(rm.2)) by {
            lemma_prefix_at_concat(bytes@, pos as int, compact_bytes_u32(rm.0),
                edges_bytes(rm.1) + compact_bytes_u16(rm.2));
            assert(row_bytes(rm) =~= compact_bytes_u32(rm.0)
                + (edges_bytes(rm.1) + compact_bytes_u16(rm.2)));
        }
    }
    let (voter, mut pos_cur) = match decode_u32_at(bytes, pos) {
        Some(v) => v,
        None => {
            proof {
                assert forall|rm: RowModel|
                    !(rm.1.len() == arity_edges
                        && prefix_at(bytes@, pos as int, #[trigger] row_bytes(rm))) by {
                    if rm.1.len() == arity_edges
                        && prefix_at(bytes@, pos as int, row_bytes(rm)) {
                        assert(prefix_at(bytes@, pos as int, compact_bytes_u32(rm.0)));
                    }
                }
            }
            return None;
        },
    };
    let ghost vpos = pos_cur as int;
    let mut edges: Vec<(u16, u16)> = Vec::new();
    let mut i: usize = 0;
    proof {
        assert(edges_bytes(edges@) =~= Seq::<u8>::empty());
        assert(prefix_at(bytes@, vpos, edges_bytes(edges@))) by {
            assert(bytes@.subrange(vpos, vpos) =~= Seq::<u8>::empty());
        }
        assert forall|rm: RowModel|
            rm.1.len() == arity_edges && prefix_at(bytes@, pos as int, #[trigger] row_bytes(rm))
            implies prefix_at(bytes@, vpos, edges_bytes_from(rm.1, 0) + compact_bytes_u16(rm.2)) by {
            assert(rm.0 == voter && vpos == pos + compact_bytes_u32(rm.0).len());
            lemma_edges_bytes_split(rm.1, 0);
            assert(rm.1.take(0) =~= Seq::<(u16, u16)>::empty());
            assert(edges_bytes(rm.1) =~= edges_bytes_from(rm.1, 0));
        }
    }
    while i < arity_edges
        invariant
            i <= arity_edges,
            edges@.len() == i,
            vpos <= pos_cur <= bytes@.len(),
            pos_cur == vpos + edges_bytes(edges@).len(),
            prefix_at(bytes@, vpos, edges_bytes(edges@)),
            forall|rm: RowModel|
                rm.1.len() == arity_edges
                    && prefix_at(bytes@, pos as int, #[trigger] row_bytes(rm))
                    ==> rm.0 == voter && edges@ == rm.1.take(i as int)
                        && prefix_at(bytes@, pos_cur as int,
                            edges_bytes_from(rm.1, i as int) + compact_bytes_u16(rm.2)),
        decreases arity_edges - i,
    {
        proof {
            assert forall|rm: RowModel|
                rm.1.len() == arity_edges && prefix_at(bytes@, pos as int, #[trigger] row_bytes(rm))
                implies prefix_at(bytes@, pos_cur as int, compact_bytes_u16(rm.1[i as int].0))
                    && prefix_at(bytes@,
                        pos_cur + compact_bytes_u16(rm.1[i as int].0).len(),
                        compact_bytes_u16(rm.1[i as int].1)) by {
                assert(edges_bytes_from(rm.1, i as int)
                    == pair_bytes(rm.1[i as int]) + edges_bytes_from(rm.1, i + 1));
                lemma_prefix_at_concat(bytes@, pos_cur as int, pair_bytes(rm.1[i as int]),
                    edges_bytes_from(rm.1, i + 1) + compact_bytes_u16(rm.2));
                assert((pair_bytes(rm.1[i as int]) + edges_bytes_from(rm.1, i + 1))
                    + compact_bytes_u16(rm.2)
                    =~= pair_bytes(rm.1[i as int])
                        + (edges_bytes_from(rm.1, i + 1) + compact_bytes_u16(rm.2)));
                lemma_prefix_at_concat(bytes@, pos_cur as int,
                    compact_bytes_u16(rm.1[i as int].0), compact_bytes_u16(rm.1[i as int].1));
            }
        }
        let (t, p1) = match decode_u16_at(bytes, pos_cur) {
            Some(v) => v,
            None => {
                return None;
            },
        };
        let (s, p2) = match decode_u16_at(bytes, p1) {
            Some(v) => v,
            None => {
                return None;
            },
        };
        proof {
            let e = edges@.push((t, s));
            assert(e.drop_last() =~= edges@);
            assert(edges_bytes(e) == edges_bytes(edges@) + pair_bytes((t, s)));
            assert(prefix_at(bytes@, vpos, edges_bytes(e))) by {
                lemma_prefix_at_concat(bytes@, vpos, edges_bytes(edges@), pair_bytes((t, s)));
                lemma_prefix_at_concat(bytes@, pos_cur as int, compact_bytes_u16(t),
                    compact_bytes_u16(s));
            }
            assert forall|rm: RowModel|
                rm.1.len() == arity_edges
                    && prefix_at(bytes@, pos as int, #[trigger] row_bytes(rm))
                implies rm.0 == voter && e == rm.1.take(i + 1)
                    && prefix_at(bytes@, p2 as int,
                        edges_bytes_from(rm.1, i + 1) + compact_bytes_u16(rm.2)) by {
                assert(edges_bytes_from(rm.1, i as int)
                    == pair_bytes(rm.1[i as int]) + edges_bytes_from(rm.1, i + 1));
                lemma_prefix_at_concat(bytes@, pos_cur as int,
                    pair_bytes(rm.1[i as int]),
                    edges_bytes_from(rm.1, i + 1) + compact_bytes_u16(rm.2));
                assert((pair_bytes(rm.1[i as int]) + edges_bytes_from(rm.1, i + 1))
                    + compact_bytes_u16(rm.2)
                    =~= pair_bytes(rm.1[i as int])
                        + (edges_bytes_from(rm.1, i + 1) + compact_bytes_u16(rm.2)));
                lemma_prefix_at_concat(bytes@, pos_cur as int,
                    compact_bytes_u16(rm.1[i as int].0), compact_bytes_u16(rm.1[i as int].1));
                assert(rm.1[i as int].0 == t && rm.1[i as int].1 == s);
                assert(e =~= rm.1.take(i + 1));
            }
        }
        edges.push((t, s));
        pos_cur = p2;
        i = i + 1;
    }
    let (last, pos_end) = match decode_u16_at(bytes, pos_cur) {
        Some(v) => v,
        None => {
            proof {
                assert forall|rm: RowModel|
                    !(rm.1.len() == arity_edges
                        && prefix_at(bytes@, pos as int, #[trigger] row_bytes(rm))) by {
                    if rm.1.len() == arity_edges
                        && prefix_at(bytes@, pos as int, row_bytes(rm)) {
                        assert(rm.1.take(arity_edges as int) =~= rm.1);
                        assert(edges_bytes_from(rm.1, arity_edges as int)
                            =~= Seq::<u8>::empty());
                        assert(Seq::<u8>::empty() + compact_bytes_u16(rm.2)
                            =~= compact_bytes_u16(rm.2));
                    }
                }
            }
            return None;
        },
    };
    let row = CompactRow { voter, edges, last_target: last };
    proof {
        assert(prefix_at(bytes@, pos as int, row_bytes(row_model(row)))) by {
            lemma_prefix_at_concat(bytes@, vpos, edges_bytes(row.edges@),
                compact_bytes_u16(last));
            lemma_prefix_at_concat(bytes@, pos as int, compact_bytes_u32(voter),
                edges_bytes(row.edges@) + compact_bytes_u16(last));
            assert(row_bytes(row_model(row)) =~= compact_bytes_u32(voter)
                + (edges_bytes(row.edges@) + compact_bytes_u16(last)));
        }
        assert forall|rm: RowModel|
            rm.1.len() == arity_edges && prefix_at(bytes@, pos as int, #[trigger] row_bytes(rm))
            implies row_model(row) == rm by {
            assert(rm.1.take(arity_edges as int) =~= rm.1);
            assert(edges_bytes_from(rm.1, arity_edges as int) =~= Seq::<u8>::empty());
            assert(Seq::<u8>::empty() + compact_bytes_u16(rm.2) =~= compact_bytes_u16(rm.2));
            assert(rm.2 == last);
        }
    }
    Some((row, pos_end))
}

/// Reads `count` rows of the given arity. Sound and complete for a
/// bucket's row run.
fn decode_rows_at(bytes: &Vec<u8>, pos: usize, arity_edges: usize, count: u32) -> (r: Option<(
    Vec<CompactRow>,
    usize,
)>)
    requires
        pos <= bytes@.len(),
    ensures
        r matches Some((rows, n)) ==> {
            &&& rows@.len() == count
            &&& forall|j: int| 0 <= j < rows@.len()
                ==> (#[trigger] rows@[j]).edges@.len() == arity_edges
            &&& n == pos + rows_bytes(bucket_model(rows)).len()
            &&& prefix_at(bytes@, pos as int, rows_bytes(bucket_model(rows)))
        },
        forall|rs: Seq<RowModel>|
            rs.len() == count && (forall|j: int| 0 <= j < rs.len()
                ==> (#[trigger] rs[j]).1.len() == arity_edges)
                && prefix_at(bytes@, pos as int, #[trigger] rows_bytes(rs))
                ==> (r matches Some((rows, n)) && bucket_model(rows) == rs
                    && n == pos + rows_bytes(rs).len()),
{
    let mut rows: Vec<CompactRow> = Vec::new();
    let mut pos_cur = pos;
    let mut j: u32 = 0;
    proof {
        assert(rows_bytes(bucket_model(rows)) =~= Seq::<u8>::empty());
        assert(prefix_at(bytes@, pos as int, rows_bytes(bucket_model(rows)))) by {
            assert(bytes@.subrange(pos as int, pos as int) =~= Seq::<u8>::empty());
        }
        assert forall|rs: Seq<RowModel>|
            rs.len() == count && prefix_at(bytes@, pos as int, #[trigger] rows_bytes(rs))
            implies prefix_at(bytes@, pos as int, rows_bytes_from(rs, 0)) by {
            lemma_rows_bytes_split(rs, 0);
            assert(rs.take(0) =~= Seq::<RowModel>::empty());
            assert(rows_bytes(rs) =~= rows_bytes_from(rs, 0));
        }
    }
    while j < count
        invariant
            j <= count,
            rows@.len() == j,
            forall|jj: int| 0 <= jj < rows@.len()
                ==> (#[trigger] rows@[jj]).edges@.len() == arity_edges,
            pos <= pos_cur <= bytes@.len(),
            pos_cur == pos + rows_bytes(bucket_model(rows)).len(),
            prefix_at(bytes@, pos as int, rows_bytes(bucket_model(rows))),
            forall|rs: Seq<RowModel>|
                rs.len() == count && (forall|jj: int| 0 <= jj < rs.len()
                    ==> (#[trigger] rs[jj]).1.len() == arity_edges)
                    && prefix_at(bytes@, pos as int, #[trigger] rows_bytes(rs))
                    ==> bucket_model(rows) == rs.take(j as int)
                        && prefix_at(bytes@, pos_cur as int, rows_bytes_from(rs, j as int)),
        decreases count - j,
    {
        proof {
            assert forall|rs: Seq<RowModel>|
                rs.len() == count && (forall|jj: int| 0 <= jj < rs.len()
                    ==> (#[trigger] rs[jj]).1.len() == arity_edges)
                    && prefix_at(bytes@, pos as int, #[trigger] rows_bytes(rs))
                implies prefix_at(bytes@, pos_cur as int, row_bytes(rs[j as int]))
                    && rs[j as int].1.len() == arity_edges by {
                assert(rows_bytes_from(rs, j as int)
                    == row_bytes(rs[j as int]) + rows_bytes_from(rs, j + 1));
                lemma_prefix_at_concat(bytes@, pos_cur as int, row_bytes(rs[j as int]),
                    rows_bytes_from(rs, j + 1));
                assert(rs[j as int].1.len() == arity_edges);
            }
        }
        let (row, p1) = match decode_row_at(bytes, pos_cur, arity_edges) {
            Some(v) => v,
            None => {
                return None;
            },
        };
        let ghost bm_old = bucket_model(rows);
        proof {
            let bm = bm_old;
            let bm2 = bm_old.push(row_model(row));
            assert(bm2.drop_last() =~= bm);
            assert(rows_bytes(bm2) == rows_bytes(bm) + row_bytes(row_model(row)));
            assert(prefix_at(bytes@, pos as int, rows_bytes(bm2))) by {
                lemma_prefix_at_concat(bytes@, pos as int, rows_bytes(bm),
                    row_bytes(row_model(row)));
            }
            assert forall|rs: Seq<RowModel>|
                rs.len() == count && (forall|jj: int| 0 <= jj < rs.len()
                    ==> (#[trigger] rs[jj]).1.len() == arity_edges)
                    && prefix_at(bytes@, pos as int, #[trigger] rows_bytes(rs))
                implies bm2 == rs.take(j + 1)
                    && prefix_at(bytes@, p1 as int, rows_bytes_from(rs, j + 1)) by {
                assert(rows_bytes_from(rs, j as int)
                    == row_bytes(rs[j as int]) + rows_bytes_from(rs, j + 1));
                lemma_prefix_at_concat(bytes@, pos_cur as int, row_bytes(rs[j as int]),
                    rows_bytes_from(rs, j + 1));
                assert(rs[j as int].1.len() == arity_edges);
                assert(row_model(row) == rs[j as int]);
                assert(bm2 =~= rs.take(j + 1));
            }
        }
        rows.push(row);
        pos_cur = p1;
        j = j + 1;
        proof {
            assert(bucket_model(rows) =~= bm_old.push(row_model(row)));
        }
    }
    proof {
        assert forall|rs: Seq<RowModel>|
            rs.len() == count && (forall|jj: int| 0 <= jj < rs.len()
                ==> (#[trigger] rs[jj]).1.len() == arity_edges)
                && prefix_at(bytes@, pos as int, #[trigger] rows_bytes(rs))
            implies bucket_model(rows) == rs by {
            assert(rs.take(count as int) =~= rs);
        }
    }
    Some((rows, pos_cur))
}

/// Deserializes a whole solution from the front of `bytes`, returning it
/// with the number of bytes consumed. Succeeds exactly when the bytes
/// begin with the encoding of a well-formed solution: the two ensures
/// clauses give the parse's soundness and, for every well-formed model,
/// its completeness, so decoding an encoded solution returns that very
/// solution.
pub fn decode(bytes: &Vec<u8>) -> (r: Option<(CompactSolution, usize)>)
    ensures
        r matches Some((c, n)) ==> {
            &&& c.wf()
            &&& encodable_model(solution_model(c))
            &&& n == encoded_bytes(c).len()
            &&& prefix_at(bytes@, 0, encoded_bytes(c))
        },
        forall|m: SolutionModel|
            wf_model(m) && encodable_model(m) && prefix_at(bytes@, 0, #[trigger] buckets_bytes(m))
                ==> (r matches Some((c, n)) && solution_model(c) == m
                    && n == buckets_bytes(m).len()),
{
    let mut buckets: Vec<Vec<CompactRow>> = Vec::new();
    let mut pos_cur: usize = 0;
    let mut k: usize = 0;
    proof {
        assert(solution_model(CompactSolution { buckets }) =~= Seq::<Seq<RowModel>>::empty());
        assert(buckets_bytes(solution_model(CompactSolution { buckets })) =~= Seq::<u8>::empty());
        assert(prefix_at(bytes@, 0, buckets_bytes(solution_model(CompactSolution { buckets })))) by {
            assert(bytes@.subrange(0, 0) =~= Seq::<u8>::empty());
        }
        assert forall|m: SolutionModel|
            wf_model(m) && prefix_at(bytes@, 0, #[trigger] buckets_bytes(m))
            implies prefix_at(bytes@, 0, buckets_bytes_from(m, 0)) by {
            lemma_buckets_bytes_split(m, 0);
            assert(m.take(0) =~= Seq::<Seq<RowModel>>::empty());
            assert(buckets_bytes(m) =~= buckets_bytes_from(m, 0));
        }
    }
    while k < MAX_FANOUT
        invariant
            k <= MAX_FANOUT,
            buckets@.len() == k,
            forall|kk: int, jj: int|
                0 <= kk < buckets@.len() && 0 <= jj < buckets@[kk]@.len()
                    ==> (#[trigger] buckets@[kk]@[jj]).edges@.len() == kk,
            forall|kk: int| 0 <= kk < buckets@.len()
                ==> (#[trigger] buckets@[kk]@).len() <= u32::MAX,
            pos_cur <= bytes@.len(),
            pos_cur == buckets_bytes(solution_model(CompactSolution { buckets })).len(),
            prefix_at(bytes@, 0, buckets_bytes(solution_model(CompactSolution { buckets }))),
            forall|m: SolutionModel|
                wf_model(m) && encodable_model(m)
                    && prefix_at(bytes@, 0, #[trigger] buckets_bytes(m))
                    ==> solution_model(CompactSolution { buckets }) == m.take(k as int)
                        && prefix_at(bytes@, pos_cur as int, buckets_bytes_from(m, k as int)),
        decreases MAX_FANOUT - k,
    {
        let ghost old_buckets = buckets;
        let (n_rows, p1) = match decode_u32_at(bytes, pos_cur) {
            Some(v) => v,
            None => {
                proof {
                    assert forall|m: SolutionModel|
                        !(wf_model(m) && encodable_model(m)
                            && prefix_at(bytes@, 0, #[trigger] buckets_bytes(m))) by {
                        if wf_model(m) && encodable_model(m)
                            && prefix_at(bytes@, 0, buckets_bytes(m)) {
                            lemma_pin_bucket(bytes@, m, k as int, pos_cur as int);
                        }
                    }
                }
                return None;
            },
        };
        let (bucket, p2) = match decode_rows_at(bytes, p1, k, n_rows) {
            Some(v) => v,
            None => {
                proof {
                    assert forall|m: SolutionModel|
                        !(wf_model(m) && encodable_model(m)
                            && prefix_at(bytes@, 0, #[trigger] buckets_bytes(m))) by {
                        if wf_model(m) && encodable_model(m)
                            && prefix_at(bytes@, 0, buckets_bytes(m)) {
                            lemma_pin_bucket(bytes@, m, k as int, pos_cur as int);
                            assert(n_rows == m[k as int].len() as u32);
                            assert(m[k as int].len() == n_rows as int);
                            assert forall|jj: int| 0 <= jj < m[k as int].len()
                                implies (#[trigger] m[k as int][jj]).1.len() == k by {
                                assert(m[k as int][jj].1.len() == k);
                            }
                            assert(prefix_at(bytes@, p1 as int,
                                rows_bytes(m[k as int])));
                        }
                    }
                }
                return None;
            },
        };
        proof {
            assert forall|m: SolutionModel|
                wf_model(m) && encodable_model(m)
                    && prefix_at(bytes@, 0, #[trigger] buckets_bytes(m))
                implies solution_model(CompactSolution { buckets: old_buckets }).push(
                    bucket_model(bucket)) == m.take(k + 1)
                    && prefix_at(bytes@, p2 as int, buckets_bytes_from(m, k + 1)) by {
                lemma_pin_bucket(bytes@, m, k as int, pos_cur as int);
                assert(n_rows == m[k as int].len() as u32);
                assert(m[k as int].len() == n_rows as int);
                assert forall|jj: int| 0 <= jj < m[k as int].len()
                    implies (#[trigger] m[k as int][jj]).1.len() == k by {
                    assert(m[k as int][jj].1.len() == k);
                }
                lemma_prefix_at_concat(bytes@, p1 as int, rows_bytes(m[k as int]),
                    buckets_bytes_from(m, k + 1));
                assert(bucket_model(bucket) == m[k as int]);
                assert(solution_model(CompactSolution { buckets: old_buckets }).push(
                    bucket_model(bucket)) =~= m.take(k + 1));
            }
            let sm = solution_model(CompactSolution { buckets: old_buckets });
            let ghost bucket0 = bucket;
            let sm2 = sm.push(bucket_model(bucket0));
            assert(sm2.drop_last() =~= sm);
            assert(buckets_bytes(sm2) == buckets_bytes(sm) + bucket_bytes(bucket_model(bucket0)));
            assert(prefix_at(bytes@, 0, buckets_bytes(sm2))) by {
                lemma_prefix_at_concat(bytes@, 0, buckets_bytes(sm),
                    bucket_bytes(bucket_model(bucket0)));
                lemma_prefix_at_concat(bytes@, pos_cur as int,
                    compact_bytes_u32(bucket_model(bucket0).len() as u32),
                    rows_bytes(bucket_model(bucket0)));
                assert(bucket_bytes(bucket_model(bucket0))
                    =~= compact_bytes_u32(bucket_model(bucket0).len() as u32)
                        + rows_bytes(bucket_model(bucket0)));
            }
        }
        buckets.push(bucket);
        pos_cur = p2;
        k = k + 1;
        proof {
            assert(solution_model(CompactSolution { buckets })
                =~= solution_model(CompactSolution { buckets: old_buckets }).push(
                    bucket_model(buckets@[k - 1])));
        }
    }
    let c = CompactSolution { buckets };
    proof {
        assert forall|m: SolutionModel|
            wf_model(m) && encodable_model(m) && prefix_at(bytes@, 0, #[trigger] buckets_bytes(m))
            implies solution_model(c) == m by {
            assert(m.take(MAX_FANOUT as int) =~= m);
        }
    }
    Some((c, pos_cur))
}

/// At the front of bucket `k`'s bytes, the row count read is the
/// candidate's bucket length and the rows follow at once.
proof fn lemma_pin_bucket(bytes: Seq<u8>, m: SolutionModel, k: int, pos: int)
    requires
        wf_model(m),
        encodable_model(m),
        0 <= k < m.len(),
        prefix_at(bytes, pos, buckets_bytes_from(m, k)),
    ensures
        prefix_at(bytes, pos, compact_bytes_u32(m[k].len() as u32)),
        prefix_at(bytes, pos + compact_bytes_u32(m[k].len() as u32).len(),
            rows_bytes(m[k]) + buckets_bytes_from(m, k + 1)),
        prefix_at(bytes, pos + compact_bytes_u32(m[k].len() as u32).len(), rows_bytes(m[k])),
{
    assert(buckets_bytes_from(m, k) == bucket_bytes(m[k]) + buckets_bytes_from(m, k + 1));
    assert(bucket_bytes(m[k]) + buckets_bytes_from(m, k + 1)
        =~= compact_bytes_u32(m[k].len() as u32)
            + (rows_bytes(m[k]) + buckets_bytes_from(m, k + 1)));
    lemma_prefix_at_concat(bytes, pos, compact_bytes_u32(m[k].len() as u32),
        rows_bytes(m[k]) + buckets_bytes_from(m, k + 1));
    lemma_prefix_at_concat(bytes, pos + compact_bytes_u32(m[k].len() as u32).len(),
        rows_bytes(m[k]), buckets_bytes_from(m, k + 1));
}

} // verus!
