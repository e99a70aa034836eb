//! Byte-level checks of the wire codec: round trips across all fan-out
//! arities, canonical-form rejection, and byte-for-byte agreement with an
//! independent implementation of the variable-length integer form.

use parity_scale_codec::{Compact, Encode};
use two_phase_election::codec::{decode, decode_u32_at, encode, encode_u16_into, encode_u32_into};
use two_phase_election::compact::{CompactRow, CompactSolution, MAX_FANOUT};

fn empty_solution() -> CompactSolution {
    CompactSolution { buckets: (0..MAX_FANOUT).map(|_| Vec::new()).collect() }
}

fn row(voter: u32, edges: Vec<(u16, u16)>, last_target: u16) -> CompactRow {
    CompactRow { voter, edges, last_target }
}

#[test]
fn compact_u32_agrees_with_reference_codec() {
    let samples: Vec<u32> = vec![
        0, 1, 42, 63, 64, 255, 256, 16383, 16384, 65535, 65536, 1073741823, 1073741824,
        u32::MAX,
    ];
    for x in samples {
        let mut ours: Vec<u8> = Vec::new();
        encode_u32_into(x, &mut ours);
        let reference = Compact(x).encode();
        assert_eq!(ours, reference);
    }
}

#[test]
fn compact_u16_agrees_with_reference_codec() {
    let samples: Vec<u16> = vec![0, 1, 63, 64, 16383, 16384, u16::MAX];
    for x in samples {
        let mut ours: Vec<u8> = Vec::new();
        encode_u16_into(x, &mut ours);
        let reference = Compact(x).encode();
        assert_eq!(ours, reference);
    }
}

#[test]
fn whole_solution_agrees_with_reference_codec() {
    let mut c = empty_solution();
    c.buckets[0].push(row(2, vec![], 3));
    c.buckets[1].push(row(7, vec![(1, 30000)], 2));
    let ours = encode(&c);

    // The reference layout: sixteen vectors, in increasing arity order.
    let mut reference: Vec<u8> = Vec::new();
    vec![(Compact(2u32), Compact(3u16))].encode_to(&mut reference);
    vec![(Compact(7u32), (Compact(1u16), Compact(30000u16)), Compact(2u16))]
        .encode_to(&mut reference);
    for _ in 2..MAX_FANOUT {
        Vec::<u8>::new().encode_to(&mut reference);
    }
    assert_eq!(ours, reference);
}

#[test]
fn decode_inverts_encode_across_all_arities() {
    let mut c = empty_solution();
    for arity in 1..=MAX_FANOUT {
        let edges: Vec<(u16, u16)> = (0..arity - 1).map(|e| (e as u16, 100 + e as u16)).collect();
        c.buckets[arity - 1].push(row(1000 + arity as u32, edges, arity as u16));
    }
    c.buckets[0].push(row(u32::MAX, vec![], u16::MAX));
    let bytes = encode(&c);
    let (back, used) = decode(&bytes).expect("an encoded solution must decode");
    assert_eq!(used, bytes.len());
    assert_eq!(back, c);
}

#[test]
fn decode_of_empty_solution_round_trips() {
    let c = empty_solution();
    let bytes = encode(&c);
    assert_eq!(bytes.len(), MAX_FANOUT);
    let (back, used) = decode(&bytes).expect("empty solution must decode");
    assert_eq!(used, MAX_FANOUT);
    assert_eq!(back, c);
}

#[test]
fn decode_ignores_trailing_bytes() {
    let mut c = empty_solution();
    c.buckets[0].push(row(9, vec![], 1));
    let mut bytes = encode(&c);
    let clean_len = bytes.len();
    bytes.push(0xAB);
    bytes.push(0xCD);
    let (back, used) = decode(&bytes).expect("prefix must decode");
    assert_eq!(used, clean_len);
    assert_eq!(back, c);
}

#[test]
fn decode_rejects_truncated_input() {
    let mut c = empty_solution();
    c.buckets[3].push(row(5, vec![(1, 2), (3, 4), (5, 6)], 7));
    let bytes = encode(&c);
    let cut: Vec<u8> = bytes[..bytes.len() - 1].to_vec();
    assert!(decode(&cut).is_none());
}

#[test]
fn integer_decode_rejects_non_canonical_form() {
    // The value 1 stored in the two-byte form instead of its one-byte form.
    let bytes: Vec<u8> = vec![0b0000_0101, 0];
    assert!(decode_u32_at(&bytes, 0).is_none());
    // The canonical one-byte form decodes.
    let good: Vec<u8> = vec![0b0000_0100];
    assert_eq!(decode_u32_at(&good, 0), Some((1, 1)));
}
