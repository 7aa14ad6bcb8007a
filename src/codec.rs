use vstd::prelude::*;
use crate::membership::PositionUpdate;

verus! {

/// Size of a position datagram: an 8-byte little-endian length prefix that is always 16,
/// the 16 bytes of the player identifier, most significant first, then the bit patterns
/// of x, y and z, 4 bytes each, least significant first.
pub const DATAGRAM_LEN: usize = 36;

/// The identifier held big-endian in `b[o..o + 16]`.
pub open spec fn be16(b: Seq<u8>, o: int) -> u128 {
    ((b[o] as u128) << 120u128) | ((b[o + 1] as u128) << 112u128) | ((b[o + 2] as u128) << 104u128) | ((b[o + 3] as u128) << 96u128) | ((b[o + 4] as u128) << 88u128) | ((b[o + 5] as u128) << 80u128) | ((b[o + 6] as u128) << 72u128) | ((b[o + 7] as u128) << 64u128) | ((b[o + 8] as u128) << 56u128) | ((b[o + 9] as u128) << 48u128) | ((b[o + 10] as u128) << 40u128) | ((b[o + 11] as u128) << 32u128) | ((b[o + 12] as u128) << 24u128) | ((b[o + 13] as u128) << 16u128) | ((b[o + 14] as u128) << 8u128) | ((b[o + 15] as u128) << 0u128)
}

/// The 32-bit value held little-endian in `b[o..o + 4]`.
pub open spec fn le4(b: Seq<u8>, o: int) -> u32 {
    (b[o] as u32) | ((b[o + 1] as u32) << 8u32) | ((b[o + 2] as u32) << 16u32) | ((b[o + 3] as u32) << 24u32)
}

/// The prefix that every datagram starts with.
pub open spec fn header() -> Seq<u8> {
    seq![16u8, 0u8, 0u8, 0u8, 0u8, 0u8, 0u8, 0u8]
}

/// The bytes of the datagram that carries `u`.
pub open spec fn encode_spec(u: PositionUpdate) -> Seq<u8> {
    header() + seq![((u.player_id >> 120u128) % 256u128) as u8, ((u.player_id >> 112u128) % 256u128) as u8, ((u.player_id >> 104u128) % 256u128) as u8, ((u.player_id >> 96u128) % 256u128) as u8, ((u.player_id >> 88u128) % 256u128) as u8, ((u.player_id >> 80u128) % 256u128) as u8, ((u.player_id >> 72u128) % 256u128) as u8, ((u.player_id >> 64u128) % 256u128) as u8, ((u.player_id >> 56u128) % 256u128) as u8, ((u.player_id >> 48u128) % 256u128) as u8, ((u.player_id >> 40u128) % 256u128) as u8, ((u.player_id >> 32u128) % 256u128) as u8, ((u.player_id >> 24u128) % 256u128) as u8, ((u.player_id >> 16u128) % 256u128) as u8, ((u.player_id >> 8u128) % 256u128) as u8, ((u.player_id >> 0u128) % 256u128) as u8] + seq![(u.x % 256u32) as u8, ((u.x >> 8u32) % 256u32) as u8, ((u.x >> 16u32) % 256u32) as u8, ((u.x >> 24u32) % 256u32) as u8] + seq![(u.y % 256u32) as u8, ((u.y >> 8u32) % 256u32) as u8, ((u.y >> 16u32) % 256u32) as u8, ((u.y >> 24u32) % 256u32) as u8] + seq![(u.z % 256u32) as u8, ((u.z >> 8u32) % 256u32) as u8, ((u.z >> 16u32) % 256u32) as u8, ((u.z >> 24u32) % 256u32) as u8]
}

/// The update that the bytes `b` carry, or `None` for a malformed datagram.
pub open spec fn decode_spec(b: Seq<u8>) -> Option<PositionUpdate> {
    if b.len() == 36 && b.subrange(0, 8) == header() {
        Some(PositionUpdate { player_id: be16(b, 8), x: le4(b, 24), y: le4(b, 28), z: le4(b, 32) })
    } else {
        None
    }
}

/// Frames an update as a datagram.
pub fn encode_update(u: &PositionUpdate) -> (r: Vec<u8>)
    ensures
        r@ == encode_spec(*u),
{
    let mut r: Vec<u8> = Vec::new();
    r.push(16u8);
    let mut i: usize = 0;
    while i < 7
        invariant
            i <= 7,
            r@ == seq![16u8] + Seq::new(i as nat, |k: int| 0u8),
        decreases 7 - i,
    {
        r.push(0u8);
        proof {
            assert(r@ =~= seq![16u8] + Seq::new((i + 1) as nat, |k: int| 0u8));
        }
        i = i + 1;
    }
    proof {
        assert(r@ =~= header());
    }
    r.push(((u.player_id >> 120u128) % 256u128) as u8);
    r.push(((u.player_id >> 112u128) % 256u128) as u8);
    r.push(((u.player_id >> 104u128) % 256u128) as u8);
    r.push(((u.player_id >> 96u128) % 256u128) as u8);
    r.push(((u.player_id >> 88u128) % 256u128) as u8);
    r.push(((u.player_id >> 80u128) % 256u128) as u8);
    r.push(((u.player_id >> 72u128) % 256u128) as u8);
    r.push(((u.player_id >> 64u128) % 256u128) as u8);
    r.push(((u.player_id >> 56u128) % 256u128) as u8);
    r.push(((u.player_id >> 48u128) % 256u128) as u8);
    r.push(((u.player_id >> 40u128) % 256u128) as u8);
    r.push(((u.player_id >> 32u128) % 256u128) as u8);
    r.push(((u.player_id >> 24u128) % 256u128) as u8);
    r.push(((u.player_id >> 16u128) % 256u128) as u8);
    r.push(((u.player_id >> 8u128) % 256u128) as u8);
    r.push(((u.player_id >> 0u128) % 256u128) as u8);
    r.push((u.x % 256u32) as u8);
    r.push(((u.x >> 8u32) % 256u32) as u8);
    r.push(((u.x >> 16u32) % 256u32) as u8);
    r.push(((u.x >> 24u32) % 256u32) as u8);
    r.push((u.y % 256u32) as u8);
    r.push(((u.y >> 8u32) % 256u32) as u8);
    r.push(((u.y >> 16u32) % 256u32) as u8);
    r.push(((u.y >> 24u32) % 256u32) as u8);
    r.push((u.z % 256u32) as u8);
    r.push(((u.z >> 8u32) % 256u32) as u8);
    r.push(((u.z >> 16u32) % 256u32) as u8);
    r.push(((u.z >> 24u32) % 256u32) as u8);
    proof {
        assert(r@ =~= encode_spec(*u));
    }
    r
}

/// Reads a datagram: the update it carries, or `None` where its size or prefix is wrong.
pub fn decode_update(bytes: &Vec<u8>) -> (r: Option<PositionUpdate>)
    ensures
        r == decode_spec(bytes@),
{
    if bytes.len() != DATAGRAM_LEN {
        return None;
    }
    let mut i: usize = 0;
    while i < 8
        invariant
            i <= 8,
            bytes@.len() == 36,
            forall|k: int| 0 <= k < i ==> bytes@[k] == header()[k],
        decreases 8 - i,
    {
        let want: u8 = if i == 0 { 16 } else { 0 };
        if bytes[i] != want {
            proof {
                assert(bytes@.subrange(0, 8)[i as int] != header()[i as int]);
            }
            return None;
        }
        i = i + 1;
    }
    proof {
        assert(bytes@.subrange(0, 8) =~= header());
    }
    let player_id = ((bytes[8] as u128) << 120u128) | ((bytes[9] as u128) << 112u128) | ((bytes[10] as u128) << 104u128) | ((bytes[11] as u128) << 96u128) | ((bytes[12] as u128) << 88u128) | ((bytes[13] as u128) << 80u128) | ((bytes[14] as u128) << 72u128) | ((bytes[15] as u128) << 64u128) | ((bytes[16] as u128) << 56u128) | ((bytes[17] as u128) << 48u128) | ((bytes[18] as u128) << 40u128) | ((bytes[19] as u128) << 32u128) | ((bytes[20] as u128) << 24u128) | ((bytes[21] as u128) << 16u128) | ((bytes[22] as u128) << 8u128) | ((bytes[23] as u128) << 0u128);
    let x = (bytes[24] as u32) | ((bytes[25] as u32) << 8u32) | ((bytes[26] as u32) << 16u32) | ((bytes[27] as u32) << 24u32);
    let y = (bytes[28] as u32) | ((bytes[29] as u32) << 8u32) | ((bytes[30] as u32) << 16u32) | ((bytes[31] as u32) << 24u32);
    let z = (bytes[32] as u32) | ((bytes[33] as u32) << 8u32) | ((bytes[34] as u32) << 16u32) | ((bytes[35] as u32) << 24u32);
    Some(PositionUpdate { player_id, x, y, z })
}

/// Relay ingestion: a datagram that decodes is queued as received, byte for byte;
/// a malformed one is dropped.
pub fn receive_positions(datagram: &Vec<u8>) -> (r: Option<Vec<u8>>)
    ensures
        r is Some <==> decode_spec(datagram@) is Some,
        r is Some ==> r->0@ == datagram@,
{
    match decode_update(datagram) {
        Some(_) => Some(datagram.clone()),
        None => None,
    }
}

proof fn lemma_be_round_trip(u: PositionUpdate)
    ensures
        ({
            let id = u.player_id;
            (((((id >> 120u128) % 256u128) as u8 as u128) << 120u128) | ((((id >> 112u128) % 256u128) as u8 as u128) << 112u128) | ((((id >> 104u128) % 256u128) as u8 as u128) << 104u128) | ((((id >> 96u128) % 256u128) as u8 as u128) << 96u128) | ((((id >> 88u128) % 256u128) as u8 as u128) << 88u128) | ((((id >> 80u128) % 256u128) as u8 as u128) << 80u128) | ((((id >> 72u128) % 256u128) as u8 as u128) << 72u128) | ((((id >> 64u128) % 256u128) as u8 as u128) << 64u128) | ((((id >> 56u128) % 256u128) as u8 as u128) << 56u128) | ((((id >> 48u128) % 256u128) as u8 as u128) << 48u128) | ((((id >> 40u128) % 256u128) as u8 as u128) << 40u128) | ((((id >> 32u128) % 256u128) as u8 as u128) << 32u128) | ((((id >> 24u128) % 256u128) as u8 as u128) << 24u128) | ((((id >> 16u128) % 256u128) as u8 as u128) << 16u128) | ((((id >> 8u128) % 256u128) as u8 as u128) << 8u128) | ((((id >> 0u128) % 256u128) as u8 as u128) << 0u128)) == id
        }),
{
    let id = u.player_id;
    assert((((((id >> 120u128) % 256u128) as u8 as u128) << 120u128) | ((((id >> 112u128) % 256u128) as u8 as u128) << 112u128) | ((((id >> 104u128) % 256u128) as u8 as u128) << 104u128) | ((((id >> 96u128) % 256u128) as u8 as u128) << 96u128) | ((((id >> 88u128) % 256u128) as u8 as u128) << 88u128) | ((((id >> 80u128) % 256u128) as u8 as u128) << 80u128) | ((((id >> 72u128) % 256u128) as u8 as u128) << 72u128) | ((((id >> 64u128) % 256u128) as u8 as u128) << 64u128) | ((((id >> 56u128) % 256u128) as u8 as u128) << 56u128) | ((((id >> 48u128) % 256u128) as u8 as u128) << 48u128) | ((((id >> 40u128) % 256u128) as u8 as u128) << 40u128) | ((((id >> 32u128) % 256u128) as u8 as u128) << 32u128) | ((((id >> 24u128) % 256u128) as u8 as u128) << 24u128) | ((((id >> 16u128) % 256u128) as u8 as u128) << 16u128) | ((((id >> 8u128) % 256u128) as u8 as u128) << 8u128) | ((((id >> 0u128) % 256u128) as u8 as u128) << 0u128)) == id) by (bit_vector);
}

proof fn lemma_le_round_trip(v: u32)
    ensures
        (((v % 256u32) as u8 as u32) | ((((v >> 8u32) % 256u32) as u8 as u32) << 8u32) | ((((v >> 16u32) % 256u32) as u8 as u32) << 16u32) | ((((v >> 24u32) % 256u32) as u8 as u32) << 24u32)) == v,
{
    assert((((v % 256u32) as u8 as u32) | ((((v >> 8u32) % 256u32) as u8 as u32) << 8u32) | ((((v >> 16u32) % 256u32) as u8 as u32) << 16u32) | ((((v >> 24u32) % 256u32) as u8 as u32) << 24u32)) == v) by (bit_vector);
}

/// Decoding the datagram of an update gives the update back.
pub proof fn lemma_round_trip(u: PositionUpdate)
    ensures
        decode_spec(encode_spec(u)) == Some(u),
{
    lemma_be_round_trip(u);
    let b = encode_spec(u);
    let flat = seq![16u8, 0u8, 0u8, 0u8, 0u8, 0u8, 0u8, 0u8, ((u.player_id >> 120u128) % 256u128) as u8, ((u.player_id >> 112u128) % 256u128) as u8, ((u.player_id >> 104u128) % 256u128) as u8, ((u.player_id >> 96u128) % 256u128) as u8, ((u.player_id >> 88u128) % 256u128) as u8, ((u.player_id >> 80u128) % 256u128) as u8, ((u.player_id >> 72u128) % 256u128) as u8, ((u.player_id >> 64u128) % 256u128) as u8, ((u.player_id >> 56u128) % 256u128) as u8, ((u.player_id >> 48u128) % 256u128) as u8, ((u.player_id >> 40u128) % 256u128) as u8, ((u.player_id >> 32u128) % 256u128) as u8, ((u.player_id >> 24u128) % 256u128) as u8, ((u.player_id >> 16u128) % 256u128) as u8, ((u.player_id >> 8u128) % 256u128) as u8, ((u.player_id >> 0u128) % 256u128) as u8, (u.x % 256u32) as u8, ((u.x >> 8u32) % 256u32) as u8, ((u.x >> 16u32) % 256u32) as u8, ((u.x >> 24u32) % 256u32) as u8, (u.y % 256u32) as u8, ((u.y >> 8u32) % 256u32) as u8, ((u.y >> 16u32) % 256u32) as u8, ((u.y >> 24u32) % 256u32) as u8, (u.z % 256u32) as u8, ((u.z >> 8u32) % 256u32) as u8, ((u.z >> 16u32) % 256u32) as u8, ((u.z >> 24u32) % 256u32) as u8];
    assert(b =~= flat);
    assert(b.subrange(0, 8) =~= header());
    assert forall|i: int| 8 <= i < 36 implies b[i] == #[trigger] flat[i] by {}
    assert(be16(b, 8) == be16(flat, 8));
    assert(le4(b, 24) == le4(flat, 24));
    assert(le4(b, 28) == le4(flat, 28));
    assert(le4(b, 32) == le4(flat, 32));
    lemma_le_round_trip(u.x);
    lemma_le_round_trip(u.y);
    lemma_le_round_trip(u.z);
    assert(be16(flat, 8) == u.player_id);
    assert(le4(flat, 24) == u.x);
    assert(le4(flat, 28) == u.y);
    assert(le4(flat, 32) == u.z);
}

} // verus!
