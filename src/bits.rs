use vstd::prelude::*;

verus! {

/// Whether bit `offset` of `byte` is set, counting from the most
/// significant bit (offset 0) to the least significant (offset 7).
pub open spec fn bit_set(byte: u8, offset: int) -> bool {
    (byte >> ((7 - offset) as u8)) & 1 == 1
}

/// Whether frame number `index` is marked unavailable in `bitmap`, which
/// holds one bit per frame, eight frames to a byte.
pub open spec fn marked(bitmap: Seq<u8>, index: int) -> bool {
    bit_set(bitmap[index / 8], index % 8)
}

/// The mask that selects bit `offset` of a byte.
pub open spec fn bit_mask(offset: u8) -> u8 {
    (1u8 << (7u8 - offset)) as u8
}

pub proof fn lemma_test_bit(byte: u8, offset: u8)
    requires
        offset < 8,
    ensures
        (byte & bit_mask(offset) == 0) == !bit_set(byte, offset as int),
{
    assert((7 - offset as int) as u8 == 7u8 - offset);
    let s: u8 = (7u8 - offset) as u8;
    assert(((byte & ((1u8 << s) as u8)) == 0) == !((byte >> s) & 1 == 1)) by (bit_vector)
        requires
            s < 8,
    ;
}

pub proof fn lemma_set_bit(byte: u8, offset: u8)
    requires
        offset < 8,
    ensures
        forall|p: int|
            0 <= p < 8 ==> #[trigger] bit_set(byte | bit_mask(offset), p) == (bit_set(byte, p) || p
                == offset),
{
    let s: u8 = (7u8 - offset) as u8;
    let m: u8 = (1u8 << s) as u8;
    assert forall|p: int| 0 <= p < 8 implies #[trigger] bit_set(byte | m, p) == (bit_set(byte, p)
        || p == offset) by {
        let t: u8 = (7 - p) as u8;
        assert(((byte | m) >> t) & 1 == 1 <==> ((byte >> t) & 1 == 1 || t == s)) by (bit_vector)
            requires
                s < 8,
                t < 8,
                m == (1u8 << s) as u8,
        ;
    }
}

pub proof fn lemma_clear_bit(byte: u8, offset: u8)
    requires
        offset < 8,
    ensures
        forall|p: int|
            0 <= p < 8 ==> #[trigger] bit_set(byte & !bit_mask(offset), p) == (bit_set(byte, p)
                && p != offset),
{
    let s: u8 = (7u8 - offset) as u8;
    let m: u8 = (1u8 << s) as u8;
    assert forall|p: int| 0 <= p < 8 implies #[trigger] bit_set(byte & !m, p) == (bit_set(byte, p)
        && p != offset) by {
        let t: u8 = (7 - p) as u8;
        assert(((byte & !m) >> t) & 1 == 1 <==> ((byte >> t) & 1 == 1 && t != s)) by (bit_vector)
            requires
                s < 8,
                t < 8,
                m == (1u8 << s) as u8,
        ;
    }
}

/// A byte is 0xFF exactly when all eight of its bits are set.
pub proof fn lemma_full_byte(byte: u8)
    ensures
        (byte == 0xFF) == (forall|p: int| 0 <= p < 8 ==> #[trigger] bit_set(byte, p)),
{
    assert((byte == 0xFF) == ((byte >> 7u8) & 1 == 1 && (byte >> 6u8) & 1 == 1 && (byte >> 5u8) & 1
        == 1 && (byte >> 4u8) & 1 == 1 && (byte >> 3u8) & 1 == 1 && (byte >> 2u8) & 1 == 1 && (byte
        >> 1u8) & 1 == 1 && (byte >> 0u8) & 1 == 1)) by (bit_vector);
    if forall|p: int| 0 <= p < 8 ==> #[trigger] bit_set(byte, p) {
        assert(bit_set(byte, 0) && bit_set(byte, 1) && bit_set(byte, 2) && bit_set(byte, 3)
            && bit_set(byte, 4) && bit_set(byte, 5) && bit_set(byte, 6) && bit_set(byte, 7));
    }
}

} // verus!
