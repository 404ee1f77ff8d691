use vstd::prelude::*;

verus! {

/// The bit that drives channel `c`.
pub open spec fn line(c: int) -> u32 {
    1u32 << (c as u32)
}

/// Channel `c` is driven by the word `data`.
pub open spec fn is_on(data: u32, c: int) -> bool {
    data & line(c) != 0
}

/// The word that drives channel 0 if `b0` holds, channel 1 if `b1` holds, and so on,
/// and no other line.
pub open spec fn mask8(
    b0: bool,
    b1: bool,
    b2: bool,
    b3: bool,
    b4: bool,
    b5: bool,
    b6: bool,
    b7: bool,
) -> u32 {
    ((if b0 { 0x01int } else { 0 }) + (if b1 { 0x02int } else { 0 }) + (if b2 { 0x04int } else { 0 })
        + (if b3 { 0x08int } else { 0 }) + (if b4 { 0x10int } else { 0 }) + (if b5 { 0x20int } else { 0 })
        + (if b6 { 0x40int } else { 0 }) + (if b7 { 0x80int } else { 0 })) as u32
}

/// `mask8` written with bit operations.
spec fn join8(
    b0: bool,
    b1: bool,
    b2: bool,
    b3: bool,
    b4: bool,
    b5: bool,
    b6: bool,
    b7: bool,
) -> u32 {
    (if b0 { 0x01u32 } else { 0 }) | (if b1 { 0x02u32 } else { 0 }) | (if b2 { 0x04u32 } else { 0 })
        | (if b3 { 0x08u32 } else { 0 }) | (if b4 { 0x10u32 } else { 0 }) | (if b5 { 0x20u32 } else { 0 })
        | (if b6 { 0x40u32 } else { 0 }) | (if b7 { 0x80u32 } else { 0 })
}

/// Adding the bits of different lines is joining them.
proof fn lemma_mask8_join8(
    b0: bool,
    b1: bool,
    b2: bool,
    b3: bool,
    b4: bool,
    b5: bool,
    b6: bool,
    b7: bool,
)
    ensures
        mask8(b0, b1, b2, b3, b4, b5, b6, b7) == join8(b0, b1, b2, b3, b4, b5, b6, b7),
{
    let w0 = if b0 { 0x01u32 } else { 0 };
    let w1 = if b1 { 0x02u32 } else { 0 };
    let w2 = if b2 { 0x04u32 } else { 0 };
    let w3 = if b3 { 0x08u32 } else { 0 };
    let w4 = if b4 { 0x10u32 } else { 0 };
    let w5 = if b5 { 0x20u32 } else { 0 };
    let w6 = if b6 { 0x40u32 } else { 0 };
    let w7 = if b7 { 0x80u32 } else { 0 };
    assert((w0 == 0 || w0 == 0x01) && (w1 == 0 || w1 == 0x02) && (w2 == 0 || w2 == 0x04) && (w3 == 0
        || w3 == 0x08) && (w4 == 0 || w4 == 0x10) && (w5 == 0 || w5 == 0x20) && (w6 == 0 || w6
        == 0x40) && (w7 == 0 || w7 == 0x80) ==> w0 + w1 + w2 + w3 + w4 + w5 + w6 + w7 == (w0 | w1 | w2
        | w3 | w4 | w5 | w6 | w7)) by (bit_vector);
}

/// The `c`-th of eight conditions.
pub open spec fn pick8(
    c: int,
    b0: bool,
    b1: bool,
    b2: bool,
    b3: bool,
    b4: bool,
    b5: bool,
    b6: bool,
    b7: bool,
) -> bool {
    if c == 0 { b0 } else if c == 1 { b1 } else if c == 2 { b2 } else if c == 3 { b3 }
    else if c == 4 { b4 } else if c == 5 { b5 } else if c == 6 { b6 } else { b7 }
}

/// A word drives channel `c` if and only if the condition for `c` holds, and it drives none
/// of the lines above the eight channels.
pub proof fn lemma_mask8_is_on(
    c: int,
    b0: bool,
    b1: bool,
    b2: bool,
    b3: bool,
    b4: bool,
    b5: bool,
    b6: bool,
    b7: bool,
)
    requires
        0 <= c < 8,
    ensures
        is_on(mask8(b0, b1, b2, b3, b4, b5, b6, b7), c) == pick8(c, b0, b1, b2, b3, b4, b5, b6, b7),
        mask8(b0, b1, b2, b3, b4, b5, b6, b7) <= 0xFF,
{
    let d = c as u32;
    lemma_mask8_join8(b0, b1, b2, b3, b4, b5, b6, b7);
    assert(d < 8 ==> ((join8(b0, b1, b2, b3, b4, b5, b6, b7) & (1u32 << d)) != 0) == (if d == 0 {
        b0
    } else if d == 1 {
        b1
    } else if d == 2 {
        b2
    } else if d == 3 {
        b3
    } else if d == 4 {
        b4
    } else if d == 5 {
        b5
    } else if d == 6 {
        b6
    } else {
        b7
    })) by (bit_vector);
}

/// Taking the line of channel `c` out of a word leaves the word of the other channels.
pub proof fn lemma_mask8_clear(
    c: int,
    a0: bool,
    a1: bool,
    a2: bool,
    a3: bool,
    a4: bool,
    a5: bool,
    a6: bool,
    a7: bool,
    b0: bool,
    b1: bool,
    b2: bool,
    b3: bool,
    b4: bool,
    b5: bool,
    b6: bool,
    b7: bool,
)
    requires
        0 <= c < 8,
        b0 == (a0 && c != 0),
        b1 == (a1 && c != 1),
        b2 == (a2 && c != 2),
        b3 == (a3 && c != 3),
        b4 == (a4 && c != 4),
        b5 == (a5 && c != 5),
        b6 == (a6 && c != 6),
        b7 == (a7 && c != 7),
    ensures
        mask8(a0, a1, a2, a3, a4, a5, a6, a7) & !line(c) == mask8(b0, b1, b2, b3, b4, b5, b6, b7),
{
    let d = c as u32;
    lemma_mask8_join8(a0, a1, a2, a3, a4, a5, a6, a7);
    lemma_mask8_join8(b0, b1, b2, b3, b4, b5, b6, b7);
    assert(join8(a0, a1, a2, a3, a4, a5, a6, a7) & !(1u32 << d) == join8(
        b0,
        b1,
        b2,
        b3,
        b4,
        b5,
        b6,
        b7,
    )) by (bit_vector)
        requires
            d < 8,
            b0 == (a0 && d != 0),
            b1 == (a1 && d != 1),
            b2 == (a2 && d != 2),
            b3 == (a3 && d != 3),
            b4 == (a4 && d != 4),
            b5 == (a5 && d != 5),
            b6 == (a6 && d != 6),
            b7 == (a7 && d != 7),
    ;
}

} // verus!
