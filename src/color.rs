use vstd::prelude::*;

verus! {

/// Largest level that the color encoding distinguishes; larger ones encode as it.
pub const LEVEL_CAP: u32 = 2000;

/// The level actually encoded: `level`, capped at `LEVEL_CAP`.
pub open spec fn capped(level: u32) -> nat {
    if level > LEVEL_CAP {
        LEVEL_CAP as nat
    } else {
        level as nat
    }
}

/// Red channel: the low byte of the capped level.
pub open spec fn red_of(level: u32) -> u8 {
    (capped(level) % 256) as u8
}

/// Green channel: sixteen times the next byte of the capped level, kept to one byte.
pub open spec fn green_of(level: u32) -> u8 {
    ((16 * ((capped(level) / 256) % 256)) % 256) as u8
}

/// The false color of a level: red and green as above, blue always zero.
pub open spec fn rgb_of(level: u32) -> (u8, u8, u8) {
    (red_of(level), green_of(level), 0u8)
}

/// All levels from `LEVEL_CAP` upward share one color.
pub proof fn lemma_levels_above_cap_agree(level: u32)
    requires
        level >= LEVEL_CAP,
    ensures
        rgb_of(level) == rgb_of(LEVEL_CAP),
{
}

/// The false color of one pixel. `level` is the pixel's sample truncated to an
/// unsigned integer; the cap is applied here (for a non-negative sample, capping
/// then truncating and truncating then capping agree).
pub fn encode_level(level: u32) -> (r: (u8, u8, u8))
    ensures
        r == rgb_of(level),
{
    let v: u32 = if level > LEVEL_CAP {
        LEVEL_CAP
    } else {
        level
    };
    assert(v & 255 == v % 256) by (bit_vector);
    assert((v >> 8u32) & 255 == (v / 256) % 256) by (bit_vector);
    let red: u8 = (v & 255) as u8;
    let high: u8 = ((v >> 8u32) & 255) as u8;
    assert(high <= 7);
    let green: u8 = 16 * high;
    (red, green, 0u8)
}

/// The pixels of an RGB raster, three bytes each, for the given levels in order.
pub fn encode_levels(levels: &Vec<u32>) -> (r: Vec<u8>)
    requires
        3 * levels.len() <= usize::MAX,
    ensures
        r.len() == 3 * levels.len(),
        forall|i: int| #![trigger levels[i]]
            0 <= i < levels.len() ==> {
                &&& r[3 * i] == red_of(levels[i])
                &&& r[3 * i + 1] == green_of(levels[i])
                &&& r[3 * i + 2] == 0
            },
{
    let mut out: Vec<u8> = Vec::with_capacity(3 * levels.len());
    let mut i: usize = 0;
    while i < levels.len()
        invariant
            i <= levels.len(),
            3 * levels.len() <= usize::MAX,
            out.len() == 3 * i,
            forall|j: int| #![trigger levels[j]]
                0 <= j < i ==> {
                    &&& out[3 * j] == red_of(levels[j])
                    &&& out[3 * j + 1] == green_of(levels[j])
                    &&& out[3 * j + 2] == 0
                },
        decreases levels.len() - i,
    {
        let (red, green, blue) = encode_level(levels[i]);
        out.push(red);
        out.push(green);
        out.push(blue);
        i = i + 1;
    }
    out
}

} // verus!
