use vstd::prelude::*;

verus! {

/// The state with which the generator of the sequence `sequence_idx` starts:
/// the lower half of the index.
pub fn sequence_seed(sequence_idx: u64) -> (seed: u64)
    ensures
        seed == sequence_idx % 0x1_0000_0000,
{
    let low = sequence_idx & 0xffff_ffff;
    assert(sequence_idx & 0xffff_ffff == sequence_idx % 0x1_0000_0000) by (bit_vector);
    low
}

/// The stream of the generator of the sequence `sequence_idx`: the upper half
/// of the index.
pub fn sequence_stream(sequence_idx: u64) -> (stream: u64)
    ensures
        stream == sequence_idx / 0x1_0000_0000,
{
    let high = sequence_idx >> 32;
    assert(sequence_idx >> 32 == sequence_idx / 0x1_0000_0000) by (bit_vector);
    high
}

/// The least raw value that is accepted for a number below `b`: `2^32 mod b`.
/// The raw values from there on fall into whole rounds of `b`.
pub open spec fn threshold_of(b: int) -> int {
    0x1_0000_0000int % b
}

/// The least raw value that is accepted for a number below `b`.
pub fn bounded_threshold(b: u32) -> (t: u32)
    requires
        b > 0,
    ensures
        t == threshold_of(b as int),
        t < b,
        (0x1_0000_0000 - t) % (b as int) == 0,
{
    let rest: u32 = (u32::MAX - b) + 1;
    let t = rest % b;
    proof {
        let m = 0x1_0000_0000int;
        let bb = b as int;
        let q = (m - bb) / bb;
        assert(m - bb == q * bb + t && 0 <= t < bb) by (nonlinear_arith)
            requires
                q == (m - bb) / bb,
                t == (m - bb) % bb,
                bb > 0,
        ;
        assert(m == (q + 1) * bb + t && m - t == (q + 1) * bb + 0) by (nonlinear_arith)
            requires
                m - bb == q * bb + t,
        ;
        vstd::arithmetic::div_mod::lemma_fundamental_div_mod_converse(m, bb, q + 1, t as int);
        vstd::arithmetic::div_mod::lemma_fundamental_div_mod_converse(m - t, bb, q + 1, 0);
    }
    t
}

/// Turns the raw value `r` into a number below `b`, or rejects it: the values
/// below the threshold are rejected, so that every number below `b` comes
/// from as many raw values as any other.
pub fn bounded_sample(r: u32, b: u32) -> (v: Option<u32>)
    requires
        b > 0,
    ensures
        v is Some == (r >= threshold_of(b as int)),
        v matches Some(x) ==> x == r % b && x < b,
{
    let threshold = bounded_threshold(b);
    if r >= threshold {
        Some(r % b)
    } else {
        None
    }
}

} // verus!
