//! Pitches and frequencies.
//!
//! The pitch 69 sounds at 440 Hz, and every twelve pitches above it the
//! frequency doubles. The frequency of most pitches is irrational, so
//! frequencies and pitches are compared by their twelfth powers, which are
//! whole numbers.

use vstd::prelude::*;
use vstd::arithmetic::power2::{
    lemma2_to64, lemma_pow2_adds, lemma_pow2_pos, lemma_pow2_strictly_increases, lemma_pow2_unfold, pow2,
};

verus! {

/// `x * x`.
pub open spec fn square(x: int) -> int {
    x * x
}

/// `x * x * x`.
pub open spec fn cube(x: int) -> int {
    x * x * x
}

/// The twelfth power of `x`.
pub open spec fn twelfth(x: int) -> int {
    square(square(cube(x)))
}

/// A frequency of `mhz` millihertz is not below that of the pitch `pitch`:
/// `mhz / 440000` is at least `2` to the power `(pitch - 69) / 12`.
pub open spec fn at_or_above(mhz: int, pitch: nat) -> bool {
    twelfth(mhz) * pow2(69) >= twelfth(440_000) * pow2(pitch)
}

/// A frequency of `mhz` millihertz is not above that of the pitch `pitch`.
pub open spec fn at_or_below(mhz: int, pitch: nat) -> bool {
    twelfth(mhz) * pow2(69) <= twelfth(440_000) * pow2(pitch)
}

/// `pitch` is the pitch of a frequency of `mhz` millihertz: the highest
/// pitch that the frequency is not below, and 0 for a frequency below all
/// pitches.
pub open spec fn is_pitch_of(pitch: nat, mhz: int) -> bool {
    &&& pitch == 0 || at_or_above(mhz, pitch)
    &&& !at_or_above(mhz, pitch + 1)
}

/// The pitch of a frequency of `mhz` millihertz.
pub open spec fn pitch_of(mhz: int) -> nat {
    choose|pitch: nat| is_pitch_of(pitch, mhz)
}

/// The least frequency at or above the pitch `s`, for `s` from 0 to 11, in
/// units of 2 to the power -24 millihertz.
pub open spec fn band(s: int) -> int {
    if s == 0 {
        137_167_144_381
    } else if s == 1 {
        145_323_527_230
    } else if s == 2 {
        153_964_913_842
    } else if s == 3 {
        163_120_144_042
    } else if s == 4 {
        172_819_772_559
    } else if s == 5 {
        183_096_171_002
    } else if s == 6 {
        193_983_635_895
    } else if s == 7 {
        205_518_503_140
    } else if s == 8 {
        217_739_269_285
    } else if s == 9 {
        230_686_720_000
    } else if s == 10 {
        244_404_066_199
    } else {
        258_937_088_249
    }
}

/// The twelfth power grows with its argument.
pub proof fn lemma_twelfth_grows(a: int, b: int)
    requires
        0 <= a <= b,
    ensures
        0 <= twelfth(a) <= twelfth(b),
{
    assert(0 <= a * a <= b * b) by (nonlinear_arith)
        requires
            0 <= a <= b,
    ;
    assert(0 <= a * a * a <= b * b * b) by (nonlinear_arith)
        requires
            0 <= a <= b,
            0 <= a * a <= b * b,
    ;
    let ca = cube(a);
    let cb = cube(b);
    assert(0 <= ca * ca <= cb * cb) by (nonlinear_arith)
        requires
            0 <= ca <= cb,
    ;
    let sa = square(ca);
    let sb = square(cb);
    assert(0 <= sa * sa <= sb * sb) by (nonlinear_arith)
        requires
            0 <= sa <= sb,
    ;
}

/// The twelfth power of a product is the product of the twelfth powers.
pub proof fn lemma_twelfth_of_product(a: int, b: int)
    ensures
        twelfth(a * b) == twelfth(a) * twelfth(b),
{
    let ab = a * b;
    assert(cube(ab) == cube(a) * cube(b)) by (nonlinear_arith)
        requires
            ab == a * b,
    ;
    let ca = cube(a);
    let cb = cube(b);
    assert(square(ca * cb) == square(ca) * square(cb)) by (nonlinear_arith);
    let sa = square(ca);
    let sb = square(cb);
    assert(square(sa * sb) == square(sa) * square(sb)) by (nonlinear_arith);
}

/// The twelfth power of a power of two.
pub proof fn lemma_twelfth_of_pow2(j: nat)
    ensures
        twelfth(pow2(j) as int) == pow2(12 * j),
{
    let p = pow2(j) as int;
    lemma_pow2_adds(j, j);
    lemma_pow2_adds(2 * j, j);
    lemma_pow2_adds(3 * j, 3 * j);
    lemma_pow2_adds(6 * j, 6 * j);
    assert(p * p == pow2(2 * j));
    assert(p * p * p == pow2(3 * j));
    assert(cube(p) == pow2(3 * j));
    assert(square(cube(p)) == pow2(6 * j));
}

/// A frequency that is not below a pitch is not below any lower pitch.
pub proof fn lemma_at_or_above_lower(mhz: int, low: nat, high: nat)
    requires
        low <= high,
        at_or_above(mhz, high),
    ensures
        at_or_above(mhz, low),
{
    if low < high {
        lemma_pow2_strictly_increases(low, high);
    }
    lemma_twelfth_grows(0, 440_000);
    assert(twelfth(440_000) * pow2(low) <= twelfth(440_000) * pow2(high)) by (nonlinear_arith)
        requires
            0 <= twelfth(440_000),
            pow2(low) <= pow2(high),
    ;
}

/// A frequency has one pitch only.
pub proof fn lemma_pitch_of(mhz: int, pitch: nat)
    requires
        is_pitch_of(pitch, mhz),
    ensures
        pitch_of(mhz) == pitch,
{
    let other = pitch_of(mhz);
    assert(is_pitch_of(other, mhz));
    if other < pitch {
        lemma_at_or_above_lower(mhz, other + 1, pitch);
    }
    if pitch < other {
        lemma_at_or_above_lower(mhz, pitch + 1, other);
    }
}

/// 2 to the power 69.
spec fn two_to_69() -> int {
    590_295_810_358_705_651_712int
}

/// 2 to the power 144.
spec fn two_to_144() -> int {
    22_300_745_198_530_623_141_535_718_272_648_361_505_980_416int
}

/// 2 to the power 288.
spec fn two_to_288() -> int {
    two_to_144() * two_to_144()
}

proof fn lemma_powers_of_two(s: int)
    requires
        0 <= s < 12,
    ensures
        pow2(69) == two_to_69(),
        pow2((288 + s) as nat) == two_to_288() * pow2(s as nat),
{
    lemma2_to64();
    lemma_pow2_adds(64, 5);
    lemma_pow2_adds(64, 64);
    lemma_pow2_adds(128, 16);
    lemma_pow2_adds(144, 144);
    lemma_pow2_adds(288, s as nat);
    assert(pow2(69) == two_to_69()) by (nonlinear_arith)
        requires
            pow2(69) == 0x1_0000_0000_0000_0000 * 0x20,
    ;
    assert(pow2(144) == two_to_144()) by (nonlinear_arith)
        requires
            pow2(144) == pow2(128) * 0x1_0000,
            pow2(128) == 0x1_0000_0000_0000_0000 * 0x1_0000_0000_0000_0000,
    ;
}

/// `band(s)` is the least frequency, in its units, that is not below the
/// pitch `s`.
proof fn lemma_band(s: int)
    requires
        0 <= s < 12,
    ensures
        band(s) > 0,
        twelfth(band(s)) * pow2(69) >= twelfth(440_000) * pow2((288 + s) as nat),
        twelfth(band(s) - 1) * pow2(69) < twelfth(440_000) * pow2((288 + s) as nat),
        // Of the twelve pitches only pitch 9, five octaves below 440 Hz, has a rational frequency.
        s == 9 <==> twelfth(band(s)) * pow2(69) == twelfth(440_000) * pow2((288 + s) as nat),
{
    lemma_powers_of_two(s);
    lemma2_to64();
    if s == 0 {
        assert(twelfth(137_167_144_381) * two_to_69() > twelfth(440_000) * (two_to_288() * 1)) by (nonlinear_arith);
        assert(twelfth(137_167_144_380) * two_to_69() < twelfth(440_000) * (two_to_288() * 1)) by (nonlinear_arith);
    } else if s == 1 {
        assert(twelfth(145_323_527_230) * two_to_69() > twelfth(440_000) * (two_to_288() * 2)) by (nonlinear_arith);
        assert(twelfth(145_323_527_229) * two_to_69() < twelfth(440_000) * (two_to_288() * 2)) by (nonlinear_arith);
    } else if s == 2 {
        assert(twelfth(153_964_913_842) * two_to_69() > twelfth(440_000) * (two_to_288() * 4)) by (nonlinear_arith);
        assert(twelfth(153_964_913_841) * two_to_69() < twelfth(440_000) * (two_to_288() * 4)) by (nonlinear_arith);
    } else if s == 3 {
        assert(twelfth(163_120_144_042) * two_to_69() > twelfth(440_000) * (two_to_288() * 8)) by (nonlinear_arith);
        assert(twelfth(163_120_144_041) * two_to_69() < twelfth(440_000) * (two_to_288() * 8)) by (nonlinear_arith);
    } else if s == 4 {
        assert(twelfth(172_819_772_559) * two_to_69() > twelfth(440_000) * (two_to_288() * 16)) by (nonlinear_arith);
        assert(twelfth(172_819_772_558) * two_to_69() < twelfth(440_000) * (two_to_288() * 16)) by (nonlinear_arith);
    } else if s == 5 {
        assert(twelfth(183_096_171_002) * two_to_69() > twelfth(440_000) * (two_to_288() * 32)) by (nonlinear_arith);
        assert(twelfth(183_096_171_001) * two_to_69() < twelfth(440_000) * (two_to_288() * 32)) by (nonlinear_arith);
    } else if s == 6 {
        assert(twelfth(193_983_635_895) * two_to_69() > twelfth(440_000) * (two_to_288() * 64)) by (nonlinear_arith);
        assert(twelfth(193_983_635_894) * two_to_69() < twelfth(440_000) * (two_to_288() * 64)) by (nonlinear_arith);
    } else if s == 7 {
        assert(twelfth(205_518_503_140) * two_to_69() > twelfth(440_000) * (two_to_288() * 128)) by (nonlinear_arith);
        assert(twelfth(205_518_503_139) * two_to_69() < twelfth(440_000) * (two_to_288() * 128)) by (nonlinear_arith);
    } else if s == 8 {
        assert(twelfth(217_739_269_285) * two_to_69() > twelfth(440_000) * (two_to_288() * 256)) by (nonlinear_arith);
        assert(twelfth(217_739_269_284) * two_to_69() < twelfth(440_000) * (two_to_288() * 256)) by (nonlinear_arith);
    } else if s == 9 {
        assert(twelfth(230_686_720_000) * two_to_69() == twelfth(440_000) * (two_to_288() * 512)) by (nonlinear_arith);
        assert(twelfth(230_686_719_999) * two_to_69() < twelfth(440_000) * (two_to_288() * 512)) by (nonlinear_arith);
    } else if s == 10 {
        assert(twelfth(244_404_066_199) * two_to_69() > twelfth(440_000) * (two_to_288() * 1024)) by (nonlinear_arith);
        assert(twelfth(244_404_066_198) * two_to_69() < twelfth(440_000) * (two_to_288() * 1024)) by (nonlinear_arith);
    } else if s == 11 {
        assert(twelfth(258_937_088_249) * two_to_69() > twelfth(440_000) * (two_to_288() * 2048)) by (nonlinear_arith);
        assert(twelfth(258_937_088_248) * two_to_69() < twelfth(440_000) * (two_to_288() * 2048)) by (nonlinear_arith);
    }
}

/// A frequency `octave` octaves and `s` pitches above pitch 0 is told by
/// `band(s)`: where `x` is the frequency of `mhz` millihertz in units of 2
/// to the power `octave - 24` millihertz, the frequency is not below that
/// pitch exactly when `x` is not below `band(s)`.
pub proof fn lemma_band_decides(mhz: int, octave: nat, s: int, x: int)
    requires
        0 <= mhz,
        octave <= 24,
        0 <= s < 12,
        x == mhz * pow2((24 - octave) as nat),
    ensures
        x >= band(s) <==> at_or_above(mhz, (12 * octave + s) as nat),
{
    let j = (24 - octave) as nat;
    let pitch = (12 * octave + s) as nat;
    let c = pow2(12 * j) as int;
    lemma_twelfth_of_product(mhz, pow2(j) as int);
    lemma_twelfth_of_pow2(j);
    lemma_pow2_adds(pitch, 12 * j);
    lemma_pow2_pos(12 * j);
    lemma_pow2_pos(j);
    lemma_band(s);
    let a = twelfth(mhz) * pow2(69);
    let b = twelfth(440_000) * pow2(pitch);
    assert(twelfth(x) * pow2(69) == a * c) by (nonlinear_arith)
        requires
            twelfth(x) == twelfth(mhz) * c,
            a == twelfth(mhz) * pow2(69),
    ;
    assert(twelfth(440_000) * pow2((288 + s) as nat) == b * c) by (nonlinear_arith)
        requires
            pow2((288 + s) as nat) == pow2(pitch) * c,
            b == twelfth(440_000) * pow2(pitch),
    ;
    assert(0 <= x) by (nonlinear_arith)
        requires
            0 <= mhz,
            x == mhz * pow2(j),
            pow2(j) > 0,
    ;
    if x >= band(s) {
        lemma_twelfth_grows(band(s), x);
        assert(twelfth(x) * pow2(69) >= twelfth(band(s)) * pow2(69)) by (nonlinear_arith)
            requires
                twelfth(x) >= twelfth(band(s)),
                pow2(69) > 0,
        ;
        assert(a >= b) by (nonlinear_arith)
            requires
                a * c >= b * c,
                c > 0,
        ;
    } else {
        lemma_twelfth_grows(x, band(s) - 1);
        assert(twelfth(x) * pow2(69) <= twelfth(band(s) - 1) * pow2(69)) by (nonlinear_arith)
            requires
                twelfth(x) <= twelfth(band(s) - 1),
                pow2(69) > 0,
        ;
        assert(a < b) by (nonlinear_arith)
            requires
                a * c < b * c,
                c > 0,
        ;
    }
}

/// The twelfth power grows strictly with its argument.
pub proof fn lemma_twelfth_grows_strictly(a: int, b: int)
    requires
        0 <= a < b,
    ensures
        0 <= twelfth(a) < twelfth(b),
{
    assert(0 <= a * a < b * b) by (nonlinear_arith)
        requires
            0 <= a < b,
    ;
    assert(0 <= a * a * a < b * b * b) by (nonlinear_arith)
        requires
            0 <= a < b,
            0 <= a * a < b * b,
    ;
    let ca = cube(a);
    let cb = cube(b);
    assert(0 <= ca * ca < cb * cb) by (nonlinear_arith)
        requires
            0 <= ca < cb,
    ;
    let sa = square(ca);
    let sb = square(cb);
    assert(0 <= sa * sa < sb * sb) by (nonlinear_arith)
        requires
            0 <= sa < sb,
    ;
}

/// Whether a frequency is not above a pitch is told by `band(s)` too: with
/// `x` as in `lemma_band_decides`, the frequency is not above the pitch
/// exactly when `x` is below `band(s)`, or equal to it for pitch 9, the one
/// whose band is its frequency.
pub proof fn lemma_band_decides_below(mhz: int, octave: nat, s: int, x: int)
    requires
        0 <= mhz,
        octave <= 24,
        0 <= s < 12,
        x == mhz * pow2((24 - octave) as nat),
    ensures
        (x < band(s) || (s == 9 && x == band(s))) <==> at_or_below(mhz, (12 * octave + s) as nat),
{
    let j = (24 - octave) as nat;
    let pitch = (12 * octave + s) as nat;
    let c = pow2(12 * j) as int;
    lemma_twelfth_of_product(mhz, pow2(j) as int);
    lemma_twelfth_of_pow2(j);
    lemma_pow2_adds(pitch, 12 * j);
    lemma_pow2_pos(12 * j);
    lemma_pow2_pos(j);
    lemma_band(s);
    lemma_band_decides(mhz, octave, s, x);
    let a = twelfth(mhz) * pow2(69);
    let b = twelfth(440_000) * pow2(pitch);
    assert(twelfth(x) * pow2(69) == a * c) by (nonlinear_arith)
        requires
            twelfth(x) == twelfth(mhz) * c,
            a == twelfth(mhz) * pow2(69),
    ;
    assert(twelfth(440_000) * pow2((288 + s) as nat) == b * c) by (nonlinear_arith)
        requires
            pow2((288 + s) as nat) == pow2(pitch) * c,
            b == twelfth(440_000) * pow2(pitch),
    ;
    if x > band(s) {
        lemma_twelfth_grows_strictly(band(s), x);
        assert(twelfth(x) * pow2(69) > twelfth(band(s)) * pow2(69)) by (nonlinear_arith)
            requires
                twelfth(x) > twelfth(band(s)),
                pow2(69) > 0,
        ;
        assert(a > b) by (nonlinear_arith)
            requires
                a * c > b * c,
                c > 0,
        ;
    } else if x == band(s) {
        if s == 9 {
            assert(a == b) by (nonlinear_arith)
                requires
                    a * c == b * c,
                    c > 0,
            ;
        } else {
            assert(a > b) by (nonlinear_arith)
                requires
                    a * c > b * c,
                    c > 0,
            ;
        }
    }
}

/// A frequency that is not above a pitch is not above any higher pitch.
pub proof fn lemma_at_or_below_higher(mhz: int, low: nat, high: nat)
    requires
        low <= high,
        at_or_below(mhz, low),
    ensures
        at_or_below(mhz, high),
{
    if low < high {
        lemma_pow2_strictly_increases(low, high);
    }
    lemma_twelfth_grows(0, 440_000);
    assert(twelfth(440_000) * pow2(low) <= twelfth(440_000) * pow2(high)) by (nonlinear_arith)
        requires
            0 <= twelfth(440_000),
            pow2(low) <= pow2(high),
    ;
}

/// `pitch` is the lowest pitch whose frequency is not below a frequency of
/// `mhz` millihertz.
pub open spec fn is_ceil_pitch_of(pitch: nat, mhz: int) -> bool {
    &&& at_or_below(mhz, pitch)
    &&& pitch == 0 || !at_or_below(mhz, (pitch - 1) as nat)
}

/// The lowest pitch whose frequency is not below a frequency of `mhz`
/// millihertz.
pub open spec fn ceil_pitch_of(mhz: int) -> nat {
    choose|pitch: nat| is_ceil_pitch_of(pitch, mhz)
}

/// A frequency has one lowest pitch at or above it only.
pub proof fn lemma_ceil_pitch_of(mhz: int, pitch: nat)
    requires
        is_ceil_pitch_of(pitch, mhz),
    ensures
        ceil_pitch_of(mhz) == pitch,
{
    let other = ceil_pitch_of(mhz);
    assert(is_ceil_pitch_of(other, mhz));
    if other < pitch {
        lemma_at_or_below_higher(mhz, other, (pitch - 1) as nat);
    }
    if pitch < other {
        lemma_at_or_below_higher(mhz, pitch, (other - 1) as nat);
    }
}

fn band_at(s: usize) -> (limit: u64)
    requires
        s < 12,
    ensures
        limit == band(s as int),
{
    if s == 0 {
        137_167_144_381
    } else if s == 1 {
        145_323_527_230
    } else if s == 2 {
        153_964_913_842
    } else if s == 3 {
        163_120_144_042
    } else if s == 4 {
        172_819_772_559
    } else if s == 5 {
        183_096_171_002
    } else if s == 6 {
        193_983_635_895
    } else if s == 7 {
        205_518_503_140
    } else if s == 8 {
        217_739_269_285
    } else if s == 9 {
        230_686_720_000
    } else if s == 10 {
        244_404_066_199
    } else {
        258_937_088_249
    }
}

/// Returns the pitch of a frequency given in millihertz: the highest MIDI
/// pitch whose frequency does not exceed it, and 0 for a frequency below
/// all of them.
pub fn hz_to_midi(frequency_mhz: u32) -> (pitch: usize)
    ensures
        is_pitch_of(pitch as nat, frequency_mhz as int),
        pitch == pitch_of(frequency_mhz as int),
        pitch < 240,
{
    let ghost mhz = frequency_mhz as int;
    proof {
        lemma2_to64();
    }
    let mut scaled: u64 = (frequency_mhz as u64) * 16_777_216;
    let lowest: u64 = band_at(0);
    if scaled < lowest {
        proof {
            lemma_band_decides(mhz, 0, 0, scaled as int);
            if at_or_above(mhz, 1) {
                lemma_at_or_above_lower(mhz, 0, 1);
            }
            lemma_pitch_of(mhz, 0);
        }
        return 0;
    }
    let mut octave: usize = 0;
    while scaled / 2 >= lowest
        invariant
            octave < 20,
            mhz == frequency_mhz as int,
            lowest == band(0),
            scaled == mhz * pow2((24 - octave) as nat),
            scaled >= lowest,
        decreases scaled,
    {
        proof {
            lemma2_to64();
            let j = (24 - octave) as nat;
            // Twice the lowest band exceeds what 32 bits can reach with fewer than five binary places.
            if octave == 19 {
                assert(pow2(j) == 32);
                assert(scaled == mhz * 32) by (nonlinear_arith)
                    requires
                        scaled == mhz * pow2(j),
                        pow2(j) == 32,
                ;
                assert(false);
            }
            lemma_pow2_unfold(j);
            assert(mhz * (2 * pow2((j - 1) as nat)) == 2 * (mhz * pow2((j - 1) as nat))) by (nonlinear_arith);
        }
        scaled = scaled / 2;
        octave += 1;
    }
    let ghost j = (24 - octave) as nat;
    // The highest of the twelve pitches of the octave that the frequency is not below.
    let mut s: usize = 0;
    while s < 11 && scaled >= band_at(s + 1)
        invariant
            s < 12,
            scaled >= band(s as int),
        decreases 11 - s,
    {
        s += 1;
    }
    proof {
        lemma2_to64();
        lemma_band_decides(mhz, octave as nat, s as int, scaled as int);
        if s < 11 {
            lemma_band_decides(mhz, octave as nat, s + 1, scaled as int);
        } else {
            lemma_pow2_unfold(j);
            let half = mhz * pow2((j - 1) as nat);
            assert(mhz * (2 * pow2((j - 1) as nat)) == 2 * half) by (nonlinear_arith)
                requires
                    half == mhz * pow2((j - 1) as nat),
            ;
            assert(half < band(0));
            lemma_band_decides(mhz, (octave + 1) as nat, 0, half);
        }
        lemma_pitch_of(mhz, (12 * octave + s) as nat);
    }
    12 * octave + s
}

/// `mhz` is the frequency of the pitch `pitch` in whole millihertz, rounded
/// up: the least number of millihertz that is not below the pitch.
pub open spec fn is_frequency_of(mhz: int, pitch: nat) -> bool {
    &&& at_or_above(mhz, pitch)
    &&& !at_or_above(mhz - 1, pitch)
}

/// Returns the frequency of a MIDI pitch in whole millihertz, rounded up,
/// or `None` for a pitch whose frequency is beyond 32 bits.
pub fn midi_to_hz(midi: usize) -> (frequency_mhz: Option<u32>)
    ensures
        frequency_mhz matches Some(mhz) ==> is_frequency_of(mhz as int, midi as nat),
        frequency_mhz is None <==> !at_or_above(u32::MAX as int, midi as nat),
{
    proof {
        lemma2_to64();
    }
    if midi >= 240 {
        proof {
            lemma_band_decides(u32::MAX as int, 20, 0, u32::MAX * 16);
            if at_or_above(u32::MAX as int, midi as nat) {
                lemma_at_or_above_lower(u32::MAX as int, 240, midi as nat);
            }
        }
        return None;
    }
    let octave: usize = midi / 12;
    let s: usize = midi % 12;
    let places: usize = 24 - octave;
    let mut unit: u64 = 1;
    let mut i: usize = 0;
    while i < places
        invariant
            i <= places <= 24,
            unit == pow2(i as nat),
            unit <= 0x100_0000,
        decreases places - i,
    {
        proof {
            lemma2_to64();
            lemma_pow2_unfold((i + 1) as nat);
            if i + 1 < 24 {
                lemma_pow2_strictly_increases((i + 1) as nat, 24);
            }
        }
        unit = unit * 2;
        i += 1;
    }
    let limit: u64 = band_at(s);
    let up: u64 = (limit + unit - 1) / unit;
    assert(up * unit >= limit && (up - 1) * unit < limit) by (nonlinear_arith)
        requires
            up == (limit + unit - 1) / (unit as int),
            unit > 0,
            limit > 0,
    ;
    assert(up >= 1) by (nonlinear_arith)
        requires
            up * unit >= limit,
            limit > 0,
            unit > 0,
            up >= 0,
    ;
    if up > u32::MAX as u64 {
        proof {
            assert(u32::MAX * unit <= (up - 1) * unit) by (nonlinear_arith)
                requires
                    u32::MAX <= up - 1,
                    unit > 0,
            ;
            lemma_band_decides(u32::MAX as int, octave as nat, s as int, u32::MAX * unit);
        }
        return None;
    }
    proof {
        lemma_band_decides(up as int, octave as nat, s as int, up * unit);
        lemma_band_decides(up - 1, octave as nat, s as int, (up - 1) * unit);
        lemma_band_decides(u32::MAX as int, octave as nat, s as int, u32::MAX * unit);
        assert(u32::MAX * unit >= up * unit) by (nonlinear_arith)
            requires
                u32::MAX >= up,
                unit > 0,
        ;
    }
    Some(up as u32)
}

/// Returns the lowest MIDI pitch whose frequency is not below a frequency
/// given in millihertz.
pub fn hz_to_midi_ceil(frequency_mhz: u32) -> (pitch: usize)
    ensures
        is_ceil_pitch_of(pitch as nat, frequency_mhz as int),
        pitch == ceil_pitch_of(frequency_mhz as int),
        pitch <= 240,
{
    let ghost mhz = frequency_mhz as int;
    let floor: usize = hz_to_midi(frequency_mhz);
    let octave: usize = floor / 12;
    let s: usize = floor % 12;
    let places: usize = 24 - octave;
    let mut unit: u64 = 1;
    let mut i: usize = 0;
    proof {
        lemma2_to64();
    }
    while i < places
        invariant
            i <= places <= 24,
            unit == pow2(i as nat),
            unit <= 0x100_0000,
        decreases places - i,
    {
        proof {
            lemma2_to64();
            lemma_pow2_unfold((i + 1) as nat);
            if i + 1 < 24 {
                lemma_pow2_strictly_increases((i + 1) as nat, 24);
            }
        }
        unit = unit * 2;
        i += 1;
    }
    assert(frequency_mhz * unit <= 0xFFFF_FFFF * 0x100_0000) by (nonlinear_arith)
        requires
            frequency_mhz <= 0xFFFF_FFFF,
            unit <= 0x100_0000,
    ;
    let scaled: u64 = (frequency_mhz as u64) * unit;
    let limit: u64 = band_at(s);
    proof {
        lemma_band_decides_below(mhz, octave as nat, s as int, scaled as int);
    }
    if scaled < limit || (s == 9 && scaled == limit) {
        // The frequency is not above its own pitch: it lies below all pitches, or exactly on one.
        proof {
            if floor > 0 {
                // It is not below its pitch, so it is above the pitch before.
                lemma_pow2_strictly_increases((floor - 1) as nat, floor as nat);
                lemma_twelfth_grows_strictly(0, 440_000);
                assert(twelfth(440_000) * pow2((floor - 1) as nat) < twelfth(440_000) * pow2(floor as nat)) by (nonlinear_arith)
                    requires
                        0 < twelfth(440_000),
                        pow2((floor - 1) as nat) < pow2(floor as nat),
                ;
            }
            lemma_ceil_pitch_of(mhz, floor as nat);
        }
        floor
    } else {
        proof {
            lemma_ceil_pitch_of(mhz, (floor + 1) as nat);
        }
        floor + 1
    }
}

} // verus!
