//! Preparation of the activation matrices for peak picking.

use vstd::prelude::*;
use crate::constants::{CONTOURS_BINS_PER_SEMITONE, MIDI_OFFSET};
use crate::error::PipelineError;
use crate::frequency::{ceil_pitch_of, hz_to_midi, hz_to_midi_ceil, is_ceil_pitch_of, is_pitch_of, pitch_of};
use crate::kernel::{
    across_upto, equal_shaped, global_max, grid_max, lemma_across_upto, lemma_grid_max, max_3d_for_axis0, max_across,
    merged, min_3d_for_axis0, min_across, stack_of,
};
use crate::matrix::{copy_matrix, grid, rectangular, same_shape, set_cell, shape, width};

verus! {

/// Column `c` lies inside the frequency gate: its pitch is not above
/// `max_pitch` and not below `min_pitch`, where these are given.
pub open spec fn keeps_column(c: int, max_pitch: Option<usize>, min_pitch: Option<usize>) -> bool {
    &&& max_pitch matches Some(top) ==> c + MIDI_OFFSET <= top
    &&& min_pitch matches Some(bottom) ==> c + MIDI_OFFSET >= bottom
}

/// The matrix `g` with every column outside the frequency gate set to 0.
pub open spec fn gated(g: Seq<Seq<u32>>, max_pitch: Option<usize>, min_pitch: Option<usize>) -> Seq<Seq<u32>> {
    Seq::new(
        g.len(),
        |r: int|
            Seq::new(
                g[r].len(),
                |c: int|
                    if keeps_column(c, max_pitch, min_pitch) {
                        g[r][c]
                    } else {
                        0u32
                    },
            ),
    )
}

fn gate(m: &mut Vec<Vec<u32>>, max_pitch: Option<usize>, min_pitch: Option<usize>)
    ensures
        grid(final(m)@) == gated(grid(old(m)@), max_pitch, min_pitch),
{
    let ghost g0 = grid(m@);
    let mut r: usize = 0;
    while r < m.len()
        invariant
            r <= m@.len(),
            m@.len() == g0.len(),
            forall|i: int| 0 <= i < g0.len() ==> (#[trigger] grid(m@)[i]).len() == g0[i].len(),
            forall|i: int, j: int|
                0 <= i < g0.len() && 0 <= j < g0[i].len() ==> (#[trigger] grid(m@)[i][j]) == (if i < r && !keeps_column(
                    j,
                    max_pitch,
                    min_pitch,
                ) {
                    0u32
                } else {
                    g0[i][j]
                }),
        decreases m.len() - r,
    {
        let len: usize = m[r].len();
        assert(grid(m@)[r as int] == m@[r as int]@);
        let mut c: usize = 0;
        while c < len
            invariant
                r < m@.len(),
                c <= len,
                len == g0[r as int].len(),
                m@.len() == g0.len(),
                forall|i: int| 0 <= i < g0.len() ==> (#[trigger] grid(m@)[i]).len() == g0[i].len(),
                forall|i: int, j: int|
                    0 <= i < g0.len() && 0 <= j < g0[i].len() ==> (#[trigger] grid(m@)[i][j]) == (if (i < r || (i == r && j
                        < c)) && !keeps_column(j, max_pitch, min_pitch) {
                        0u32
                    } else {
                        g0[i][j]
                    }),
            decreases len - c,
        {
            let above: bool = match max_pitch {
                Some(top) => top < MIDI_OFFSET || c > top - MIDI_OFFSET,
                None => false,
            };
            let below: bool = match min_pitch {
                Some(bottom) => bottom > MIDI_OFFSET && c < bottom - MIDI_OFFSET,
                None => false,
            };
            if above || below {
                assert(grid(m@)[r as int].len() == len);
                set_cell(m, r, c, 0);
            }
            c += 1;
        }
        r += 1;
    }
    assert(grid(m@) =~~= gated(g0, max_pitch, min_pitch));
}

/// The highest pitch that the frequency gate lets through: the highest
/// pitch whose frequency is not above `max_freq`, where that is given.
pub open spec fn gate_top(max_freq: Option<u32>) -> Option<usize> {
    match max_freq {
        Some(mhz) => Some(pitch_of(mhz as int) as usize),
        None => None,
    }
}

/// The lowest pitch that the frequency gate lets through: the lowest
/// pitch whose frequency is not below `min_freq`, where that is given.
pub open spec fn gate_bottom(min_freq: Option<u32>) -> Option<usize> {
    match min_freq {
        Some(mhz) => Some(ceil_pitch_of(mhz as int) as usize),
        None => None,
    }
}

/// Returns the highest pitch that the frequency gate lets through.
pub(crate) fn highest_pitch(max_freq: Option<u32>) -> (pitch: Option<usize>)
    ensures
        pitch == gate_top(max_freq),
        max_freq matches Some(mhz) ==> is_pitch_of(pitch_of(mhz as int), mhz as int) && pitch_of(mhz as int) < 240,
{
    match max_freq {
        Some(mhz) => Some(hz_to_midi(mhz)),
        None => None,
    }
}

/// Returns the lowest pitch that the frequency gate lets through.
pub(crate) fn lowest_pitch(min_freq: Option<u32>) -> (pitch: Option<usize>)
    ensures
        pitch == gate_bottom(min_freq),
        min_freq matches Some(mhz) ==> is_ceil_pitch_of(ceil_pitch_of(mhz as int), mhz as int) && ceil_pitch_of(
            mhz as int,
        ) <= 240,
{
    match min_freq {
        Some(mhz) => Some(hz_to_midi_ceil(mhz)),
        None => None,
    }
}

pub(crate) fn constrain_columns(
    onsets: &mut Vec<Vec<u32>>,
    frames: &mut Vec<Vec<u32>>,
    max_pitch: Option<usize>,
    min_pitch: Option<usize>,
)
    ensures
        grid(final(onsets)@) == gated(grid(old(onsets)@), max_pitch, min_pitch),
        grid(final(frames)@) == gated(grid(old(frames)@), max_pitch, min_pitch),
{
    gate(onsets, max_pitch, min_pitch);
    gate(frames, max_pitch, min_pitch);
}

/// Sets to 0 every column of `onsets` and of `frames` that lies outside the
/// frequency gate: the columns of the pitches whose frequency is above
/// `max_freq`, and those of the pitches whose frequency is below
/// `min_freq`. The frequencies are given in millihertz.
pub fn constrain_frequency(
    onsets: &mut Vec<Vec<u32>>,
    frames: &mut Vec<Vec<u32>>,
    max_freq: Option<u32>,
    min_freq: Option<u32>,
)
    ensures
        grid(final(onsets)@) == gated(grid(old(onsets)@), gate_top(max_freq), gate_bottom(min_freq)),
        grid(final(frames)@) == gated(grid(old(frames)@), gate_top(max_freq), gate_bottom(min_freq)),
{
    let max_pitch: Option<usize> = highest_pitch(max_freq);
    let min_pitch: Option<usize> = lowest_pitch(min_freq);
    constrain_columns(onsets, frames, max_pitch, min_pitch);
}

/// How far `now` lies above `before`, and 0 where it does not.
pub open spec fn rise(now: u32, before: u32) -> u32 {
    if now >= before {
        (now - before) as u32
    } else {
        0
    }
}

/// The rise of every cell of `f` over the cell `n` rows earlier. The first
/// `n` rows, which have no such cell, rise from 0.
pub open spec fn rise_layer(f: Seq<Seq<u32>>, n: int) -> Seq<Seq<u32>> {
    Seq::new(
        f.len(),
        |t: int|
            Seq::new(
                f[t].len(),
                |c: int|
                    if t < n {
                        f[t][c]
                    } else {
                        rise(f[t][c], f[t - n][c])
                    },
            ),
    )
}

/// The rises of `f` over 1, 2, ..., `n_diff` rows.
pub open spec fn rise_layers(f: Seq<Seq<u32>>, n_diff: int) -> Seq<Seq<Seq<u32>>> {
    Seq::new(n_diff as nat, |k: int| rise_layer(f, k + 1))
}

/// The matrix `m` with its first `upto` rows set to 0.
pub open spec fn without_first_rows(m: Seq<Seq<u32>>, upto: int) -> Seq<Seq<u32>> {
    Seq::new(
        m.len(),
        |t: int|
            Seq::new(
                m[t].len(),
                |c: int|
                    if t < upto {
                        0u32
                    } else {
                        m[t][c]
                    },
            ),
    )
}

/// For every cell of `f`, the least of its rises over 1 to `n_diff` rows;
/// 0 in the first `n_diff` rows.
pub open spec fn frame_rise(f: Seq<Seq<u32>>, n_diff: int) -> Seq<Seq<u32>> {
    without_first_rows(min_across(rise_layers(f, n_diff)), n_diff)
}

/// The matrix `d` scaled by `to_max / from_max`, every cell rounded down.
pub open spec fn rescaled(d: Seq<Seq<u32>>, to_max: u32, from_max: u32) -> Seq<Seq<u32>> {
    Seq::new(d.len(), |t: int| Seq::new(d[t].len(), |c: int| ((to_max as int * d[t][c] as int) / from_max as int) as u32))
}

/// The onsets `o` raised, cell by cell, to the rise of the frames `f`
/// scaled so that its greatest cell equals the greatest cell of `o`. Where
/// the frames rise nowhere there is nothing to scale, and the onsets stay
/// as they are.
pub open spec fn inferred_onsets(o: Seq<Seq<u32>>, f: Seq<Seq<u32>>, n_diff: int) -> Seq<Seq<u32>> {
    if grid_max(frame_rise(f, n_diff)) == 0 {
        o
    } else {
        merged(o, rescaled(frame_rise(f, n_diff), grid_max(o), grid_max(frame_rise(f, n_diff))), false)
    }
}

/// What `get_inferred_onsets` returns: an error where `n_diff` is 0 or
/// where the matrices are not two rectangles of one shape; the inferred
/// onsets otherwise.
pub open spec fn inferred_onsets_result(o: Seq<Seq<u32>>, f: Seq<Seq<u32>>, n_diff: int) -> Result<
    Seq<Seq<u32>>,
    PipelineError,
> {
    if n_diff < 1 {
        Err(PipelineError::Config)
    } else if !(rectangular(f) && same_shape(f, o)) {
        Err(PipelineError::Shape)
    } else {
        Ok(inferred_onsets(o, f, n_diff))
    }
}

fn make_rise_layer(frames: &Vec<Vec<u32>>, n: usize) -> (layer: Vec<Vec<u32>>)
    requires
        rectangular(grid(frames@)),
    ensures
        grid(layer@) == rise_layer(grid(frames@), n as int),
{
    let ghost f = grid(frames@);
    let mut layer: Vec<Vec<u32>> = Vec::new();
    let mut t: usize = 0;
    while t < frames.len()
        invariant
            t <= frames@.len(),
            f == grid(frames@),
            rectangular(f),
            grid(layer@) == rise_layer(f, n as int).take(t as int),
        decreases frames.len() - t,
    {
        let len: usize = frames[t].len();
        assert(f[t as int] == frames@[t as int]@);
        let ghost want = rise_layer(f, n as int)[t as int];
        let mut row: Vec<u32> = Vec::new();
        let mut c: usize = 0;
        while c < len
            invariant
                t < frames@.len(),
                c <= len,
                len == f[t as int].len(),
                f == grid(frames@),
                rectangular(f),
                want == rise_layer(f, n as int)[t as int],
                row@ == want.take(c as int),
            decreases len - c,
        {
            assert(f[t as int] == frames@[t as int]@);
            let now: u32 = frames[t][c];
            let value: u32 = if t < n {
                now
            } else {
                assert(f[t - n] == frames@[t - n]@);
                assert(f[t - n].len() == width(f));
                assert(f[t as int].len() == width(f));
                let before: u32 = frames[t - n][c];
                if now >= before {
                    now - before
                } else {
                    0
                }
            };
            row.push(value);
            assert(row@ =~= want.take(c + 1));
            c += 1;
        }
        assert(want.take(len as int) =~= want);
        let ghost before = grid(layer@);
        layer.push(row);
        assert(grid(layer@) =~= before.push(want));
        assert(grid(layer@) =~= rise_layer(f, n as int).take(t + 1));
        t += 1;
    }
    assert(rise_layer(f, n as int).take(frames@.len() as int) =~= rise_layer(f, n as int));
    layer
}

fn clear_first_rows(m: &mut Vec<Vec<u32>>, upto: usize)
    ensures
        grid(final(m)@) == without_first_rows(grid(old(m)@), upto as int),
{
    let ghost g0 = grid(m@);
    let mut t: usize = 0;
    while t < m.len() && t < upto
        invariant
            t <= m@.len(),
            t <= upto,
            m@.len() == g0.len(),
            forall|i: int| 0 <= i < g0.len() ==> (#[trigger] grid(m@)[i]).len() == g0[i].len(),
            forall|i: int, j: int|
                0 <= i < g0.len() && 0 <= j < g0[i].len() ==> (#[trigger] grid(m@)[i][j]) == (if i < t {
                    0u32
                } else {
                    g0[i][j]
                }),
        decreases m.len() - t,
    {
        let len: usize = m[t].len();
        assert(grid(m@)[t as int] == m@[t as int]@);
        let mut c: usize = 0;
        while c < len
            invariant
                t < m@.len(),
                c <= len,
                len == g0[t as int].len(),
                m@.len() == g0.len(),
                forall|i: int| 0 <= i < g0.len() ==> (#[trigger] grid(m@)[i]).len() == g0[i].len(),
                forall|i: int, j: int|
                    0 <= i < g0.len() && 0 <= j < g0[i].len() ==> (#[trigger] grid(m@)[i][j]) == (if i < t || (i == t && j
                        < c) {
                        0u32
                    } else {
                        g0[i][j]
                    }),
            decreases len - c,
        {
            assert(grid(m@)[t as int].len() == len);
            set_cell(m, t, c, 0);
            c += 1;
        }
        t += 1;
    }
    assert(grid(m@) =~~= without_first_rows(g0, upto as int));
}

fn rescale(m: &mut Vec<Vec<u32>>, to_max: u32, from_max: u32)
    requires
        from_max > 0,
        forall|i: int, j: int|
            0 <= i < old(m)@.len() && 0 <= j < old(m)@[i]@.len() ==> (#[trigger] old(m)@[i]@[j]) <= from_max,
    ensures
        grid(final(m)@) == rescaled(grid(old(m)@), to_max, from_max),
{
    let ghost g0 = grid(m@);
    let mut t: usize = 0;
    while t < m.len()
        invariant
            t <= m@.len(),
            m@.len() == g0.len(),
            from_max > 0,
            forall|i: int, j: int| 0 <= i < g0.len() && 0 <= j < g0[i].len() ==> (#[trigger] g0[i][j]) <= from_max,
            forall|i: int| 0 <= i < g0.len() ==> (#[trigger] grid(m@)[i]).len() == g0[i].len(),
            forall|i: int, j: int|
                0 <= i < g0.len() && 0 <= j < g0[i].len() ==> (#[trigger] grid(m@)[i][j]) == (if i < t {
                    ((to_max as int * g0[i][j] as int) / from_max as int) as u32
                } else {
                    g0[i][j]
                }),
        decreases m.len() - t,
    {
        let len: usize = m[t].len();
        assert(grid(m@)[t as int] == m@[t as int]@);
        let mut c: usize = 0;
        while c < len
            invariant
                t < m@.len(),
                c <= len,
                len == g0[t as int].len(),
                m@.len() == g0.len(),
                from_max > 0,
                forall|i: int, j: int| 0 <= i < g0.len() && 0 <= j < g0[i].len() ==> (#[trigger] g0[i][j]) <= from_max,
                forall|i: int| 0 <= i < g0.len() ==> (#[trigger] grid(m@)[i]).len() == g0[i].len(),
                forall|i: int, j: int|
                    0 <= i < g0.len() && 0 <= j < g0[i].len() ==> (#[trigger] grid(m@)[i][j]) == (if i < t || (i == t && j
                        < c) {
                        ((to_max as int * g0[i][j] as int) / from_max as int) as u32
                    } else {
                        g0[i][j]
                    }),
            decreases len - c,
        {
            assert(grid(m@)[t as int] == m@[t as int]@);
            assert(grid(m@)[t as int][c as int] == g0[t as int][c as int]);
            let v: u32 = m[t][c];
            assert(v <= from_max);
            assert(to_max * v <= 0xFFFF_FFFF * 0xFFFF_FFFF) by (nonlinear_arith)
                requires
                    to_max <= 0xFFFF_FFFF,
                    v <= 0xFFFF_FFFF,
            ;
            let product: u64 = (to_max as u64) * (v as u64);
            assert(product / (from_max as u64) <= to_max) by (nonlinear_arith)
                requires
                    product == to_max * v,
                    v <= from_max,
                    from_max > 0,
            ;
            let scaled: u32 = (product / (from_max as u64)) as u32;
            set_cell(m, t, c, scaled);
            c += 1;
        }
        t += 1;
    }
    assert(grid(m@) =~~= rescaled(g0, to_max, from_max));
}

/// Infers onsets from sharp rises of the frame activations: where the
/// frames rise over each of the `n_diff` rows before a cell, the least of
/// these rises, scaled to the range of the onsets, is taken as an onset
/// activation of its own, and the stronger of the two is kept. Where the
/// frames rise nowhere, the onsets are returned as they are.
pub fn get_inferred_onsets(onsets: &Vec<Vec<u32>>, frames: &Vec<Vec<u32>>, n_diff: usize) -> (result: Result<
    Vec<Vec<u32>>,
    PipelineError,
>)
    ensures
        match result {
            Ok(m) => inferred_onsets_result(grid(onsets@), grid(frames@), n_diff as int) == Ok::<
                Seq<Seq<u32>>,
                PipelineError,
            >(grid(m@)),
            Err(e) => inferred_onsets_result(grid(onsets@), grid(frames@), n_diff as int) == Err::<
                Seq<Seq<u32>>,
                PipelineError,
            >(e),
        },
{
    let ghost o = grid(onsets@);
    let ghost f = grid(frames@);
    if n_diff < 1 {
        return Err(PipelineError::Config);
    }
    let frame_shape: Option<(usize, usize)> = shape(frames);
    let onset_shape: Option<(usize, usize)> = shape(onsets);
    match (frame_shape, onset_shape) {
        (Some((rows, cols)), Some((onset_rows, onset_cols))) => {
            if rows != onset_rows || (rows > 0 && cols != onset_cols) {
                proof {
                    if rows == onset_rows {
                        assert(f[0].len() != o[0].len());
                    }
                }
                return Err(PipelineError::Shape);
            }
            assert(same_shape(f, o)) by {
                assert forall|i: int| 0 <= i < f.len() implies (#[trigger] f[i]).len() == o[i].len() by {
                    assert(o[i].len() == width(o));
                }
            }
        },
        (Some(_), None) => {
            proof {
                if same_shape(f, o) {
                    assert forall|i: int| 0 <= i < o.len() implies (#[trigger] o[i]).len() == width(o) by {
                        assert(f[i].len() == o[i].len());
                        assert(f[0].len() == o[0].len());
                    }
                }
            }
            return Err(PipelineError::Shape);
        },
        (None, _) => {
            return Err(PipelineError::Shape);
        },
    }
    let ghost layers_wanted = rise_layers(f, n_diff as int);
    let mut diffs: Vec<Vec<Vec<u32>>> = Vec::new();
    let mut k: usize = 0;
    while k < n_diff
        invariant
            k <= n_diff,
            f == grid(frames@),
            rectangular(f),
            layers_wanted == rise_layers(f, n_diff as int),
            stack_of(diffs@) == layers_wanted.take(k as int),
        decreases n_diff - k,
    {
        let layer: Vec<Vec<u32>> = make_rise_layer(frames, k + 1);
        let ghost before = stack_of(diffs@);
        diffs.push(layer);
        assert(stack_of(diffs@) =~= before.push(rise_layer(f, k + 1)));
        assert(stack_of(diffs@) =~= layers_wanted.take(k + 1));
        k += 1;
    }
    assert(layers_wanted.take(n_diff as int) =~= layers_wanted);
    assert(equal_shaped(layers_wanted)) by {
        assert forall|x: int| 0 <= x < layers_wanted.len() implies same_shape(layers_wanted[0], #[trigger] layers_wanted[x]) by {
            assert forall|i: int| 0 <= i < layers_wanted[0].len() implies (#[trigger] layers_wanted[0][i]).len() == layers_wanted[x][i].len() by {}
        }
    }
    let mut frame_diff: Vec<Vec<u32>> = min_3d_for_axis0(&diffs);
    clear_first_rows(&mut frame_diff, n_diff);
    assert(grid(frame_diff@) == frame_rise(f, n_diff as int));
    let onset_max: u32 = global_max(onsets);
    let frame_diff_max: u32 = global_max(&frame_diff);
    // Nothing rises: there is no scale to bring the rises to, and no onset to infer.
    if frame_diff_max == 0 {
        return Ok(copy_matrix(onsets));
    }
    rescale(&mut frame_diff, onset_max, frame_diff_max);
    let ghost scaled = grid(frame_diff@);
    let mut both: Vec<Vec<Vec<u32>>> = Vec::new();
    both.push(copy_matrix(onsets));
    both.push(frame_diff);
    proof {
        let stack = stack_of(both@);
        assert(stack[0] == o);
        assert(stack[1] == scaled);
        lemma_across_upto(layers_wanted, n_diff as int, true);
        assert(same_shape(o, scaled)) by {
            let least = min_across(layers_wanted);
            assert forall|i: int| 0 <= i < o.len() implies (#[trigger] o[i]).len() == scaled[i].len() by {
                assert(f[i].len() == o[i].len());
                assert(layers_wanted[0][i].len() == least[i].len());
            }
        }
        assert(equal_shaped(stack)) by {
            assert forall|x: int| 0 <= x < stack.len() implies same_shape(stack[0], #[trigger] stack[x]) by {
                if x == 0 {
                    assert forall|i: int| 0 <= i < o.len() implies (#[trigger] o[i]).len() == o[i].len() by {}
                }
            }
        }
        assert(max_across(stack) == merged(o, scaled, false)) by {
            assert(across_upto(stack, 1, false) == o);
            assert(across_upto(stack, 2, false) == merged(across_upto(stack, 1, false), stack[1], false));
        }
    }
    Ok(max_3d_for_axis0(&both))
}

/// Gating keeps the shape of a matrix.
pub proof fn lemma_gated_shape(g: Seq<Seq<u32>>, max_pitch: Option<usize>, min_pitch: Option<usize>)
    ensures
        same_shape(g, gated(g, max_pitch, min_pitch)),
        rectangular(g) ==> rectangular(gated(g, max_pitch, min_pitch)),
        width(gated(g, max_pitch, min_pitch)) == width(g),
        forall|r: int, c: int|
            0 <= r < g.len() && 0 <= c < g[r].len() && !keeps_column(c, max_pitch, min_pitch) ==> (#[trigger] gated(
                g,
                max_pitch,
                min_pitch,
            )[r][c]) == 0,
{
    let h = gated(g, max_pitch, min_pitch);
    assert forall|i: int| 0 <= i < g.len() implies (#[trigger] g[i]).len() == h[i].len() by {}
    if rectangular(g) {
        assert forall|i: int| 0 <= i < h.len() implies (#[trigger] h[i]).len() == width(h) by {
            assert(g[i].len() == width(g));
        }
    }
}

/// Inferred onsets have the shape of the onsets, and are 0 wherever both
/// the onsets and the frames are 0 throughout a column.
pub proof fn lemma_inferred_onsets(o: Seq<Seq<u32>>, f: Seq<Seq<u32>>, n_diff: int, dark: Set<int>)
    requires
        n_diff >= 1,
        rectangular(f),
        same_shape(f, o),
        forall|r: int, c: int| 0 <= r < f.len() && 0 <= c < f[r].len() && dark.contains(c) ==> (#[trigger] f[r][c]) == 0,
        forall|r: int, c: int| 0 <= r < o.len() && 0 <= c < o[r].len() && dark.contains(c) ==> (#[trigger] o[r][c]) == 0,
    ensures
        same_shape(f, inferred_onsets(o, f, n_diff)),
        rectangular(inferred_onsets(o, f, n_diff)),
        width(inferred_onsets(o, f, n_diff)) == width(f),
        forall|r: int, c: int|
            0 <= r < f.len() && 0 <= c < f[r].len() && dark.contains(c) ==> (#[trigger] inferred_onsets(o, f, n_diff)[r][c])
                == 0,
{
    let layers = rise_layers(f, n_diff);
    let least = min_across(layers);
    let risen = frame_rise(f, n_diff);
    let top = grid_max(o);
    let from = grid_max(risen);
    let scaled = rescaled(risen, top, from);
    let out = inferred_onsets(o, f, n_diff);
    assert(equal_shaped(layers)) by {
        assert forall|x: int| 0 <= x < layers.len() implies same_shape(layers[0], #[trigger] layers[x]) by {
            assert forall|i: int| 0 <= i < layers[0].len() implies (#[trigger] layers[0][i]).len() == layers[x][i].len() by {}
        }
    }
    lemma_across_upto(layers, n_diff, true);
    assert forall|i: int| 0 <= i < f.len() implies (#[trigger] f[i]).len() == out[i].len() by {
        assert(f[i].len() == o[i].len());
    }
    assert forall|i: int| 0 <= i < out.len() implies (#[trigger] out[i]).len() == width(out) by {
        assert(f[i].len() == o[i].len());
        assert(f[0].len() == o[0].len());
        assert(f[i].len() == width(f));
    }
    assert(width(out) == width(f)) by {
        if f.len() > 0 {
            assert(f[0].len() == o[0].len());
        }
    }
    assert forall|r: int, c: int| 0 <= r < f.len() && 0 <= c < f[r].len() && dark.contains(c) implies (#[trigger] out[r][c])
        == 0 by {
        assert(f[r].len() == o[r].len());
        assert(o[r][c] == 0);
        assert(layers[0][r].len() == least[r].len());
        assert(layers[0][r].len() == f[r].len());
        assert(f[r][c] == 0);
        if r >= 1 {
            assert(f[r - 1].len() == width(f));
            assert(f[r].len() == width(f));
            assert(f[r - 1][c] == 0);
        }
        assert(layers[0][r][c] == 0);
        assert(least[r][c] <= layers[0][r][c]);
        assert(risen[r][c] == 0);
        if from > 0 {
            assert((top as int * 0) / from as int == 0) by (nonlinear_arith)
                requires
                    from > 0,
            ;
            assert(scaled[r][c] == 0);
        }
    }
}

/// Inferred onsets are nowhere below the onsets and nowhere above their
/// greatest cell, so the two have the same greatest cell; and in the first
/// `n_diff` rows, which have no rows to rise from, they are the onsets.
pub proof fn lemma_inferred_onsets_bounds(o: Seq<Seq<u32>>, f: Seq<Seq<u32>>, n_diff: int)
    requires
        n_diff >= 1,
        rectangular(f),
        same_shape(f, o),
    ensures
        same_shape(o, inferred_onsets(o, f, n_diff)),
        forall|r: int, c: int|
            0 <= r < o.len() && 0 <= c < o[r].len() ==> o[r][c] <= (#[trigger] inferred_onsets(o, f, n_diff)[r][c])
                <= grid_max(o),
        forall|r: int, c: int|
            0 <= r < o.len() && r < n_diff && 0 <= c < o[r].len() ==> (#[trigger] inferred_onsets(o, f, n_diff)[r][c])
                == o[r][c],
        grid_max(inferred_onsets(o, f, n_diff)) == grid_max(o),
{
    let layers = rise_layers(f, n_diff);
    let least = min_across(layers);
    let risen = frame_rise(f, n_diff);
    let top = grid_max(o);
    let from = grid_max(risen);
    let scaled = rescaled(risen, top, from);
    let out = inferred_onsets(o, f, n_diff);
    lemma_grid_max(o);
    lemma_grid_max(risen);
    lemma_grid_max(out);
    assert(equal_shaped(layers)) by {
        assert forall|x: int| 0 <= x < layers.len() implies same_shape(layers[0], #[trigger] layers[x]) by {
            assert forall|i: int| 0 <= i < layers[0].len() implies (#[trigger] layers[0][i]).len() == layers[x][i].len() by {}
        }
    }
    lemma_across_upto(layers, n_diff, true);
    assert forall|i: int| 0 <= i < o.len() implies (#[trigger] o[i]).len() == out[i].len() by {}
    assert forall|r: int, c: int| 0 <= r < o.len() && 0 <= c < o[r].len() implies o[r][c] <= (#[trigger] out[r][c])
        <= top && (r < n_diff ==> out[r][c] == o[r][c]) by {
        assert(f[r].len() == o[r].len());
        assert(layers[0][r].len() == least[r].len());
        assert(layers[0][r].len() == f[r].len());
        if from > 0 {
            let v = risen[r][c];
            assert(v <= from);
            assert(0 <= (top as int * v as int) / from as int <= top) by (nonlinear_arith)
                requires
                    0 <= v <= from,
                    from > 0,
                    0 <= top,
            ;
            if r < n_diff {
                assert((top as int * 0) / from as int == 0) by (nonlinear_arith)
                    requires
                        from > 0,
                ;
            }
            assert(scaled[r][c] == (top as int * v as int) / from as int);
        }
    }
    crate::kernel::lemma_grid_max_order(o, out);
    if grid_max(out) != 0 {
        let (r, c) = choose|r: int, c: int| 0 <= r < out.len() && 0 <= c < out[r].len() && out[r][c] == grid_max(out);
        assert(out[r].len() == o[r].len());
        assert(out[r][c] <= top);
    }
}

/// The contour bin of a MIDI pitch: three bins for every semitone above the
/// pitch of bin 0. It is negative for a pitch below that.
pub open spec fn contour_bin(pitch_midi: int) -> int {
    CONTOURS_BINS_PER_SEMITONE * (pitch_midi - MIDI_OFFSET)
}

/// Converts a MIDI pitch to its contour bin.
pub fn midi_pitch_to_contour_bin(pitch_midi: usize) -> (bin: i128)
    ensures
        bin == contour_bin(pitch_midi as int),
{
    (CONTOURS_BINS_PER_SEMITONE as i128) * (pitch_midi as i128 - MIDI_OFFSET as i128)
}

} // verus!
