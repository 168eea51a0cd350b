//! Stitching of overlapping inference windows into one time line.

use vstd::prelude::*;
use crate::constants::{ANNOTATIONS_FPS, AUDIO_SAMPLE_RATE};
use crate::error::PipelineError;
use crate::kernel::stack_of;
use crate::matrix::grid;

verus! {

/// Every window of `windows` has `frames` frames of `bins` bins.
pub open spec fn box_shaped(windows: Seq<Seq<Seq<u32>>>, frames: int, bins: int) -> bool {
    forall|w: int|
        0 <= w < windows.len() ==> {
            &&& (#[trigger] windows[w]).len() == frames
            &&& forall|t: int| 0 <= t < frames ==> (#[trigger] windows[w][t]).len() == bins
        }
}

/// The windows all have the shape of the first.
pub open spec fn windows_alike(windows: Seq<Seq<Seq<u32>>>) -> bool {
    windows.len() > 0 ==> box_shaped(
        windows,
        windows[0].len() as int,
        if windows[0].len() > 0 {
            windows[0][0].len() as int
        } else {
            0
        },
    )
}

/// The number of frames of every window, and 0 where there is no window.
pub open spec fn window_frames(windows: Seq<Seq<Seq<u32>>>) -> int {
    if windows.len() > 0 {
        windows[0].len() as int
    } else {
        0
    }
}

/// The frames cut from each end of a window: half the overlap, rounded down.
pub open spec fn half_overlap(n_overlapping_frames: int) -> int {
    n_overlapping_frames / 2
}

/// The number of frames that audio of `audio_length` samples
/// covers, rounded down.
pub open spec fn valid_frames(audio_length: int) -> int {
    (audio_length * ANNOTATIONS_FPS as int) / AUDIO_SAMPLE_RATE as int
}

/// A window without its first and last `cut` frames.
pub open spec fn trimmed(window: Seq<Seq<u32>>, cut: int) -> Seq<Seq<u32>> {
    window.subrange(cut, window.len() - cut)
}

/// The first `n` windows, each trimmed, one after the other.
pub open spec fn joined_upto(windows: Seq<Seq<Seq<u32>>>, cut: int, n: int) -> Seq<Seq<u32>>
    decreases n,
{
    if n <= 0 {
        Seq::empty()
    } else {
        joined_upto(windows, cut, n - 1) + trimmed(windows[n - 1], cut)
    }
}

/// All windows, each trimmed, one after the other.
pub open spec fn joined(windows: Seq<Seq<Seq<u32>>>, cut: int) -> Seq<Seq<u32>> {
    joined_upto(windows, cut, windows.len() as int)
}

/// The first `limit` rows of `rows`, or all of them where there are fewer.
pub open spec fn clipped(rows: Seq<Seq<u32>>, limit: int) -> Seq<Seq<u32>> {
    if limit < rows.len() {
        rows.take(limit)
    } else {
        rows
    }
}

/// What `unwrap_output` returns: an error where the windows differ in
/// shape or are shorter than what is cut from them; otherwise the trimmed
/// windows joined, clipped to the frames that the audio covers. Where
/// there is no window, there is no row.
pub open spec fn stitched(windows: Seq<Seq<Seq<u32>>>, audio_length: int, n_overlapping_frames: int) -> Result<
    Seq<Seq<u32>>,
    PipelineError,
> {
    if !windows_alike(windows) || (windows.len() > 0 && window_frames(windows) < 2 * half_overlap(
        n_overlapping_frames,
    )) {
        Err(PipelineError::Shape)
    } else {
        Ok(clipped(joined(windows, half_overlap(n_overlapping_frames)), valid_frames(audio_length)))
    }
}

/// The windows joined up to some window are the first rows of all windows
/// joined.
pub proof fn lemma_joined_prefix(windows: Seq<Seq<Seq<u32>>>, cut: int, n: int, m: int)
    requires
        0 <= n <= m,
    ensures
        joined_upto(windows, cut, n).len() <= joined_upto(windows, cut, m).len(),
        forall|k: int|
            0 <= k < joined_upto(windows, cut, n).len() ==> (#[trigger] joined_upto(windows, cut, m)[k]) == joined_upto(
                windows,
                cut,
                n,
            )[k],
    decreases m - n,
{
    if n < m {
        lemma_joined_prefix(windows, cut, n, m - 1);
    }
}

fn check_windows(output: &Vec<Vec<Vec<u32>>>) -> (frames: Option<usize>)
    ensures
        frames is Some <==> windows_alike(stack_of(output@)),
        frames matches Some(n) ==> n == window_frames(stack_of(output@)),
{
    let ghost windows = stack_of(output@);
    if output.len() == 0 {
        return Some(0);
    }
    assert(windows[0] == grid(output@[0]@));
    let frames: usize = output[0].len();
    let bins: usize = if frames > 0 {
        assert(windows[0][0] == output@[0]@[0]@);
        output[0][0].len()
    } else {
        0
    };
    let mut w: usize = 0;
    while w < output.len()
        invariant
            w <= output@.len(),
            windows == stack_of(output@),
            output@.len() > 0,
            frames == windows[0].len(),
            bins == (if windows[0].len() > 0 {
                windows[0][0].len() as int
            } else {
                0
            }),
            box_shaped(windows.take(w as int), frames as int, bins as int),
        decreases output.len() - w,
    {
        assert(windows[w as int] == grid(output@[w as int]@));
        if output[w].len() != frames {
            assert(!box_shaped(windows, frames as int, bins as int));
            return None;
        }
        let mut t: usize = 0;
        while t < frames
            invariant
                t <= frames,
                w < output@.len(),
                windows == stack_of(output@),
                output@.len() > 0,
                frames == windows[0].len(),
                bins == (if windows[0].len() > 0 {
                    windows[0][0].len() as int
                } else {
                    0
                }),
                windows[w as int].len() == frames,
                forall|q: int| 0 <= q < t ==> (#[trigger] windows[w as int][q]).len() == bins,
            decreases frames - t,
        {
            assert(windows[w as int] == grid(output@[w as int]@));
            assert(windows[w as int][t as int] == output@[w as int]@[t as int]@);
            if output[w][t].len() != bins {
                assert(!box_shaped(windows, frames as int, bins as int)) by {
                    if box_shaped(windows, frames as int, bins as int) {
                        assert(windows[w as int].len() == frames);
                        assert(windows[w as int][t as int].len() == bins);
                    }
                }
                return None;
            }
            t += 1;
        }
        assert(box_shaped(windows.take(w + 1), frames as int, bins as int)) by {
            assert forall|x: int| 0 <= x < windows.take(w + 1).len() implies {
                &&& (#[trigger] windows.take(w + 1)[x]).len() == frames
                &&& forall|q: int| 0 <= q < frames ==> (#[trigger] windows.take(w + 1)[x][q]).len() == bins
            } by {
                if x < w {
                    assert(windows.take(w as int)[x] == windows[x]);
                }
            }
        }
        w += 1;
    }
    assert(windows.take(output@.len() as int) =~= windows);
    Some(frames)
}

/// Joins the windows of a model output into one matrix of frames.
///
/// Half the overlap is cut from both ends of every window, the windows are
/// put one after the other, and the result is clipped to the frames that
/// audio of `audio_length` samples covers.
pub fn unwrap_output(output: &Vec<Vec<Vec<u32>>>, audio_length: usize, n_overlapping_frames: usize) -> (result:
    Result<Vec<Vec<u32>>, PipelineError>)
    ensures
        match result {
            Ok(rows) => {
                &&& stitched(stack_of(output@), audio_length as int, n_overlapping_frames as int) == Ok::<
                    Seq<Seq<u32>>,
                    PipelineError,
                >(grid(rows@))
                &&& rows@.len() <= valid_frames(audio_length as int)
            },
            Err(e) => stitched(stack_of(output@), audio_length as int, n_overlapping_frames as int) == Err::<
                Seq<Seq<u32>>,
                PipelineError,
            >(e),
        },
{
    let ghost windows = stack_of(output@);
    let n_olap: usize = n_overlapping_frames / 2;
    let frames: usize = match check_windows(output) {
        Some(n) => n,
        None => {
            return Err(PipelineError::Shape);
        },
    };
    if output.len() == 0 {
        let none: Vec<Vec<u32>> = Vec::new();
        assert(grid(none@) =~= joined(windows, half_overlap(n_overlapping_frames as int)));
        return Ok(none);
    }
    if frames < n_olap || frames - n_olap < n_olap {
        return Err(PipelineError::Shape);
    }
    assert((audio_length * 86) / 22050 <= audio_length) by (nonlinear_arith);
    let n_output_frames: usize = (((audio_length as u128) * (ANNOTATIONS_FPS as u128)) / (
    AUDIO_SAMPLE_RATE as u128)) as usize;
    assert(n_output_frames == valid_frames(audio_length as int));
    let ghost cut = n_olap as int;
    let ghost all = joined(windows, cut);
    let mut rows: Vec<Vec<u32>> = Vec::new();
    let mut w: usize = 0;
    assert(grid(rows@) =~= joined_upto(windows, cut, 0));
    assert(all.take(0) =~= joined_upto(windows, cut, 0));
    while w < output.len() && rows.len() < n_output_frames
        invariant
            w <= output@.len(),
            windows == stack_of(output@),
            cut == n_olap as int,
            all == joined(windows, cut),
            windows_alike(windows),
            frames == window_frames(windows),
            2 * n_olap <= frames,
            n_output_frames == valid_frames(audio_length as int),
            rows@.len() <= n_output_frames,
            rows@.len() <= all.len(),
            rows@.len() == n_output_frames || grid(rows@) == joined_upto(windows, cut, w as int),
            rows@.len() == n_output_frames ==> grid(rows@) == all.take(n_output_frames as int),
        decreases output.len() - w,
    {
        let ghost before = joined_upto(windows, cut, w as int);
        let ghost piece = trimmed(windows[w as int], cut);
        assert(windows[w as int] == grid(output@[w as int]@));
        assert(windows[w as int].len() == frames);
        let mut t: usize = n_olap;
        assert(grid(rows@) =~= before + piece.take(0));
        while t < frames - n_olap && rows.len() < n_output_frames
            invariant
                n_olap <= t <= frames - n_olap,
                w < output@.len(),
                windows == stack_of(output@),
                windows[w as int].len() == frames,
                cut == n_olap as int,
                piece == trimmed(windows[w as int], cut),
                rows@.len() <= n_output_frames,
                grid(rows@) == before + piece.take(t - n_olap),
            decreases frames - t,
        {
            assert(windows[w as int] == grid(output@[w as int]@));
            let row: Vec<u32> = output[w][t].clone();
            assert(row@ == windows[w as int][t as int]);
            assert(piece[t - n_olap] == windows[w as int][t as int]);
            let ghost held = grid(rows@);
            rows.push(row);
            assert(grid(rows@) =~= held.push(piece[t - n_olap]));
            assert(grid(rows@) =~= before + piece.take(t + 1 - n_olap));
            t += 1;
        }
        proof {
            lemma_joined_prefix(windows, cut, w + 1, windows.len() as int);
            assert(joined_upto(windows, cut, w + 1) == before + piece);
            if t == frames - n_olap {
                assert(piece.take(t - n_olap) =~= piece);
            }
            assert(rows@.len() == grid(rows@).len());
            assert(rows@.len() <= (before + piece).len());
            if rows@.len() == n_output_frames {
                assert(grid(rows@) =~= all.take(n_output_frames as int)) by {
                    assert forall|k: int| 0 <= k < rows@.len() implies grid(rows@)[k] == all[k] by {
                        assert(grid(rows@)[k] == (before + piece)[k]);
                    }
                }
            }
        }
        w += 1;
    }
    proof {
        let limit = n_output_frames as int;
        assert(rows@.len() == grid(rows@).len());
        if rows@.len() < limit {
            assert(w == output@.len());
            assert(grid(rows@) == all);
            assert(clipped(all, limit) == all);
        } else {
            assert(grid(rows@) == all.take(limit));
            if all.len() == limit {
                assert(all.take(limit) =~= all);
            }
            assert(clipped(all, limit) == all.take(limit));
        }
    }
    Ok(rows)
}

} // verus!
