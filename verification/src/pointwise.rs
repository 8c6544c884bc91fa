//! What the library does to audio, one sample at a time.

use vstd::prelude::*;

use crate::array::{shape_fits, Grid};
use crate::error::{error_kind, HoundErrorKind, WavUtilsError};
use crate::layout::{
    block, deinterleaved, grown, holds_frames, interleaved, lemma_channel_len, lemma_place,
    lemma_place_of, overlaid, place,
};
use crate::queue::{front, hop_front, joined, padded_hop, silent, uniform, without_front};
use crate::reader::{
    all_ok, first, lays_frames, lemma_ok_prefix, ok_run, ok_values, pulled_from, reads_frames,
    Pulled,
};

verus! {

/// A block has the channels of its vectors.
pub proof fn law_block_channels<T>(chans: Seq<Vec<T>>, c: int)
    requires
        0 <= c < chans.len(),
    ensures
        block(chans).len() == chans.len(),
        block(chans)[c] == chans[c]@,
{
}

/// A block holds `n` frames just where no channel is shorter.
pub proof fn law_held_frames<T>(x: Seq<Seq<T>>, n: nat)
    ensures
        holds_frames(x, n) <==> !exists|c: int| 0 <= c < x.len() && (#[trigger] x[c]).len() < n,
{
}

/// Frame `t` of channel `c` stands behind all earlier frames and all earlier
/// channels of its frame.
pub proof fn law_interleaved_sample<T>(x: Seq<Seq<T>>, n: nat, t: int, c: int)
    requires
        0 <= t < n,
        0 <= c < x.len(),
    ensures
        interleaved(x, n).len() == n * x.len(),
        t * x.len() + c < n * x.len(),
        interleaved(x, n)[t * x.len() + c] == x[c][t],
{
    lemma_place(t, c, x.len() as int);
    assert(t * x.len() + x.len() <= n * x.len()) by (nonlinear_arith)
        requires
            t + 1 <= n,
    ;
}

/// Channel `c` gets every sample that stands `c` samples behind the start of
/// a frame, and no others.
pub proof fn law_deinterleaved_sample<T>(s: Seq<T>, channels: nat, t: int, c: int)
    requires
        0 <= c < channels,
        0 <= t,
    ensures
        deinterleaved(s, channels).len() == channels,
        t < deinterleaved(s, channels)[c].len() <==> t * channels + c < s.len(),
        t * channels + c < s.len() ==> deinterleaved(s, channels)[c][t] == s[t * channels + c],
{
    lemma_channel_len(s.len(), t, c, channels);
}

/// Laying `k` interleaved samples over the first channels of a block replaces
/// these, each in its place, and nothing else.
pub proof fn law_overlaid_sample<T>(
    x: Seq<Seq<T>>,
    s: Seq<T>,
    k: nat,
    channels: nat,
    c: int,
    t: int,
)
    requires
        0 <= c < x.len(),
        0 <= t < x[c].len(),
    ensures
        overlaid(x, s, k, channels).len() == x.len(),
        overlaid(x, s, k, channels)[c].len() == x[c].len(),
        overlaid(x, s, k, channels)[c][t] == if c < channels && t * channels + c < k {
            s[t * channels + c]
        } else {
            x[c][t]
        },
{
}

/// Growing a block lengthens channels that are too short with `zero`, and
/// changes nothing else.
pub proof fn law_grown_sample<T>(x: Seq<Seq<T>>, n: nat, zero: T, c: int, t: int)
    requires
        0 <= c < x.len(),
    ensures
        grown(x, n, zero).len() == x.len(),
        grown(x, n, zero)[c].len() >= n,
        grown(x, n, zero)[c].len() >= x[c].len(),
        grown(x, n, zero)[c].len() == n || grown(x, n, zero)[c].len() == x[c].len(),
        0 <= t < x[c].len() ==> grown(x, n, zero)[c][t] == x[c][t],
        x[c].len() <= t < n ==> grown(x, n, zero)[c][t] == zero,
{
}

/// Joining two blocks puts in every channel the samples of the second behind
/// those of the first.
pub proof fn law_joined_sample<T>(a: Seq<Seq<T>>, b: Seq<Seq<T>>, c: int, t: int)
    requires
        0 <= c < a.len(),
        a.len() == b.len(),
    ensures
        joined(a, b).len() == a.len(),
        joined(a, b)[c].len() == a[c].len() + b[c].len(),
        0 <= t < a[c].len() ==> joined(a, b)[c][t] == a[c][t],
        0 <= t < b[c].len() ==> joined(a, b)[c][a[c].len() + t] == b[c][t],
{
}

/// The first frames of a block and the rest of it make the block.
pub proof fn law_front_and_rest<T>(a: Seq<Seq<T>>, n: nat, c: int)
    requires
        0 <= c < a.len(),
        n <= a[c].len(),
    ensures
        front(a, n).len() == a.len(),
        without_front(a, n).len() == a.len(),
        front(a, n)[c].len() == n,
        front(a, n)[c] + without_front(a, n)[c] == a[c],
{
    assert(a[c].take(n as int) + a[c].skip(n as int) =~= a[c]);
}

/// Silence has all channels, as many samples in each, and one sample
/// throughout.
pub proof fn law_silent_sample<T>(n_ch: nat, n: nat, zero: T, c: int, t: int)
    requires
        0 <= c < n_ch,
        0 <= t < n,
    ensures
        silent(n_ch, n, zero).len() == n_ch,
        silent(n_ch, n, zero)[c].len() == n,
        silent(n_ch, n, zero)[c][t] == zero,
{
}

/// A block is uniform just where it has all channels and no two differ in
/// length.
pub proof fn law_uniform<T>(a: Seq<Seq<T>>, n_ch: nat)
    ensures
        uniform(a, n_ch) <==> a.len() == n_ch && !exists|c: int, d: int|
            0 <= c < a.len() && 0 <= d < a.len() && (#[trigger] a[c]).len() != (
            #[trigger] a[d]).len(),
{
    if a.len() == n_ch && !uniform(a, n_ch) {
        let c = choose|c: int| 0 <= c < n_ch && (#[trigger] a[c]).len() != a[0].len();
        assert(a[c].len() != a[0].len());
    }
}

/// Every channel has a row of its own in a hop: its samples from frame `from`
/// on, and then `zero`.
pub proof fn law_hop_sample<T>(
    a: Seq<Seq<T>>,
    from: nat,
    k: nat,
    hop: nat,
    zero: T,
    c: int,
    t: int,
)
    requires
        0 <= c < a.len(),
        0 <= t < hop,
    ensures
        padded_hop(a, from, k, hop, zero).len() == a.len() * hop,
        c * hop + t < a.len() * hop,
        padded_hop(a, from, k, hop, zero)[c * hop + t] == if t < k {
            a[c][from + t]
        } else {
            zero
        },
{
    lemma_place(c, t, hop as int);
    assert(c * hop + hop <= a.len() * hop) by (nonlinear_arith)
        requires
            c + 1 <= a.len(),
    ;
}

/// Taking the first frames out of a hop gives every channel the start of its
/// own row.
pub proof fn law_hop_front_sample<T>(frame: Seq<T>, n_ch: nat, k: nat, hop: nat, c: int, t: int)
    requires
        0 <= c < n_ch,
        0 <= t < k,
    ensures
        hop_front(frame, n_ch, k, hop).len() == n_ch,
        hop_front(frame, n_ch, k, hop)[c].len() == k,
        hop_front(frame, n_ch, k, hop)[c][t] == frame[c * hop + t],
{
}

/// Taking the frames back out of a hop gives in every channel what was loaded
/// from that channel.
pub proof fn law_hop_gives_back_what_was_loaded<T>(
    a: Seq<Seq<T>>,
    from: nat,
    k: nat,
    hop: nat,
    zero: T,
    c: int,
)
    requires
        0 <= c < a.len(),
        k <= hop,
        from + k <= a[c].len(),
    ensures
        hop_front(padded_hop(a, from, k, hop, zero), a.len(), k, hop)[c] == a[c].subrange(
            from as int,
            (from + k) as int,
        ),
{
    let frame = padded_hop(a, from, k, hop, zero);
    let got = hop_front(frame, a.len(), k, hop)[c];
    assert forall|t: int| 0 <= t < k implies got[t] == a[c][from + t] by {
        law_hop_sample(a, from, k, hop, zero, c, t);
        law_hop_front_sample(frame, a.len(), k, hop, c, t);
    }
    assert(got =~= a[c].subrange(from as int, (from + k) as int));
}

/// The values of results that all succeeded are those they succeeded with.
pub proof fn law_decoded_value<T, E>(s: Seq<Result<T, E>>, i: int)
    requires
        all_ok(s),
        0 <= i < s.len(),
    ensures
        ok_values(s).len() == s.len(),
        s[i] == Ok::<T, E>(ok_values(s)[i]),
{
    assert(s[i] is Ok);
}

/// Pulling stops at three places only: at the number of samples asked for, at
/// the end of the file, and at a sample that fails, which then counts as read.
/// Before that it passes over none.
pub proof fn law_pulled_samples<T>(
    rem: Seq<Result<T, HoundErrorKind>>,
    left: Seq<Result<T, HoundErrorKind>>,
    want: nat,
    got: Pulled<T>,
    i: int,
)
    requires
        pulled_from(rem, left, want, got),
    ensures
        got.values@.len() <= want,
        got.values@.len() <= rem.len(),
        0 <= i < got.values@.len() ==> rem[i] == Ok::<T, HoundErrorKind>(got.values@[i]),
        got.failure is None ==> {
            &&& got.values@.len() == want || got.values@.len() == rem.len()
            &&& left == rem.skip(got.values@.len() as int)
        },
        got.failure matches Some(e) ==> {
            &&& got.values@.len() < want
            &&& got.values@.len() < rem.len()
            &&& rem[got.values@.len() as int] == Err::<T, HoundErrorKind>(error_kind(e))
            &&& left == rem.skip((got.values@.len() + 1) as int)
        },
{
    let head = first(rem, want);
    lemma_ok_prefix(head);
    if 0 <= i < got.values@.len() {
        assert(head[i] is Ok);
    }
}

/// A read that succeeds has put sample `t * channels + c` of what was left in
/// frame `t` of channel `c`, for all frames it counts. Beyond them the block
/// is what it was, or `zero` where it was grown. It counts as many frames as
/// were asked for, or as are left.
pub proof fn law_frames_read<T, E>(
    rem: Seq<Result<T, E>>,
    left: Seq<Result<T, E>>,
    before: Seq<Seq<T>>,
    after: Seq<Seq<T>>,
    channels: nat,
    m: nat,
    zero: T,
    n: nat,
    c: int,
    t: int,
)
    requires
        before.len() == channels,
        reads_frames(rem, left, before, after, channels, m, zero, Ok(n)),
        0 <= c < channels,
        0 <= t,
    ensures
        n <= m,
        n * channels <= rem.len(),
        n < m ==> rem.len() < n * channels + channels && left.len() == 0,
        n == m ==> left == rem.skip((m * channels) as int),
        after.len() == channels,
        after[c].len() == if before[c].len() < m {
            m
        } else {
            before[c].len()
        },
        t < n ==> rem[t * channels + c] == Ok::<T, E>(after[c][t]),
        n <= t < before[c].len() ==> after[c][t] == before[c][t],
        n <= t && before[c].len() <= t < m ==> after[c][t] == zero,
{
    let head = first(rem, m * channels);
    let w = channels as int;
    lemma_ok_prefix(head);
    lemma_place_of(head.len() as int, w);
    lemma_place(n as int, 0, w);
    lemma_place(m as int, 0, w);
    lemma_place(t, c, w);
    if n < m {
        assert(n * w + w <= m * w) by (nonlinear_arith)
            requires
                n + 1 <= m,
                0 < w,
        ;
    }
    if t < n {
        assert(t * w + w <= n * w) by (nonlinear_arith)
            requires
                t + 1 <= n,
                0 < w,
        ;
        assert(head[t * w + c] is Ok);
    } else {
        assert(n * w <= t * w) by (nonlinear_arith)
            requires
                n <= t,
                0 < w,
        ;
    }
}

/// A read that fails does so with the first sample that does not decode, which
/// then counts as read; the samples before it are in the block, each in its
/// place, and nothing else has changed.
pub proof fn law_frames_before_a_failure<T, E>(
    rem: Seq<Result<T, E>>,
    left: Seq<Result<T, E>>,
    before: Seq<Seq<T>>,
    after: Seq<Seq<T>>,
    channels: nat,
    m: nat,
    zero: T,
    e: E,
    c: int,
    t: int,
) -> (k: int)
    requires
        before.len() == channels,
        reads_frames(rem, left, before, after, channels, m, zero, Err(e)),
        0 <= c < channels,
        0 <= t,
    ensures
        0 <= k < rem.len(),
        k < m * channels,
        rem[k] == Err::<T, E>(e),
        all_ok(rem.take(k)),
        left == rem.skip(k + 1),
        t * channels + c < k ==> rem[t * channels + c] == Ok::<T, E>(after[c][t]),
        k <= t * channels + c && t < before[c].len() ==> after[c][t] == before[c][t],
        k <= t * channels + c && before[c].len() <= t < m ==> after[c][t] == zero,
{
    let head = first(rem, m * channels);
    let k = ok_run(head) as int;
    let w = channels as int;
    lemma_ok_prefix(head);
    lemma_place(t, c, w);
    assert forall|i: int| 0 <= i < k implies (#[trigger] rem.take(k)[i]) is Ok by {
        assert(head[i] is Ok);
    }
    if t * w + c < k {
        assert(head[t * w + c] is Ok);
        if t >= m {
            assert(m * w <= t * w) by (nonlinear_arith)
                requires
                    m <= t,
                    0 < w,
            ;
        }
    }
    k
}

/// Laying pulled samples over a block counts the whole frames among them, up
/// to what was asked for, and reports a failure just where it came earlier.
pub proof fn law_frames_laid<T>(
    pulled: Pulled<T>,
    before: Seq<Seq<T>>,
    after: Seq<Seq<T>>,
    channels: nat,
    m: nat,
    r: Result<usize, WavUtilsError>,
    c: int,
    t: int,
)
    requires
        lays_frames(pulled, before, after, channels, m, r),
        0 < channels <= before.len(),
        0 <= c < before.len(),
        0 <= t < before[c].len(),
    ensures
        r is Err <==> pulled.values@.len() < m * channels && pulled.failure is Some,
        r matches Ok(n) ==> {
            &&& n <= m
            &&& n * channels <= pulled.values@.len()
            &&& n < m ==> pulled.values@.len() < n * channels + channels
            &&& after[c][t] == if c < channels && t < n {
                pulled.values@[t * channels + c]
            } else {
                before[c][t]
            }
        },
        r matches Err(e) ==> {
            &&& e matches WavUtilsError::HoundError(cause) && pulled.failure == Some(cause)
            &&& after[c][t] == if c < channels && t * channels + c < pulled.values@.len() {
                pulled.values@[t * channels + c]
            } else {
                before[c][t]
            }
        },
{
    let w = channels as int;
    let have = pulled.values@.len();
    lemma_place_of(have as int, w);
    if let Ok(n) = r {
        if c < channels {
            lemma_place(t, c, w);
            if t < n {
                assert(t * w + w <= n * w) by (nonlinear_arith)
                    requires
                        t + 1 <= n,
                        0 < w,
                ;
            } else {
                assert(n * w <= t * w) by (nonlinear_arith)
                    requires
                        n <= t,
                        0 < w,
                ;
            }
        }
        if n > m {
            assert(m * w + w <= n * w) by (nonlinear_arith)
                requires
                    m + 1 <= n,
                    0 < w,
            ;
        }
    }
}

/// A grid made row by row holds sample `r * cols + c` in row `r` and column
/// `c`; exchanging rows and columns moves it to row `c` and column `r`.
pub proof fn law_grid_sample(n: nat, cols: nat, samples: Seq<i16>, r: int, c: int)
    requires
        0 <= r < n,
        0 <= c < cols,
    ensures
        ({
            let grid = Grid::row_by_row(n, cols, samples);
            &&& grid.rows.len() == n
            &&& grid.cols == cols
            &&& grid.rows[r].len() == cols
            &&& grid.rows[r][c] == samples[r * cols + c]
            &&& grid.column(c).len() == n
            &&& grid.column(c)[r] == samples[r * cols + c]
            &&& grid.transposed().rows.len() == cols
            &&& grid.transposed().cols == n
            &&& grid.transposed().rows[c].len() == n
            &&& grid.transposed().rows[c][r] == samples[r * cols + c]
        }),
{
}

/// Samples make an array just where every place in it gets one.
pub proof fn law_shape_fits(rows: usize, cols: usize, n: nat)
    ensures
        shape_fits(rows, cols, n) ==> n == rows * cols,
        n > 0 && n == rows * cols ==> shape_fits(rows, cols, n),
        rows <= isize::MAX ==> shape_fits(rows, 0, 0),
        cols <= isize::MAX ==> shape_fits(0, cols, 0),
{
    assert(rows * 0 == 0 && 0 * cols == 0) by (nonlinear_arith);
}

} // verus!
