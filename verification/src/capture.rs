//! Pictures of a sound: its envelope over time and its spectrogram.
//!
//! Which samples and which frequency bins go into which cell of the picture is decided here; the
//! samples and powers are single-precision numbers, held by their bits.

use vstd::prelude::*;

use crate::engine::{nine, nine_of};
use crate::fft::{fft_inplace, repeats, transforms};
use crate::fourier::{fourier_sum, is_butterfly, is_root, law_transform_is_fourier_sum};
use crate::ring::Ring;
use crate::single::{
    greater_of, greatest, law_extremes_are_met, law_extremes_of_parts, least, lower, lower_of, peak,
    trough, LARGEST, SMALLEST, ZERO,
};

verus! {

/// Number of samples that go into one column of a spectrogram.
pub const FFT: usize = 1024;

/// Number of frequency bins that the transform of so many samples has.
pub const BINS: usize = 512;

// ---------- envelope ----------

/// Number of samples in each of `cols` columns when about `wanted` samples are to be shown, at
/// least one.
pub open spec fn step_of(wanted: int, cols: int) -> int {
    if wanted < cols || cols == 0 {
        1
    } else {
        wanted / cols
    }
}

/// Number of samples in each of `cols` columns when about `wanted` samples are to be shown.
pub fn envelope_step(wanted: usize, cols: usize) -> (step: usize)
    ensures
        step == step_of(wanted as int, cols as int),
        step >= 1,
        step * cols <= wanted || step == 1,
{
    if wanted < cols || cols == 0 {
        1
    } else {
        let step = wanted / cols;
        proof {
            let (w, c) = (wanted as int, cols as int);
            vstd::arithmetic::div_mod::lemma_fundamental_div_mod(w, c);
            vstd::arithmetic::div_mod::lemma_div_non_zero(w, c);
            assert(step * c == c * (w / c)) by (nonlinear_arith)
                requires
                    step == w / c,
            ;
            assert(0 <= w % c) by {
                vstd::arithmetic::div_mod::lemma_mod_bound(w, c);
            }
        }
        step
    }
}

/// The samples of column `c`.
pub open spec fn column<T>(samples: Seq<T>, step: int, c: int) -> Seq<T> {
    Seq::new(step as nat, |i: int| samples[c * step + i])
}

/// `out` is the envelope of the samples in `cols` columns of `step` samples: for each column its
/// least and its greatest sample.
pub open spec fn is_envelope(samples: Seq<u32>, step: int, cols: int, out: Seq<u32>) -> bool {
    &&& out.len() == 2 * cols
    &&& forall|c: int|
        #![trigger column(samples, step, c)]
        0 <= c < cols ==> out[2 * c] == least(column(samples, step, c), LARGEST) && out[2 * c + 1]
            == greatest(column(samples, step, c), SMALLEST)
}

/// Reads the envelope of `cols` columns of `step` samples off the samples.
pub fn envelope(samples: &Vec<u32>, step: usize, cols: usize) -> (out: Vec<u32>)
    requires
        step * cols <= samples@.len(),
        2 * cols <= usize::MAX,
    ensures
        is_envelope(samples@, step as int, cols as int, out@),
{
    let mut out: Vec<u32> = Vec::new();
    let mut c: usize = 0;
    let total = samples.len();
    while c < cols
        invariant
            c <= cols,
            total == samples@.len(),
            step * cols <= total,
            is_envelope(samples@, step as int, c as int, out@),
        decreases cols - c,
    {
        proof {
            assert(0 <= c * step && c * step + step <= step * cols) by (nonlinear_arith)
                requires
                    0 <= c < cols,
                    0 <= step,
            ;
        }
        let from = c * step;
        let lo = trough(samples, from, from + step, LARGEST);
        let hi = peak(samples, from, from + step, SMALLEST);
        assert(column(samples@, step as int, c as int) =~= samples@.subrange(
            from as int,
            from + step,
        ));
        out.push(lo);
        out.push(hi);
        c = c + 1;
    }
    out
}

/// `render` can be asked for `n` samples of the sound with the given parameters, and gives so many.
pub open spec fn renders<R: Fn([u32; 9], usize) -> Vec<u32>>(
    render: R,
    params: Seq<u32>,
    n: usize,
) -> bool {
    &&& forall|p: [u32; 9]| p@ == nine_of(params, ZERO) ==> #[trigger] call_requires(render, (p, n))
    &&& forall|p: [u32; 9], samples: Vec<u32>| #[trigger]
        call_ensures(render, (p, n), samples) ==> samples@.len() == n
}

/// `samples` are what `render` gives when asked for `n` samples of the sound with the given
/// parameters. Missing parameters count as zero, and those beyond the ninth do not matter.
pub open spec fn rendered<R: Fn([u32; 9], usize) -> Vec<u32>>(
    render: R,
    params: Seq<u32>,
    n: usize,
    samples: Vec<u32>,
) -> bool {
    exists|p: [u32; 9]|
        p@ == nine_of(params, ZERO) && #[trigger] call_ensures(render, (p, n), samples)
}

/// `out` is an envelope in `cols` columns of about `wanted` samples of the sound with the given
/// parameters.
pub open spec fn envelope_shown<R: Fn([u32; 9], usize) -> Vec<u32>>(
    render: R,
    params: Seq<u32>,
    wanted: int,
    cols: int,
    out: Seq<u32>,
) -> bool {
    let step = step_of(wanted, cols);
    exists|samples: Vec<u32>| #[trigger]
        rendered(render, params, (step * cols) as usize, samples) && is_envelope(
            samples@,
            step,
            cols,
            out,
        )
}

/// Renders about `wanted` samples of the sound with the given parameters and shows their envelope
/// in `cols` columns: for each column its least and its greatest sample.
pub fn capture_envelope<R: Fn([u32; 9], usize) -> Vec<u32>>(
    params: &[u32],
    wanted: usize,
    cols: usize,
    render: &R,
) -> (out: Vec<u32>)
    requires
        2 * cols <= usize::MAX,
        renders(*render, params@, (step_of(wanted as int, cols as int) * cols) as usize),
    ensures
        out@.len() == 2 * cols,
        envelope_shown(*render, params@, wanted as int, cols as int, out@),
{
    let step = envelope_step(wanted, cols);
    let p = nine(params, ZERO);
    proof {
        assert(1 * cols == cols) by (nonlinear_arith);
    }
    let samples = render(p, step * cols);
    assert(rendered(*render, params@, (step * cols) as usize, samples));
    envelope(&samples, step, cols)
}

/// In every column of an envelope, each sample that is a number lies between the two values shown.
pub proof fn law_envelope_encloses(samples: Seq<u32>, step: int, c: int, i: int)
    requires
        step > 0,
        0 <= c,
        c * step + step <= samples.len(),
        0 <= i < step,
    ensures
        !crate::single::lower(samples[c * step + i], least(column(samples, step, c), LARGEST)),
        !crate::single::lower(greatest(column(samples, step, c), SMALLEST), samples[c * step + i]),
{
    let part = column(samples, step, c);
    assert(c * step >= 0) by (nonlinear_arith)
        requires
            c >= 0,
            step > 0,
    ;
    assert(part[i] == samples[c * step + i]);
    crate::single::law_extremes_enclose(part, LARGEST, SMALLEST, i);
}

// ---------- spectrogram ----------

/// Number of samples to render for a spectrogram of `cols` columns over about `wanted` samples: at
/// least so many that each column has samples of its own.
pub open spec fn span_of(wanted: int, cols: int) -> int {
    if wanted < FFT + cols {
        FFT + cols
    } else {
        wanted
    }
}

/// Number of samples to render for a spectrogram.
pub fn spectrogram_span(wanted: usize, cols: usize) -> (n: usize)
    requires
        FFT + cols <= usize::MAX,
    ensures
        n == span_of(wanted as int, cols as int),
{
    if wanted < FFT + cols {
        FFT + cols
    } else {
        wanted
    }
}

/// How far apart the columns of a spectrogram begin, so that the last one ends with the samples.
pub open spec fn hop_of(n: int, cols: int) -> int {
    if cols > 1 {
        (n - FFT) / (cols - 1)
    } else {
        n - FFT
    }
}

/// Every column of a spectrogram lies within the samples, and no two begin at the same one.
pub proof fn law_columns_are_within(n: int, cols: int, c: int)
    requires
        n >= FFT + cols,
        0 <= c < cols,
    ensures
        hop_of(n, cols) >= 1,
        0 <= c * hop_of(n, cols),
        c * hop_of(n, cols) + FFT <= n,
{
    let hop = hop_of(n, cols);
    if cols > 1 {
        vstd::arithmetic::div_mod::lemma_fundamental_div_mod(n - FFT, cols - 1);
        vstd::arithmetic::div_mod::lemma_mod_bound(n - FFT, cols - 1);
        vstd::arithmetic::div_mod::lemma_div_non_zero(n - FFT, cols - 1);
        assert(0 <= c * hop <= (cols - 1) * hop) by (nonlinear_arith)
            requires
                0 <= c <= cols - 1,
                hop >= 0,
        ;
    } else {
        assert(c * hop == 0) by (nonlinear_arith)
            requires
                c == 0,
        ;
    }
}

// ---------- bands ----------

/// The bins of a band that begins at bin `lo` and ends before bin `hi`: at least the bin at which
/// it begins, as far as there are bins.
pub open spec fn band_end(lo: int, hi: int) -> int {
    let end = if hi < lo + 1 {
        lo + 1
    } else {
        hi
    };
    if end > BINS {
        BINS as int
    } else {
        end
    }
}

/// The greatest power in a band; none for a band beyond the last bin.
pub open spec fn band_power(power: Seq<u32>, lo: int, hi: int) -> u32 {
    if lo < band_end(lo, hi) {
        greatest(power.subrange(lo, band_end(lo, hi)), ZERO)
    } else {
        ZERO
    }
}

/// Reads the greatest power in each band off the powers of the bins.
pub fn band_peaks(power: &Vec<u32>, bands: &Vec<(usize, usize)>) -> (out: Vec<u32>)
    requires
        power@.len() == BINS,
        forall|r: int| 0 <= r < bands@.len() ==> (#[trigger] bands@[r]).0 < usize::MAX,
    ensures
        out@.len() == bands@.len(),
        forall|r: int|
            0 <= r < bands@.len() ==> #[trigger] out@[r] == band_power(
                power@,
                bands@[r].0 as int,
                bands@[r].1 as int,
            ),
{
    let mut out: Vec<u32> = Vec::new();
    let mut r: usize = 0;
    while r < bands.len()
        invariant
            power@.len() == BINS,
            r <= bands@.len(),
            out@.len() == r,
            forall|k: int| 0 <= k < bands@.len() ==> (#[trigger] bands@[k]).0 < usize::MAX,
            forall|k: int|
                0 <= k < r ==> #[trigger] out@[k] == band_power(
                    power@,
                    bands@[k].0 as int,
                    bands@[k].1 as int,
                ),
        decreases bands@.len() - r,
    {
        let (lo, hi) = bands[r];
        assert(bands@[r as int].0 < usize::MAX);
        let mut end = if hi < lo + 1 {
            lo + 1
        } else {
            hi
        };
        if end > BINS {
            end = BINS;
        }
        if lo < end {
            out.push(peak(power, lo, end, ZERO));
        } else {
            out.push(ZERO);
        }
        r = r + 1;
    }
    out
}

/// A band that begins within the bins always has one.
pub proof fn law_bands_are_not_empty(lo: int, hi: int)
    requires
        0 <= lo < BINS,
    ensures
        lo < band_end(lo, hi) <= BINS,
{
}

// ---------- the picture ----------

/// How a column of a spectrogram comes about: `window` weights a sample by its place in the column;
/// `butterfly` is that of the transform; `power` gives the
/// power of a bin, and `shade` how a power is shown.
pub struct Optics<W, B, P, S> {
    pub window: W,
    pub butterfly: B,
    pub power: P,
    pub shade: S,
}

/// `cells` shows the given bands of the column that begins at sample `start`: `data` are the
/// weighted samples, `spectrum` is their transform and `powers` are the powers of its lower bins.
pub open spec fn developed<
    C,
    T,
    W: Fn(u32, usize) -> C,
    B: Fn(C, C, usize, usize) -> (C, C),
    P: Fn(C) -> u32,
    S: Fn(u32) -> T,
>(
    o: Optics<W, B, P, S>,
    bands: Seq<(usize, usize)>,
    samples: Seq<u32>,
    start: int,
    data: Seq<C>,
    spectrum: Seq<C>,
    powers: Seq<u32>,
    cells: Seq<T>,
) -> bool {
    &&& data.len() == FFT
    &&& forall|i: int|
        0 <= i < FFT ==> call_ensures(
            o.window,
            (samples[start + i], i as usize),
            #[trigger] data[i],
        )
    &&& transforms(o.butterfly, data, spectrum)
    &&& spectrum.len() == FFT
    &&& powers.len() == BINS
    &&& forall|b: int|
        0 <= b < BINS ==> call_ensures(o.power, (spectrum[b],), #[trigger] powers[b])
    &&& cells.len() == bands.len()
    &&& forall|r: int|
        0 <= r < bands.len() ==> call_ensures(
            o.shade,
            (band_power(powers, bands[r].0 as int, bands[r].1 as int),),
            #[trigger] cells[r],
        )
}

/// `cells` shows the given bands of the column that begins at sample `start`.
pub open spec fn column_of<
    C,
    T,
    W: Fn(u32, usize) -> C,
    B: Fn(C, C, usize, usize) -> (C, C),
    P: Fn(C) -> u32,
    S: Fn(u32) -> T,
>(
    o: Optics<W, B, P, S>,
    bands: Seq<(usize, usize)>,
    samples: Seq<u32>,
    start: int,
    cells: Seq<T>,
) -> bool {
    exists|data: Seq<C>, spectrum: Seq<C>, powers: Seq<u32>|
        developed(o, bands, samples, start, data, spectrum, powers, cells)
}

/// The functions of `o` can be called wherever a spectrogram calls them.
pub open spec fn callable<
    C,
    T,
    W: Fn(u32, usize) -> C,
    B: Fn(C, C, usize, usize) -> (C, C),
    P: Fn(C) -> u32,
    S: Fn(u32) -> T,
>(o: Optics<W, B, P, S>) -> bool {
    &&& forall|sample: u32, i: usize|
        i < FFT ==> #[trigger] call_requires(o.window, (sample, i))
    &&& forall|u: C, s: C, len: usize, k: usize|
        k < len / 2 && len <= FFT ==> #[trigger] call_requires(o.butterfly, (u, s, len, k))
    &&& forall|c: C| #[trigger] call_requires(o.power, (c,))
    &&& forall|p: u32| #[trigger] call_requires(o.shade, (p,))
}

/// Every transform is as long as what it transforms.
proof fn lemma_transform_len<C, B: Fn(C, C, usize, usize) -> (C, C)>(f: B, x: Seq<C>, y: Seq<C>)
    requires
        transforms(f, x, y),
    ensures
        y.len() == x.len(),
{
}

/// Computes the cells of the column that begins at sample `start`, from the top down.
pub fn spectrum_column<
    C: Copy,
    T,
    W: Fn(u32, usize) -> C,
    B: Fn(C, C, usize, usize) -> (C, C),
    P: Fn(C) -> u32,
    S: Fn(u32) -> T,
>(o: &Optics<W, B, P, S>, bands: &Vec<(usize, usize)>, samples: &Vec<u32>, start: usize) -> (cells:
    Vec<T>)
    requires
        start + FFT <= samples@.len(),
        callable::<C, T, W, B, P, S>(*o),
        forall|r: int| 0 <= r < bands@.len() ==> (#[trigger] bands@[r]).0 < usize::MAX,
    ensures
        cells@.len() == bands@.len(),
        column_of::<C, T, W, B, P, S>(*o, bands@, samples@, start as int, cells@),
{
    let total = samples.len();
    let mut data: Vec<C> = Vec::new();
    let mut i: usize = 0;
    while i < FFT
        invariant
            i <= FFT,
            start + FFT <= total,
            total == samples@.len(),
            data@.len() == i,
            callable::<C, T, W, B, P, S>(*o),
            forall|k: int|
                0 <= k < i ==> call_ensures(
                    o.window,
                    (samples@[start + k], k as usize),
                    #[trigger] data@[k],
                ),
        decreases FFT - i,
    {
        let weighted = (o.window)(samples[start + i], i);
        data.push(weighted);
        i = i + 1;
    }
    let ghost windowed = data@;
    proof {
        vstd::arithmetic::power2::lemma2_to64();
        assert(vstd::arithmetic::power2::pow2(10) == FFT);
    }
    fft_inplace(&mut data, &o.butterfly);
    proof {
        lemma_transform_len(o.butterfly, windowed, data@);
    }
    let mut powers: Vec<u32> = Vec::new();
    let mut b: usize = 0;
    while b < BINS
        invariant
            b <= BINS,
            data@.len() == FFT,
            powers@.len() == b,
            callable::<C, T, W, B, P, S>(*o),
            forall|k: int|
                0 <= k < b ==> call_ensures(o.power, (data@[k],), #[trigger] powers@[k]),
        decreases BINS - b,
    {
        let p = (o.power)(data[b]);
        powers.push(p);
        b = b + 1;
    }
    let peaks = band_peaks(&powers, bands);
    let mut cells: Vec<T> = Vec::new();
    let mut r: usize = 0;
    while r < peaks.len()
        invariant
            r <= peaks@.len(),
            peaks@.len() == bands@.len(),
            cells@.len() == r,
            callable::<C, T, W, B, P, S>(*o),
            forall|k: int|
                0 <= k < peaks@.len() ==> #[trigger] peaks@[k] == band_power(
                    powers@,
                    bands@[k].0 as int,
                    bands@[k].1 as int,
                ),
            forall|k: int|
                0 <= k < r ==> call_ensures(
                    o.shade,
                    (band_power(powers@, bands@[k].0 as int, bands@[k].1 as int),),
                    #[trigger] cells@[k],
                ),
        decreases peaks@.len() - r,
    {
        let cell = (o.shade)(peaks[r]);
        cells.push(cell);
        r = r + 1;
    }
    assert(developed(*o, bands@, samples@, start as int, windowed, data@, powers@, cells@));
    cells
}

/// `out`, in rows of `cols` cells, shows `cells` in column `c`.
pub open spec fn shows_column<T>(out: Seq<T>, cols: int, c: int, cells: Seq<T>) -> bool {
    forall|r: int| #![trigger cells[r]] 0 <= r < cells.len() ==> out[r * cols + c] == cells[r]
}

/// Column `c` of `out` shows the given bands of the column of samples that belongs to it.
pub open spec fn column_drawn<
    C,
    T,
    W: Fn(u32, usize) -> C,
    B: Fn(C, C, usize, usize) -> (C, C),
    P: Fn(C) -> u32,
    S: Fn(u32) -> T,
>(
    o: Optics<W, B, P, S>,
    bands: Seq<(usize, usize)>,
    samples: Seq<u32>,
    out: Seq<T>,
    cols: int,
    hop: int,
    c: int,
) -> bool {
    exists|cells: Seq<T>|
        {
            &&& cells.len() == bands.len()
            &&& column_of::<C, T, W, B, P, S>(o, bands, samples, c * hop, cells)
            &&& #[trigger] shows_column(out, cols, c, cells)
        }
}

/// `out` is the spectrogram of the samples in `cols` columns, with one row for each band, row by row
/// from the top.
pub open spec fn is_spectrogram<
    C,
    T,
    W: Fn(u32, usize) -> C,
    B: Fn(C, C, usize, usize) -> (C, C),
    P: Fn(C) -> u32,
    S: Fn(u32) -> T,
>(
    o: Optics<W, B, P, S>,
    bands: Seq<(usize, usize)>,
    samples: Seq<u32>,
    cols: int,
    out: Seq<T>,
) -> bool {
    &&& out.len() == bands.len() * cols
    &&& forall|c: int|
        0 <= c < cols ==> #[trigger] column_drawn::<C, T, W, B, P, S>(
            o,
            bands,
            samples,
            out,
            cols,
            hop_of(samples.len() as int, cols),
            c,
        )
}

/// Computes the spectrogram of the samples in `cols` columns. `blank` fills the picture before it
/// is drawn.
pub fn spectrogram<
    C: Copy,
    T: Copy,
    W: Fn(u32, usize) -> C,
    B: Fn(C, C, usize, usize) -> (C, C),
    P: Fn(C) -> u32,
    S: Fn(u32) -> T,
>(
    o: &Optics<W, B, P, S>,
    bands: &Vec<(usize, usize)>,
    samples: &Vec<u32>,
    cols: usize,
    blank: T,
) -> (out: Vec<T>)
    requires
        samples@.len() >= FFT + cols,
        bands@.len() * cols <= usize::MAX,
        callable::<C, T, W, B, P, S>(*o),
        forall|r: int| 0 <= r < bands@.len() ==> (#[trigger] bands@[r]).0 < usize::MAX,
    ensures
        is_spectrogram::<C, T, W, B, P, S>(*o, bands@, samples@, cols as int, out@),
{
    let n = samples.len();
    let rows = bands.len();
    let hop = if cols > 1 {
        (n - FFT) / (cols - 1)
    } else {
        n - FFT
    };
    let mut out: Vec<T> = vec![blank; rows * cols];
    let mut c: usize = 0;
    while c < cols
        invariant
            n == samples@.len(),
            n >= FFT + cols,
            c <= cols,
            rows == bands@.len(),
            hop == hop_of(n as int, cols as int),
            out@.len() == rows * cols,
            rows * cols <= usize::MAX,
            callable::<C, T, W, B, P, S>(*o),
            forall|r: int| 0 <= r < bands@.len() ==> (#[trigger] bands@[r]).0 < usize::MAX,
            forall|k: int|
                0 <= k < c ==> #[trigger] column_drawn::<C, T, W, B, P, S>(
                    *o,
                    bands@,
                    samples@,
                    out@,
                    cols as int,
                    hop as int,
                    k,
                ),
        decreases cols - c,
    {
        proof {
            law_columns_are_within(n as int, cols as int, c as int);
        }
        let start = c * hop;
        let cells = spectrum_column::<C, T, W, B, P, S>(o, bands, samples, start);
        let ghost before = out@;
        let mut r: usize = 0;
        while r < rows
            invariant
                r <= rows,
                c < cols,
                cells@.len() == rows,
                out@.len() == rows * cols,
                rows * cols <= usize::MAX,
                before.len() == rows * cols,
                forall|q: int|
                    #![trigger cells@[q]]
                    0 <= q < r ==> out@[q * cols + c] == cells@[q],
                forall|i: int|
                    0 <= i < out@.len() && i % (cols as int) != c ==> #[trigger] out@[i] == before[i],
            decreases rows - r,
        {
            proof {
                assert(0 <= r * cols && r * cols + c < rows * cols) by (nonlinear_arith)
                    requires
                        0 <= r < rows,
                        0 <= c < cols,
                ;
                lemma_cell_column(r as int, cols as int, c as int);
            }
            let ghost earlier = out@;
            out.set(r * cols + c, cells[r]);
            proof {
                assert forall|q: int|
                    #![trigger cells@[q]]
                    0 <= q < r + 1 implies out@[q * cols + c] == cells@[q] by {
                    if q < r {
                        assert(0 <= q * cols && q * cols + c < r * cols + c) by (nonlinear_arith)
                            requires
                                0 <= q < r,
                                0 <= c < cols,
                        ;
                        assert(earlier[q * cols + c] == cells@[q]);
                    }
                }
            }
            r = r + 1;
        }
        proof {
            assert(shows_column(out@, cols as int, c as int, cells@));
            assert forall|k: int| 0 <= k < c + 1 implies #[trigger] column_drawn::<
                C,
                T,
                W,
                B,
                P,
                S,
            >(*o, bands@, samples@, out@, cols as int, hop as int, k) by {
                if k < c {
                    assert(column_drawn::<C, T, W, B, P, S>(
                        *o,
                        bands@,
                        samples@,
                        before,
                        cols as int,
                        hop as int,
                        k,
                    ));
                    let old_cells = choose|cells: Seq<T>|
                        {
                            &&& cells.len() == bands@.len()
                            &&& column_of::<C, T, W, B, P, S>(*o, bands@, samples@, k * hop, cells)
                            &&& #[trigger] shows_column(before, cols as int, k, cells)
                        };
                    assert forall|r: int|
                        #![trigger old_cells[r]]
                        0 <= r < old_cells.len() implies out@[r * cols + k] == old_cells[r] by {
                        lemma_cell_column(r, cols as int, k);
                        assert(0 <= r * cols && r * cols + k < rows * cols) by (nonlinear_arith)
                            requires
                                0 <= r < rows,
                                0 <= k < cols,
                        ;
                        assert(before[r * cols + k] == old_cells[r]);
                    }
                    assert(shows_column(out@, cols as int, k, old_cells));
                }
            }
        }
        c = c + 1;
    }
    out
}

/// `out` is a spectrogram in `cols` columns of about `wanted` samples of the sound with the given
/// parameters.
pub open spec fn spectrogram_shown<
    C,
    T,
    W: Fn(u32, usize) -> C,
    B: Fn(C, C, usize, usize) -> (C, C),
    P: Fn(C) -> u32,
    S: Fn(u32) -> T,
    R: Fn([u32; 9], usize) -> Vec<u32>,
>(
    o: Optics<W, B, P, S>,
    bands: Seq<(usize, usize)>,
    render: R,
    params: Seq<u32>,
    wanted: int,
    cols: int,
    out: Seq<T>,
) -> bool {
    exists|samples: Vec<u32>| #[trigger]
        rendered(render, params, span_of(wanted, cols) as usize, samples) && is_spectrogram::<
            C,
            T,
            W,
            B,
            P,
            S,
        >(o, bands, samples@, cols, out)
}

/// Renders about `wanted` samples of the sound with the given parameters and computes their
/// spectrogram in `cols` columns, with one row for each band.
pub fn capture_spectrogram<
    C: Copy,
    T: Copy,
    W: Fn(u32, usize) -> C,
    B: Fn(C, C, usize, usize) -> (C, C),
    P: Fn(C) -> u32,
    S: Fn(u32) -> T,
    R: Fn([u32; 9], usize) -> Vec<u32>,
>(
    params: &[u32],
    wanted: usize,
    cols: usize,
    bands: &Vec<(usize, usize)>,
    o: &Optics<W, B, P, S>,
    blank: T,
    render: &R,
) -> (out: Vec<T>)
    requires
        FFT + cols <= usize::MAX,
        bands@.len() * cols <= usize::MAX,
        callable::<C, T, W, B, P, S>(*o),
        forall|r: int| 0 <= r < bands@.len() ==> (#[trigger] bands@[r]).0 < usize::MAX,
        renders(*render, params@, span_of(wanted as int, cols as int) as usize),
    ensures
        out@.len() == bands@.len() * cols,
        spectrogram_shown::<C, T, W, B, P, S, R>(
            *o,
            bands@,
            *render,
            params@,
            wanted as int,
            cols as int,
            out@,
        ),
{
    let n = spectrogram_span(wanted, cols);
    let p = nine(params, ZERO);
    let samples = render(p, n);
    assert(rendered(*render, params@, n, samples));
    spectrogram::<C, T, W, B, P, S>(o, bands, &samples, cols, blank)
}

/// Only the first nine parameters matter, and missing ones count as zero: the pictures of a sound
/// are those of the sound with exactly nine parameters.
pub proof fn law_pictures_need_nine_parameters<
    C,
    T,
    W: Fn(u32, usize) -> C,
    B: Fn(C, C, usize, usize) -> (C, C),
    P: Fn(C) -> u32,
    S: Fn(u32) -> T,
    R: Fn([u32; 9], usize) -> Vec<u32>,
>(
    o: Optics<W, B, P, S>,
    bands: Seq<(usize, usize)>,
    render: R,
    params: Seq<u32>,
    wanted: int,
    cols: int,
    picture: Seq<T>,
    curve: Seq<u32>,
)
    ensures
        spectrogram_shown::<C, T, W, B, P, S, R>(o, bands, render, params, wanted, cols, picture)
            == spectrogram_shown::<C, T, W, B, P, S, R>(
            o,
            bands,
            render,
            nine_of(params, ZERO),
            wanted,
            cols,
            picture,
        ),
        envelope_shown(render, params, wanted, cols, curve) == envelope_shown(
            render,
            nine_of(params, ZERO),
            wanted,
            cols,
            curve,
        ),
{
    crate::engine::law_padding_is_stable(params, ZERO);
    let filled = nine_of(params, ZERO);
    assert forall|n: usize, samples: Vec<u32>|
        #![trigger rendered(render, params, n, samples)]
        #![trigger rendered(render, filled, n, samples)]
        rendered(render, params, n, samples) == rendered(render, filled, n, samples) by {}
}

/// A sound that is rendered the same every time has one envelope only.
pub proof fn law_envelope_is_repeatable<R: Fn([u32; 9], usize) -> Vec<u32>>(
    render: R,
    params: Seq<u32>,
    wanted: int,
    cols: int,
    first: Seq<u32>,
    second: Seq<u32>,
)
    requires
        cols >= 0,
        renders_alike(render),
        envelope_shown(render, params, wanted, cols, first),
        envelope_shown(render, params, wanted, cols, second),
    ensures
        first == second,
{
    let step = step_of(wanted, cols);
    let n = (step * cols) as usize;
    let s = choose|s: Vec<u32>| #[trigger]
        rendered(render, params, n, s) && is_envelope(s@, step, cols, first);
    let t = choose|t: Vec<u32>| #[trigger]
        rendered(render, params, n, t) && is_envelope(t@, step, cols, second);
    lemma_rendered_alike(render, params, n, s, t);
    assert forall|i: int| 0 <= i < first.len() implies first[i] == second[i] by {
        let c = i / 2;
        let part = column(s@, step, c);
        assert(part == column(t@, step, c));
        assert(i == 2 * c || i == 2 * c + 1);
    }
    assert(first =~= second);
}

/// An envelope of half as many columns shows, in each column, the lower of the two least samples and
/// the greater of the two greatest ones of the finer envelope.
pub proof fn law_coarse_envelope_joins_columns<R: Fn([u32; 9], usize) -> Vec<u32>>(
    render: R,
    params: Seq<u32>,
    wanted: int,
    cols: int,
    coarse: Seq<u32>,
    fine: Seq<u32>,
    j: int,
)
    requires
        cols >= 1,
        wanted >= 2 * cols,
        wanted % (2 * cols) == 0,
        renders_alike(render),
        envelope_shown(render, params, wanted, cols, coarse),
        envelope_shown(render, params, wanted, 2 * cols, fine),
        0 <= j < cols,
    ensures
        coarse[2 * j] == lower_of(fine[4 * j], fine[4 * j + 2]),
        coarse[2 * j + 1] == greater_of(fine[4 * j + 1], fine[4 * j + 3]),
{
    let (step, half) = (step_of(wanted, cols), step_of(wanted, 2 * cols));
    vstd::arithmetic::div_mod::lemma_fundamental_div_mod(wanted, 2 * cols);
    assert(wanted == (2 * half) * cols && wanted == half * (2 * cols)) by (nonlinear_arith)
        requires
            wanted == (2 * cols) * half,
    ;
    vstd::arithmetic::div_mod::lemma_div_multiples_vanish(2 * half, cols);
    assert(cols * (2 * half) == (2 * half) * cols) by (nonlinear_arith);
    assert(step == 2 * half);
    assert(half >= 0) by {
        vstd::arithmetic::div_mod::lemma_div_pos_is_pos(wanted, 2 * cols);
    }
    let n = wanted as usize;
    let s = choose|s: Vec<u32>| #[trigger]
        rendered(render, params, n, s) && is_envelope(s@, step, cols, coarse);
    let t = choose|t: Vec<u32>| #[trigger]
        rendered(render, params, n, t) && is_envelope(t@, half, 2 * cols, fine);
    lemma_rendered_alike(render, params, n, s, t);
    let whole = column(s@, step, j);
    let (a, b) = (column(t@, half, 2 * j), column(t@, half, 2 * j + 1));
    assert(j * (2 * half) == (2 * j) * half && (2 * j + 1) * half == (2 * j) * half + half)
        by (nonlinear_arith);
    assert(whole =~= a + b);
    law_extremes_of_parts(a, b, LARGEST, SMALLEST);
    assert(2 * (2 * j) == 4 * j && 2 * (2 * j + 1) == 4 * j + 2);
}

/// `render` gives the same samples whenever it is asked for the same ones.
pub open spec fn renders_alike<R: Fn([u32; 9], usize) -> Vec<u32>>(render: R) -> bool {
    forall|p: [u32; 9], q: [u32; 9], n: usize, s: Vec<u32>, t: Vec<u32>| #[trigger]
        call_ensures(render, (p, n), s) && #[trigger] call_ensures(render, (q, n), t) && p@ == q@
            ==> s@ == t@
}

/// All functions of `o` give the same whenever they are called with the same.
pub open spec fn develops_alike<
    C,
    T,
    W: Fn(u32, usize) -> C,
    B: Fn(C, C, usize, usize) -> (C, C),
    P: Fn(C) -> u32,
    S: Fn(u32) -> T,
>(o: Optics<W, B, P, S>) -> bool {
    &&& forall|s: u32, i: usize, a: C, b: C| #[trigger]
        call_ensures(o.window, (s, i), a) && #[trigger] call_ensures(o.window, (s, i), b) ==> a == b
    &&& repeats(o.butterfly)
    &&& forall|c: C, a: u32, b: u32| #[trigger]
        call_ensures(o.power, (c,), a) && #[trigger] call_ensures(o.power, (c,), b) ==> a == b
    &&& forall|p: u32, a: T, b: T| #[trigger]
        call_ensures(o.shade, (p,), a) && #[trigger] call_ensures(o.shade, (p,), b) ==> a == b
}

/// A column of samples has one column of cells only.
proof fn lemma_column_is_unique<
    C,
    T,
    W: Fn(u32, usize) -> C,
    B: Fn(C, C, usize, usize) -> (C, C),
    P: Fn(C) -> u32,
    S: Fn(u32) -> T,
>(
    o: Optics<W, B, P, S>,
    bands: Seq<(usize, usize)>,
    samples: Seq<u32>,
    start: int,
    first: Seq<T>,
    second: Seq<T>,
)
    requires
        develops_alike::<C, T, W, B, P, S>(o),
        column_of::<C, T, W, B, P, S>(o, bands, samples, start, first),
        column_of::<C, T, W, B, P, S>(o, bands, samples, start, second),
    ensures
        first == second,
{
    let (d1, s1, p1) = choose|data: Seq<C>, spectrum: Seq<C>, powers: Seq<u32>|
        developed(o, bands, samples, start, data, spectrum, powers, first);
    let (d2, s2, p2) = choose|data: Seq<C>, spectrum: Seq<C>, powers: Seq<u32>|
        developed(o, bands, samples, start, data, spectrum, powers, second);
    assert forall|i: int| 0 <= i < FFT implies d1[i] == d2[i] by {
        assert(call_ensures(o.window, (samples[start + i], i as usize), d1[i]));
        assert(call_ensures(o.window, (samples[start + i], i as usize), d2[i]));
    }
    assert(d1 =~= d2);
    vstd::arithmetic::power2::lemma2_to64();
    assert(vstd::arithmetic::power2::pow2(10) == FFT);
    crate::fft::law_transform_is_unique(o.butterfly, d1, s1, s2);
    assert forall|b: int| 0 <= b < BINS implies p1[b] == p2[b] by {
        assert(call_ensures(o.power, (s1[b],), p1[b]));
        assert(call_ensures(o.power, (s1[b],), p2[b]));
    }
    assert(p1 =~= p2);
    assert forall|r: int| 0 <= r < bands.len() implies first[r] == second[r] by {
        let p = band_power(p1, bands[r].0 as int, bands[r].1 as int);
        assert(call_ensures(o.shade, (p,), first[r]));
        assert(call_ensures(o.shade, (p,), second[r]));
    }
    assert(first =~= second);
}

/// A sound that is rendered the same every time, and shown the same every time, has one spectrogram
/// only.
pub proof fn law_spectrogram_is_repeatable<
    C,
    T,
    W: Fn(u32, usize) -> C,
    B: Fn(C, C, usize, usize) -> (C, C),
    P: Fn(C) -> u32,
    S: Fn(u32) -> T,
    R: Fn([u32; 9], usize) -> Vec<u32>,
>(
    o: Optics<W, B, P, S>,
    bands: Seq<(usize, usize)>,
    render: R,
    params: Seq<u32>,
    wanted: int,
    cols: int,
    first: Seq<T>,
    second: Seq<T>,
)
    requires
        cols >= 0,
        renders_alike(render),
        develops_alike::<C, T, W, B, P, S>(o),
        spectrogram_shown::<C, T, W, B, P, S, R>(o, bands, render, params, wanted, cols, first),
        spectrogram_shown::<C, T, W, B, P, S, R>(o, bands, render, params, wanted, cols, second),
    ensures
        first == second,
{
    let n = span_of(wanted, cols) as usize;
    let s = choose|s: Vec<u32>| #[trigger]
        rendered(render, params, n, s) && is_spectrogram::<C, T, W, B, P, S>(
            o,
            bands,
            s@,
            cols,
            first,
        );
    let t = choose|t: Vec<u32>| #[trigger]
        rendered(render, params, n, t) && is_spectrogram::<C, T, W, B, P, S>(
            o,
            bands,
            t@,
            cols,
            second,
        );
    lemma_rendered_alike(render, params, n, s, t);
    let hop = hop_of(s@.len() as int, cols);
    assert forall|i: int| 0 <= i < first.len() implies first[i] == second[i] by {
        assert(cols > 0) by {
            assert(bands.len() * cols == 0 || cols != 0) by (nonlinear_arith);
        }
        let (r, c) = (i / cols, i % cols);
        vstd::arithmetic::div_mod::lemma_fundamental_div_mod(i, cols);
        vstd::arithmetic::div_mod::lemma_mod_bound(i, cols);
        assert(i == r * cols + c) by (nonlinear_arith)
            requires
                i == cols * r + c,
        ;
        assert(0 <= r < bands.len()) by (nonlinear_arith)
            requires
                i == r * cols + c,
                0 <= i < bands.len() * cols,
                0 <= c < cols,
        ;
        assert(column_drawn::<C, T, W, B, P, S>(o, bands, s@, first, cols, hop, c));
        assert(column_drawn::<C, T, W, B, P, S>(o, bands, s@, second, cols, hop, c));
        let a = choose|cells: Seq<T>|
            {
                &&& cells.len() == bands.len()
                &&& column_of::<C, T, W, B, P, S>(o, bands, s@, c * hop, cells)
                &&& #[trigger] shows_column(first, cols, c, cells)
            };
        let b = choose|cells: Seq<T>|
            {
                &&& cells.len() == bands.len()
                &&& column_of::<C, T, W, B, P, S>(o, bands, s@, c * hop, cells)
                &&& #[trigger] shows_column(second, cols, c, cells)
            };
        lemma_column_is_unique::<C, T, W, B, P, S>(o, bands, s@, c * hop, a, b);
        assert(first[r * cols + c] == a[r]);
        assert(second[r * cols + c] == b[r]);
    }
    assert(first =~= second);
}

proof fn lemma_rendered_alike<R: Fn([u32; 9], usize) -> Vec<u32>>(
    render: R,
    params: Seq<u32>,
    n: usize,
    s: Vec<u32>,
    t: Vec<u32>,
)
    requires
        renders_alike(render),
        rendered(render, params, n, s),
        rendered(render, params, n, t),
    ensures
        s@ == t@,
{
    let p = choose|p: [u32; 9]|
        p@ == nine_of(params, ZERO) && #[trigger] call_ensures(render, (p, n), s);
    let q = choose|q: [u32; 9]|
        q@ == nine_of(params, ZERO) && #[trigger] call_ensures(render, (q, n), t);
    assert(call_ensures(render, (p, n), s) && call_ensures(render, (q, n), t));
}

/// The column of a cell.
proof fn lemma_cell_column(r: int, cols: int, c: int)
    requires
        0 <= c < cols,
    ensures
        (r * cols + c) % cols == c,
{
    vstd::arithmetic::div_mod::lemma_mod_multiples_vanish(r, c, cols);
    assert(cols * r + c == r * cols + c) by (nonlinear_arith);
    vstd::arithmetic::div_mod::lemma_small_mod(c as nat, cols as nat);
}

// ---------- what the pictures show ----------

/// `p` is what a band from bin `lo` up to bin `hi` shows of the powers of all bins: no bin of the band
/// has more, and it is the power of a bin of the band, or none.
pub open spec fn is_band_peak(p: u32, powers: Seq<u32>, lo: int, hi: int) -> bool {
    &&& forall|b: int|
        lo <= b && (b < hi || b == lo) && b < powers.len() ==> !lower(p, #[trigger] powers[b])
    &&& p == ZERO || exists|b: int|
        lo <= b && (b < hi || b == lo) && b < powers.len() && #[trigger] powers[b] == p
}

/// The value of a band is not lower than the power of any of its bins, and it is that of one of them
/// or zero.
pub proof fn law_band_shows_its_peak(powers: Seq<u32>, lo: int, hi: int)
    requires
        powers.len() == BINS,
        0 <= lo,
    ensures
        is_band_peak(band_power(powers, lo, hi), powers, lo, hi),
{
    let end = band_end(lo, hi);
    let p = band_power(powers, lo, hi);
    if lo < end {
        let part = powers.subrange(lo, end);
        law_extremes_are_met(part, ZERO);
        if part.contains(p) {
            let i = choose|i: int| 0 <= i < part.len() && part[i] == p;
            assert(powers[lo + i] == p);
        }
    }
    assert forall|b: int| lo <= b && (b < hi || b == lo) && b < powers.len() implies !lower(
        p,
        #[trigger] powers[b],
    ) by {
        assert(lo < end && b < end);
        let part = powers.subrange(lo, end);
        crate::single::law_extremes_enclose(part, ZERO, ZERO, b - lo);
        assert(part[b - lo] == powers[b]);
    }
}

/// Each column of an envelope shows the extremes of its own samples: none of them lies beyond the two
/// values, and both are among them where there are any within the range of finite numbers.
pub proof fn law_envelope_shows_extremes(
    samples: Seq<u32>,
    step: int,
    cols: int,
    out: Seq<u32>,
    c: int,
    i: int,
)
    requires
        step > 0,
        is_envelope(samples, step, cols, out),
        0 <= c < cols,
        c * step <= i < c * step + step,
    ensures
        out.len() == 2 * cols,
        !lower(samples[i], out[2 * c]),
        !lower(out[2 * c + 1], samples[i]),
        out[2 * c] == LARGEST || exists|k: int|
            c * step <= k < c * step + step && #[trigger] samples[k] == out[2 * c],
        out[2 * c + 1] == SMALLEST || exists|k: int|
            c * step <= k < c * step + step && #[trigger] samples[k] == out[2 * c + 1],
{
    let part = column(samples, step, c);
    crate::single::law_extremes_enclose(part, LARGEST, SMALLEST, i - c * step);
    assert(part[i - c * step] == samples[i]);
    law_extremes_are_met(part, LARGEST);
    law_extremes_are_met(part, SMALLEST);
    if part.contains(out[2 * c]) {
        let k = choose|k: int| 0 <= k < part.len() && part[k] == out[2 * c];
        assert(samples[c * step + k] == out[2 * c]);
    }
    if part.contains(out[2 * c + 1]) {
        let k = choose|k: int| 0 <= k < part.len() && part[k] == out[2 * c + 1];
        assert(samples[c * step + k] == out[2 * c + 1]);
    }
}

/// The columns of an envelope take as many samples as there are, but for a rest too small for one more
/// in each column, and at least one each.
pub proof fn law_step_uses_the_samples(wanted: int, cols: int)
    requires
        cols > 0,
        wanted >= 0,
    ensures
        step_of(wanted, cols) >= 1,
        wanted >= cols ==> step_of(wanted, cols) * cols <= wanted < (step_of(wanted, cols) + 1) * cols,
        wanted < cols ==> step_of(wanted, cols) == 1,
{
    if wanted >= cols {
        let q = wanted / cols;
        vstd::arithmetic::div_mod::lemma_fundamental_div_mod(wanted, cols);
        vstd::arithmetic::div_mod::lemma_mod_bound(wanted, cols);
        vstd::arithmetic::div_mod::lemma_div_non_zero(wanted, cols);
        assert(q * cols == cols * q && (q + 1) * cols == cols * q + cols) by (nonlinear_arith);
    }
}

/// A spectrogram takes the samples that are wanted, or as many as its columns need.
pub proof fn law_span_is_enough(wanted: int, cols: int)
    ensures
        span_of(wanted, cols) >= wanted,
        span_of(wanted, cols) >= 1024 + cols,
        span_of(wanted, cols) == wanted || span_of(wanted, cols) == 1024 + cols,
{
}

/// The columns of a spectrogram begin with the first sample, and the last one ends so near to the end
/// that all columns could not begin one sample further apart.
pub proof fn law_columns_reach_the_end(n: int, cols: int)
    requires
        cols >= 2,
        n >= 1024 + cols,
    ensures
        (cols - 1) * hop_of(n, cols) + 1024 <= n,
        (cols - 1) * (hop_of(n, cols) + 1) + 1024 > n,
{
    let h = hop_of(n, cols);
    vstd::arithmetic::div_mod::lemma_fundamental_div_mod(n - FFT, cols - 1);
    vstd::arithmetic::div_mod::lemma_mod_bound(n - FFT, cols - 1);
    assert((cols - 1) * (h + 1) == (cols - 1) * h + (cols - 1)) by (nonlinear_arith);
}

/// The samples of column `c` of a spectrogram, weighted by their places in it.
pub open spec fn weighted<C>(
    win: spec_fn(u32, int) -> C,
    samples: Seq<u32>,
    cols: int,
    c: int,
) -> Seq<C> {
    Seq::new(1024, |i: int| win(samples[c * hop_of(samples.len() as int, cols) + i], i))
}

/// Every cell of a spectrogram shows the greatest power in its band among the Fourier sums of the
/// weighted samples of its column.
pub proof fn law_spectrogram_shows_fourier_powers<
    C,
    T,
    W: Fn(u32, usize) -> C,
    B: Fn(C, C, usize, usize) -> (C, C),
    P: Fn(C) -> u32,
    S: Fn(u32) -> T,
>(
    o: Optics<W, B, P, S>,
    bands: Seq<(usize, usize)>,
    samples: Seq<u32>,
    cols: int,
    out: Seq<T>,
    ring: Ring<C>,
    w: C,
    win: spec_fn(u32, int) -> C,
    pw: spec_fn(C) -> u32,
    sh: spec_fn(u32) -> T,
    r: int,
    c: int,
)
    requires
        is_spectrogram::<C, T, W, B, P, S>(o, bands, samples, cols, out),
        ring.lawful(),
        is_root(ring, w, 1024),
        is_butterfly(ring, w, 1024, o.butterfly),
        forall|s: u32, i: usize, d: C| #[trigger]
            call_ensures(o.window, (s, i), d) ==> d == win(s, i as int),
        forall|d: C, p: u32| #[trigger] call_ensures(o.power, (d,), p) ==> p == pw(d),
        forall|p: u32, t: T| #[trigger] call_ensures(o.shade, (p,), t) ==> t == sh(p),
        0 <= r < bands.len(),
        0 <= c < cols,
    ensures
        ({
            let x = weighted(win, samples, cols, c);
            let powers = Seq::new(512, |b: int| pw(fourier_sum(ring, w, x, b as nat)));
            exists|p: u32| #[trigger]
                is_band_peak(p, powers, bands[r].0 as int, bands[r].1 as int) && out[r * cols + c]
                    == sh(p)
        }),
{
    let hop = hop_of(samples.len() as int, cols);
    let x = weighted(win, samples, cols, c);
    let powers = Seq::new(512, |b: int| pw(fourier_sum(ring, w, x, b as nat)));
    assert(column_drawn::<C, T, W, B, P, S>(o, bands, samples, out, cols, hop, c));
    let cells = choose|cells: Seq<T>|
        {
            &&& cells.len() == bands.len()
            &&& column_of::<C, T, W, B, P, S>(o, bands, samples, c * hop, cells)
            &&& #[trigger] shows_column(out, cols, c, cells)
        };
    let start = c * hop;
    let (d, sp, ps) = choose|data: Seq<C>, spectrum: Seq<C>, powers: Seq<u32>|
        developed(o, bands, samples, start, data, spectrum, powers, cells);
    assert(d =~= x) by {
        assert forall|i: int| 0 <= i < 1024 implies d[i] == x[i] by {
            assert(call_ensures(o.window, (samples[c * hop + i], i as usize), d[i]));
        }
    }
    vstd::arithmetic::power2::lemma2_to64();
    assert(vstd::arithmetic::power2::pow2(10) == 1024);
    assert(ps =~= powers) by {
        assert forall|b: int| 0 <= b < 512 implies ps[b] == powers[b] by {
            assert(call_ensures(o.power, (sp[b],), ps[b]));
            law_transform_is_fourier_sum(ring, w, o.butterfly, x, sp, b as nat);
        }
    }
    let (lo, hi) = (bands[r].0 as int, bands[r].1 as int);
    law_band_shows_its_peak(ps, lo, hi);
    assert(call_ensures(o.shade, (band_power(ps, lo, hi),), cells[r]));
    assert(out[r * cols + c] == cells[r]);
}

/// `p` are the given parameters, with zero in place of those that are missing.
pub open spec fn are_parameters(p: [u32; 9], params: Seq<u32>) -> bool {
    forall|i: int|
        0 <= i < 9 ==> #[trigger] p@[i] == if i < params.len() {
            params[i]
        } else {
            ZERO
        }
}

/// An envelope is that of samples which were rendered with the parameters given, each in its place,
/// and as many samples were asked for as the columns take.
pub proof fn law_envelope_is_of_the_sound<R: Fn([u32; 9], usize) -> Vec<u32>>(
    render: R,
    params: Seq<u32>,
    wanted: int,
    cols: int,
    out: Seq<u32>,
)
    requires
        envelope_shown(render, params, wanted, cols, out),
    ensures
        exists|p: [u32; 9], samples: Vec<u32>| #[trigger]
            call_ensures(render, (p, (step_of(wanted, cols) * cols) as usize), samples)
                && are_parameters(p, params) && is_envelope(
                samples@,
                step_of(wanted, cols),
                cols,
                out,
            ),
{
    let step = step_of(wanted, cols);
    let n = (step * cols) as usize;
    let samples = choose|samples: Vec<u32>| #[trigger]
        rendered(render, params, n, samples) && is_envelope(samples@, step, cols, out);
    let p = choose|p: [u32; 9]|
        p@ == nine_of(params, ZERO) && #[trigger] call_ensures(render, (p, n), samples);
    assert(call_ensures(render, (p, n), samples) && are_parameters(p, params));
}

/// A spectrogram is that of samples which were rendered with the parameters given, each in its place,
/// and as many samples were asked for as it spans.
pub proof fn law_spectrogram_is_of_the_sound<
    C,
    T,
    W: Fn(u32, usize) -> C,
    B: Fn(C, C, usize, usize) -> (C, C),
    P: Fn(C) -> u32,
    S: Fn(u32) -> T,
    R: Fn([u32; 9], usize) -> Vec<u32>,
>(
    o: Optics<W, B, P, S>,
    bands: Seq<(usize, usize)>,
    render: R,
    params: Seq<u32>,
    wanted: int,
    cols: int,
    out: Seq<T>,
)
    requires
        spectrogram_shown::<C, T, W, B, P, S, R>(o, bands, render, params, wanted, cols, out),
    ensures
        exists|p: [u32; 9], samples: Vec<u32>| #[trigger]
            call_ensures(render, (p, span_of(wanted, cols) as usize), samples) && are_parameters(
                p,
                params,
            ) && is_spectrogram::<C, T, W, B, P, S>(o, bands, samples@, cols, out),
{
    let n = span_of(wanted, cols) as usize;
    let samples = choose|samples: Vec<u32>| #[trigger]
        rendered(render, params, n, samples) && is_spectrogram::<C, T, W, B, P, S>(
            o,
            bands,
            samples@,
            cols,
            out,
        );
    let p = choose|p: [u32; 9]|
        p@ == nine_of(params, ZERO) && #[trigger] call_ensures(render, (p, n), samples);
    assert(call_ensures(render, (p, n), samples) && are_parameters(p, params));
}

} // verus!
