//! The frame store of a multi-frame image: a fixed array of slots that are
//! filled at most once, a flag that lets one background preload run at a
//! time, and the arithmetic that shares frames out among preload workers.
use vstd::prelude::*;
use vstd::string::StringExecFns;

verus! {

/// How the samples of an image are laid out: one grey value per pixel, or
/// interleaved colour channels.
#[derive(Debug, Clone, Copy, PartialEq, Eq, Structural)]
pub enum ImageColorMode {
    Monochrome,
    Rgb,
}

/// The frame count that the NumberOfFrames value gives: the value when
/// positive, one when absent, and for zero or less an error naming it.
pub fn frame_count_from(number_of_frames: Option<i32>) -> (r: Result<usize, String>)
    ensures
        match number_of_frames {
            Some(v) => if v > 0 {
                r == Ok::<usize, String>(v as usize)
            } else {
                r matches Err(m) && m@ == "Invalid NumberOfFrames="@ + crate::text::signed_decimal(
                    v as int,
                ) + " (must be >= 1)"@
            },
            None => r == Ok::<usize, String>(1),
        },
{
    match number_of_frames {
        Some(v) => if v > 0 {
            Ok(v as usize)
        } else {
            let mut m = String::from_str("Invalid NumberOfFrames=");
            m.append(crate::text::signed_decimal_text(v).as_str());
            m.append(" (must be >= 1)");
            Err(m)
        },
        None => Ok(1),
    }
}

/// Which frame layout the first decoded frame has: one sample per pixel
/// is monochrome, three or more are colour; either needs 8- or 16-bit
/// samples. Samples per pixel are judged first.
pub fn sample_layout(samples_per_pixel: u16, bits_allocated: u16) -> (r: Result<ImageColorMode, String>)
    ensures
        samples_per_pixel != 1 && samples_per_pixel < 3 ==> (r matches Err(m) && m@
            == "Unsupported SamplesPerPixel="@ + crate::text::decimal(samples_per_pixel as nat)
            + " (currently supports 1 for monochrome and >=3 for color)"@),
        (samples_per_pixel == 1 || samples_per_pixel >= 3) && !(bits_allocated == 8
            || bits_allocated == 16) ==> (r matches Err(m) && m@ == "BitsAllocated="@
            + crate::text::decimal(bits_allocated as nat) + " is not supported (only 8/16)"@),
        (samples_per_pixel == 1 || samples_per_pixel >= 3) && (bits_allocated == 8
            || bits_allocated == 16) ==> r == Ok::<ImageColorMode, String>(
            if samples_per_pixel == 1 {
                ImageColorMode::Monochrome
            } else {
                ImageColorMode::Rgb
            },
        ),
{
    let mode = match color_mode_for(samples_per_pixel) {
        Some(m) => m,
        None => {
            let mut m = String::from_str("Unsupported SamplesPerPixel=");
            m.append(crate::text::decimal_text(samples_per_pixel as u64).as_str());
            m.append(" (currently supports 1 for monochrome and >=3 for color)");
            return Err(m);
        },
    };
    if !supported_bits_allocated(bits_allocated) {
        let mut m = String::from_str("BitsAllocated=");
        m.append(crate::text::decimal_text(bits_allocated as u64).as_str());
        m.append(" is not supported (only 8/16)");
        return Err(m);
    }
    Ok(mode)
}

/// The decoder's frame size agrees with the Columns and Rows tags.
pub fn decoded_dimensions_match(width: usize, height: usize, decoded_columns: u32, decoded_rows: u32) -> (r: bool)
    ensures
        r == (width == decoded_columns as int && height == decoded_rows as int),
{
    decoded_columns as usize == width && decoded_rows as usize == height
}

/// The colour mode for a samples-per-pixel count: one sample is
/// monochrome, three or more are colour, anything else is unsupported.
pub fn color_mode_for(samples_per_pixel: u16) -> (r: Option<ImageColorMode>)
    ensures
        samples_per_pixel == 1 ==> r == Some(ImageColorMode::Monochrome),
        samples_per_pixel >= 3 ==> r == Some(ImageColorMode::Rgb),
        samples_per_pixel != 1 && samples_per_pixel < 3 ==> r is None,
{
    if samples_per_pixel == 1 {
        Some(ImageColorMode::Monochrome)
    } else if samples_per_pixel >= 3 {
        Some(ImageColorMode::Rgb)
    } else {
        None
    }
}

/// Only 8- and 16-bit samples are decoded.
pub fn supported_bits_allocated(bits_allocated: u16) -> (r: bool)
    ensures
        r == (bits_allocated == 8 || bits_allocated == 16),
{
    bits_allocated == 8 || bits_allocated == 16
}

/// The number of samples in one frame, when it fits in `usize`.
pub fn frame_sample_count(width: usize, height: usize, samples_per_pixel: u16) -> (r: Option<usize>)
    ensures
        match r {
            Some(n) => n as int == width * height * samples_per_pixel,
            None => width * height * samples_per_pixel > usize::MAX,
        },
{
    let spp = samples_per_pixel as usize;
    if width == 0 || height == 0 || spp == 0 {
        assert(width * height * spp == 0) by (nonlinear_arith)
            requires width == 0 || height == 0 || spp == 0;
        return Some(0);
    }
    if width > usize::MAX / height {
        assert(width * height > usize::MAX) by (nonlinear_arith)
            requires width > usize::MAX / height, height > 0;
        assert(width * height * spp >= width * height) by (nonlinear_arith)
            requires spp >= 1, width * height >= 0;
        return None;
    }
    assert(width * height <= usize::MAX) by (nonlinear_arith)
        requires width <= usize::MAX / height, height > 0;
    let wh = width * height;
    if wh > usize::MAX / spp {
        assert(wh * spp > usize::MAX) by (nonlinear_arith)
            requires wh > usize::MAX / spp, spp > 0;
        return None;
    }
    assert(wh * spp <= usize::MAX) by (nonlinear_arith)
        requires wh <= usize::MAX / spp, spp > 0;
    Some(wh * spp)
}

/// One write to the slots: it fills slot `i` when that slot is empty.
pub open spec fn store_step<T>(frames: Seq<Option<Seq<T>>>, i: int, f: Seq<T>) -> Seq<Option<Seq<T>>> {
    if 0 <= i < frames.len() && frames[i] is None {
        frames.update(i, Some(f))
    } else {
        frames
    }
}

/// A sequence of writes applied in order.
pub open spec fn apply_writes<T>(frames: Seq<Option<Seq<T>>>, writes: Seq<(int, Seq<T>)>) -> Seq<Option<Seq<T>>>
    decreases writes.len(),
{
    if writes.len() == 0 {
        frames
    } else {
        store_step(apply_writes(frames, writes.drop_last()), writes.last().0, writes.last().1)
    }
}

/// Whatever order preload workers write in, a slot holds either nothing or
/// exactly the frame that decoding it gives, and every slot written to is
/// filled: writers that decode the same frame never leave diverging data.
pub proof fn lemma_fills_match_decoding<T>(
    frames: Seq<Option<Seq<T>>>,
    decoded: Seq<Seq<T>>,
    writes: Seq<(int, Seq<T>)>,
)
    requires
        frames.len() == decoded.len(),
        forall|i: int| 0 <= i < frames.len() ==> #[trigger] frames[i] is None || frames[i] == Some(decoded[i]),
        forall|k: int| 0 <= k < writes.len() && 0 <= #[trigger] writes[k].0 < decoded.len() ==> writes[k].1 == decoded[writes[k].0],
    ensures
        apply_writes(frames, writes).len() == frames.len(),
        forall|i: int| 0 <= i < frames.len() ==> #[trigger] apply_writes(frames, writes)[i] is None
            || apply_writes(frames, writes)[i] == Some(decoded[i]),
        forall|k: int| 0 <= k < writes.len() && 0 <= #[trigger] writes[k].0 < frames.len() ==> apply_writes(frames, writes)[writes[k].0] == Some(decoded[writes[k].0]),
    decreases writes.len(),
{
    if writes.len() > 0 {
        let init = writes.drop_last();
        assert forall|k: int| 0 <= k < init.len() && 0 <= #[trigger] init[k].0 < decoded.len() implies init[k].1 == decoded[init[k].0] by {
            assert(init[k] == writes[k]);
        }
        lemma_fills_match_decoding(frames, decoded, init);
        let prev = apply_writes(frames, init);
        let w = writes.last();
        assert(writes[writes.len() - 1] == w);
        let cur = apply_writes(frames, writes);
        assert(cur == store_step(prev, w.0, w.1));
        assert forall|k: int| 0 <= k < writes.len() && 0 <= #[trigger] writes[k].0 < frames.len() implies cur[writes[k].0] == Some(decoded[writes[k].0]) by {
            if k < writes.len() - 1 {
                assert(init[k] == writes[k]);
                assert(prev[init[k].0] == Some(decoded[init[k].0]));
            }
        }
    }
}

/// Decoded frames of one image. Slot `i` is empty or holds frame `i`; once
/// filled it never changes.
pub struct FrameSlots<T> {
    slots: Vec<Option<Vec<T>>>,
    preload_started: bool,
}

impl<T: Copy> FrameSlots<T> {
    pub closed spec fn frames(&self) -> Seq<Option<Seq<T>>> {
        self.slots@.map_values(|s: Option<Vec<T>>| match s {
            Some(v) => Some(v@),
            None => None,
        })
    }

    pub closed spec fn started(&self) -> bool {
        self.preload_started
    }

    /// A store of `frame_count` slots whose first slot holds `first`.
    pub fn new(frame_count: usize, first: Vec<T>) -> (r: Self)
        requires
            frame_count >= 1,
        ensures
            r.frames().len() == frame_count,
            r.frames()[0] == Some(first@),
            forall|i: int| 1 <= i < frame_count ==> r.frames()[i] is None,
            !r.started(),
    {
        let mut slots: Vec<Option<Vec<T>>> = Vec::new();
        slots.push(Some(first));
        let mut k: usize = 1;
        while k < frame_count
            invariant
                1 <= k <= frame_count,
                slots@.len() == k,
                slots@[0] matches Some(v) && v@ == first@,
                forall|i: int| 1 <= i < k ==> slots@[i] is None,
            decreases frame_count - k,
        {
            slots.push(None);
            k = k + 1;
        }
        FrameSlots { slots, preload_started: false }
    }

    pub fn frame_count(&self) -> (r: usize)
        ensures
            r == self.frames().len(),
    {
        self.slots.len()
    }

    /// A copy of frame `index`, when it has been decoded.
    pub fn frame(&self, index: usize) -> (r: Option<Vec<T>>)
        ensures
            index < self.frames().len() ==> match r {
                Some(v) => self.frames()[index as int] == Some(v@),
                None => self.frames()[index as int] is None,
            },
            index >= self.frames().len() ==> r is None,
    {
        if index >= self.slots.len() {
            return None;
        }
        match &self.slots[index] {
            Some(v) => {
                let c = crate::text::slice_vec(v.as_slice(), 0, v.len());
                assert(v@.subrange(0, v@.len() as int) =~= v@);
                Some(c)
            },
            None => None,
        }
    }

    pub fn is_filled(&self, index: usize) -> (r: bool)
        ensures
            r == (index < self.frames().len() && self.frames()[index as int] is Some),
    {
        index < self.slots.len() && self.slots[index].is_some()
    }

    /// Stores a decoded frame in an empty slot; a filled slot keeps its
    /// frame (the first writer wins). Returns whether the frame was stored.
    pub fn store_if_empty(&mut self, index: usize, frame: Vec<T>) -> (r: bool)
        ensures
            final(self).frames().len() == old(self).frames().len(),
            final(self).started() == old(self).started(),
            r == (index < old(self).frames().len() && old(self).frames()[index as int] is None),
            forall|i: int|
                0 <= i < old(self).frames().len() && i != index ==> final(self).frames()[i]
                    == old(self).frames()[i],
            index < old(self).frames().len() ==> final(self).frames()[index as int] == if r {
                Some(frame@)
            } else {
                old(self).frames()[index as int]
            },
            final(self).frames() == store_step(old(self).frames(), index as int, frame@),
    {
        if index >= self.slots.len() || self.slots[index].is_some() {
            return false;
        }
        let ghost before = self.frames();
        let ghost fv = frame@;
        self.slots.set(index, Some(frame));
        assert(self.frames() =~= before.update(index as int, Some(fv)));
        true
    }

    /// Claims the preload run: true when no run had been started, and the
    /// store then counts as started.
    pub fn begin_preload(&mut self) -> (r: bool)
        ensures
            r == !old(self).started(),
            final(self).started(),
            final(self).frames() == old(self).frames(),
    {
        let was = self.preload_started;
        self.preload_started = true;
        !was
    }

    /// A failed preload run gives the claim back, so that the next access
    /// starts a fresh run.
    pub fn preload_failed(&mut self)
        ensures
            !final(self).started(),
            final(self).frames() == old(self).frames(),
    {
        self.preload_started = false;
    }
}

/// Number of preload workers: the configured count, else the detected
/// parallelism clamped to 1..=4 (2 when unknown); then clamped to 1..=32
/// and to the number of frames (at least one worker).
pub open spec fn worker_count(configured: Option<usize>, detected: Option<usize>, frame_count: usize) -> int {
    let auto = match detected {
        Some(n) => if n < 1 {
            1
        } else if n > 4 {
            4
        } else {
            n as int
        },
        None => 2,
    };
    let c = match configured {
        Some(n) => n as int,
        None => auto,
    };
    let c1 = if c < 1 {
        1
    } else if c > 32 {
        32
    } else {
        c
    };
    let f = if frame_count < 1 {
        1
    } else {
        frame_count as int
    };
    if c1 < f {
        c1
    } else {
        f
    }
}

pub fn preload_worker_count(configured: Option<usize>, detected: Option<usize>, frame_count: usize) -> (r: usize)
    ensures
        r as int == worker_count(configured, detected, frame_count),
        1 <= r <= 32,
{
    let auto: usize = match detected {
        Some(n) => if n < 1 {
            1
        } else if n > 4 {
            4
        } else {
            n
        },
        None => 2,
    };
    let c = match configured {
        Some(n) => n,
        None => auto,
    };
    let c1 = if c < 1 {
        1
    } else if c > 32 {
        32
    } else {
        c
    };
    let f = if frame_count < 1 {
        1
    } else {
        frame_count
    };
    if c1 < f {
        c1
    } else {
        f
    }
}

/// The preload-worker setting read from text: a positive integer; zero or
/// anything else means no setting.
pub fn parse_worker_setting(raw: &str) -> (r: Option<usize>)
    ensures
        match r {
            Some(n) => n > 0 && crate::pct::parse_usize_spec(crate::text::trim_seq(raw@)) == Some(n),
            None => crate::pct::parse_usize_spec(crate::text::trim_seq(raw@)) matches Some(n) ==> n
                == 0,
        },
{
    let c = crate::text::chars_of(raw);
    let t = crate::text::trim(&c);
    match crate::pct::parse_usize(&t) {
        Some(n) => if n == 0 {
            None
        } else {
            Some(n)
        },
        None => None,
    }
}

/// The frames that worker `worker` of `workers` decodes: `worker`,
/// `worker + workers`, ... while below `frame_count`.
pub fn worker_frames(worker: usize, workers: usize, frame_count: usize) -> (r: Vec<usize>)
    requires
        workers >= 1,
    ensures
        forall|k: int| 0 <= k < r@.len() ==> #[trigger] r@[k] == worker + k * workers && r@[k] < frame_count,
        worker + r@.len() * workers >= frame_count,
{
    let mut out: Vec<usize> = Vec::new();
    let mut i: usize = worker;
    assert(out@.len() * workers == 0);
    while i < frame_count
        invariant
            workers >= 1,
            i == worker + out@.len() * workers,
            forall|k: int| 0 <= k < out@.len() ==> #[trigger] out@[k] == worker + k * workers && out@[k] < frame_count,
        decreases frame_count - i,
    {
        out.push(i);
        proof {
            assert(worker + out@.len() * workers == i + workers) by (nonlinear_arith)
                requires i == worker + (out@.len() - 1) * workers;
        }
        if frame_count - i <= workers {
            return out;
        }
        i = i + workers;
    }
    out
}

/// A 16-bit colour sample folded to 8 bits: shifted right by the bits
/// stored beyond 8.
pub fn fold_color_sample(sample: u16, bits_stored: u16) -> (r: u8)
    ensures
        r as int == ((sample as int) / pow2(if bits_stored > 8 { (bits_stored - 8) as nat } else { 0 })) % 256,
{
    let shift: u16 = if bits_stored > 8 { bits_stored - 8 } else { 0 };
    if shift >= 16 {
        proof {
            lemma_big_shift(sample as int, shift as nat);
        }
        return 0;
    }
    let mut v: u16 = sample;
    let mut k: u16 = 0;
    while k < shift
        invariant
            k <= shift < 16,
            v as int == (sample as int) / pow2(k as nat),
        decreases shift - k,
    {
        proof {
            lemma_div_step(sample as int, k as nat);
        }
        v = v / 2;
        k = k + 1;
    }
    (v % 256) as u8
}

pub open spec fn pow2(n: nat) -> int
    decreases n,
{
    if n == 0 {
        1
    } else {
        2 * pow2((n - 1) as nat)
    }
}

proof fn lemma_pow2_pos(n: nat)
    ensures
        pow2(n) >= 1,
    decreases n,
{
    if n > 0 {
        lemma_pow2_pos((n - 1) as nat);
    }
}

proof fn lemma_div_step(x: int, k: nat)
    requires
        x >= 0,
    ensures
        (x / pow2(k)) / 2 == x / pow2(k + 1),
{
    lemma_pow2_pos(k);
    assert(pow2(k + 1) == 2 * pow2(k));
    let p = pow2(k);
    assert((x / p) / 2 == x / (p * 2)) by (nonlinear_arith)
        requires p >= 1, x >= 0;
}

proof fn lemma_pow2_ge(n: nat)
    requires
        n >= 16,
    ensures
        pow2(n) >= 65536,
    decreases n,
{
    if n > 16 {
        lemma_pow2_ge((n - 1) as nat);
    } else {
        reveal_with_fuel(pow2, 17);
    }
}

proof fn lemma_big_shift(x: int, n: nat)
    requires
        0 <= x < 65536,
        n >= 16,
    ensures
        (x / pow2(n)) % 256 == 0,
{
    lemma_pow2_ge(n);
    let p = pow2(n);
    assert(x / p == 0) by (nonlinear_arith)
        requires 0 <= x < 65536, p >= 65536;
}

/// Least and greatest sample, or `None` for no samples.
pub fn min_max(values: &[i32]) -> (r: Option<(i32, i32)>)
    ensures
        values@.len() == 0 <==> r is None,
        r matches Some((lo, hi)) ==> lo <= hi && values@.contains(lo) && values@.contains(hi)
            && forall|i: int| 0 <= i < values@.len() ==> lo <= #[trigger] values@[i] <= hi,
{
    if values.len() == 0 {
        return None;
    }
    let mut lo = values[0];
    let mut hi = values[0];
    let mut i: usize = 1;
    while i < values.len()
        invariant
            1 <= i <= values@.len(),
            lo <= hi,
            values@.contains(lo),
            values@.contains(hi),
            forall|j: int| 0 <= j < i ==> lo <= #[trigger] values@[j] <= hi,
        decreases values@.len() - i,
    {
        let v = values[i];
        if v < lo {
            lo = v;
        }
        if v > hi {
            hi = v;
        }
        i = i + 1;
    }
    Some((lo, hi))
}

/// The worker shards cover every frame exactly once: frame `i` is decoded
/// by worker `i % workers` and by no other.
pub proof fn lemma_shards_partition_frames(i: int, workers: int, w: int)
    requires
        workers >= 1,
        0 <= w < workers,
        0 <= i,
    ensures
        (w <= i && (i - w) % workers == 0) <==> w == i % workers,
{
    if w == i % workers {
        assert(w <= i && (i - w) % workers == 0) by (nonlinear_arith)
            requires workers >= 1, w == i % workers, 0 <= i;
    }
    if w <= i && (i - w) % workers == 0 {
        assert(w == i % workers) by (nonlinear_arith)
            requires workers >= 1, 0 <= w < workers, w <= i, (i - w) % workers == 0;
    }
}

} // verus!
