//! Shared streaming machinery of the interpolating resamplers: an interleaved input history
//! addressed by absolute per-channel frame index, so that a resampler can read a window
//! around a fractional position and drop what it has passed.

use vstd::prelude::*;
use vstd::arithmetic::div_mod::lemma_div_is_ordered;
use vstd::arithmetic::div_mod::lemma_fundamental_div_mod;
use vstd::arithmetic::div_mod::lemma_fundamental_div_mod_converse;

verus! {

/// One channel of interleaved samples.
pub open spec fn channel_of<S>(samples: Seq<S>, channels: int, ch: int) -> Seq<S> {
    Seq::new((samples.len() as int / channels) as nat, |k: int| samples[k * channels + ch])
}

/// What an input history holds: the samples from absolute frame `start` on, interleaved.
#[verifier::ext_equal]
pub struct Buffered<S> {
    pub start: int,
    pub samples: Seq<S>,
    pub channels: int,
    /// What is read outside the buffered range.
    pub silence: S,
}

impl<S> Buffered<S> {
    /// Nothing buffered, at frame 0.
    pub open spec fn empty(channels: int, silence: S) -> Self {
        Buffered { start: 0, samples: Seq::empty(), channels, silence }
    }

    pub open spec fn valid(self) -> bool {
        &&& self.channels > 0
        &&& 0 <= self.start
        &&& self.end() <= i64::MAX
    }

    /// No frame is buffered in part.
    pub open spec fn whole(self) -> bool {
        self.samples.len() as int % self.channels == 0
    }

    /// Whole frames buffered.
    pub open spec fn frames(self) -> int {
        self.samples.len() as int / self.channels
    }

    /// The absolute frame just past the buffered ones.
    pub open spec fn end(self) -> int {
        self.start + self.frames()
    }

    pub open spec fn holds(self, abs: int) -> bool {
        self.start <= abs < self.end()
    }

    /// The sample of channel `ch` at absolute frame `abs`; silence where nothing is buffered.
    pub open spec fn at(self, abs: int, ch: int) -> S {
        if self.holds(abs) {
            self.samples[(abs - self.start) * self.channels + ch]
        } else {
            self.silence
        }
    }

    /// The history with more input behind it.
    pub open spec fn pushed(self, input: Seq<S>) -> Self {
        Buffered { samples: self.samples + input, ..self }
    }

    /// The frame from which `trimmed` keeps the samples: `keep_from`, moved into the
    /// buffered range where it lies outside.
    pub open spec fn trim_point(self, keep_from: int) -> int {
        if keep_from < self.start {
            self.start
        } else if keep_from > self.end() {
            self.end()
        } else {
            keep_from
        }
    }

    /// One channel of the history.
    pub open spec fn channel(self, ch: int) -> Self {
        Buffered { samples: channel_of(self.samples, self.channels, ch), channels: 1, ..self }
    }

    /// The history without the frames before `keep_from`.
    pub open spec fn trimmed(self, keep_from: int) -> Self {
        let point = self.trim_point(keep_from);
        Buffered {
            start: point,
            samples: self.samples.skip((point - self.start) * self.channels),
            ..self
        }
    }
}

/// Interleaved input with absolute per-channel frame addressing.
pub struct InputHistory<S> {
    buf: Vec<S>,
    /// Absolute frame of `buf[0]`.
    start: i64,
    channels: usize,
    silence: S,
}

impl<S: Copy> View for InputHistory<S> {
    type V = Buffered<S>;

    closed spec fn view(&self) -> Buffered<S> {
        Buffered {
            start: self.start as int,
            samples: self.buf@,
            channels: self.channels as int,
            silence: self.silence,
        }
    }
}

/// A frame inside the buffer lies inside the sample sequence.
pub proof fn lemma_sample_index(len: int, channels: int, rel: int, ch: int)
    requires
        0 <= len,
        0 < channels,
        0 <= rel < len / channels,
        0 <= ch < channels,
    ensures
        0 <= rel * channels + ch < len,
        rel * channels <= len,
{
    lemma_fundamental_div_mod(len, channels);
    assert(rel * channels + ch < len && 0 <= rel * channels) by (nonlinear_arith)
        requires
            len == channels * (len / channels) + len % channels,
            0 <= len % channels,
            0 <= rel,
            rel + 1 <= len / channels,
            0 <= ch < channels,
    ;
}

/// Taking whole frames off the front leaves the rest of the frames.
pub proof fn lemma_frames_dropped(len: int, channels: int, drop: int)
    requires
        0 <= len,
        0 < channels,
        0 <= drop <= len / channels,
    ensures
        0 <= drop * channels <= len,
        (len - drop * channels) / channels == len / channels - drop,
{
    lemma_fundamental_div_mod(len, channels);
    let q = len / channels;
    let r = len % channels;
    assert(drop * channels <= len && 0 <= drop * channels) by (nonlinear_arith)
        requires
            len == channels * q + r,
            0 <= r,
            0 < channels,
            0 <= drop <= q,
    ;
    assert(len - drop * channels == (q - drop) * channels + r) by (nonlinear_arith)
        requires
            len == channels * q + r,
    ;
    lemma_fundamental_div_mod_converse(len - drop * channels, channels, q - drop, r);
}

/// Whole frames behind the buffer add up with the frames in it.
pub proof fn lemma_frames_added(len: int, channels: int, more: int)
    requires
        0 <= len,
        0 < channels,
        0 <= more,
    ensures
        0 <= more * channels,
        (len + more * channels) / channels == len / channels + more,
{
    lemma_fundamental_div_mod(len, channels);
    let q = len / channels;
    let r = len % channels;
    assert(len + more * channels == (q + more) * channels + r && 0 <= more * channels)
        by (nonlinear_arith)
        requires
            len == channels * q + r,
            0 <= more,
            0 < channels,
    ;
    lemma_fundamental_div_mod_converse(len + more * channels, channels, q + more, r);
}

impl<S: Copy> InputHistory<S> {
    pub fn new(channels: usize, silence: S) -> (result: Self)
        requires
            channels > 0,
        ensures
            result@ == Buffered::empty(channels as int, silence),
            result@.valid(),
    {
        InputHistory { buf: Vec::new(), start: 0, channels, silence }
    }

    /// Appends interleaved samples.
    pub fn push(&mut self, input: &[S])
        requires
            old(self)@.valid(),
            old(self)@.pushed(input@).end() <= i64::MAX,
        ensures
            final(self)@ == old(self)@.pushed(input@),
            final(self)@.valid(),
    {
        let ghost before = self@;
        let mut i: usize = 0;
        while i < input.len()
            invariant
                i <= input@.len(),
                self@ == before.pushed(input@.take(i as int)),
            decreases input@.len() - i,
        {
            self.buf.push(input[i]);
            proof {
                assert(input@.take(i as int + 1) =~= input@.take(i as int).push(input@[i as int]));
            }
            i = i + 1;
        }
        proof {
            assert(input@.take(i as int) =~= input@);
        }
    }

    /// What is read outside the buffered range.
    pub fn silence(&self) -> (result: S)
        ensures
            result == self@.silence,
    {
        self.silence
    }

    /// Whole frames buffered.
    pub fn frames(&self) -> (result: usize)
        requires
            self@.valid(),
        ensures
            result == self@.frames(),
    {
        self.buf.len() / self.channels
    }

    /// The absolute frame just past the buffered ones.
    pub fn end(&self) -> (result: i64)
        requires
            self@.valid(),
        ensures
            result == self@.end(),
    {
        self.start + self.frames() as i64
    }

    /// Tells whether the frame counter has room for `frames` more frames.
    pub fn has_room(&self, frames: usize) -> (result: bool)
        requires
            self@.valid(),
        ensures
            result == (self@.end() + frames <= i64::MAX),
    {
        frames as u64 <= (i64::MAX - self.end()) as u64
    }

    /// The sample of channel `ch` at absolute frame `abs`, silence outside the buffered
    /// range: what lies behind the end of the stream reads as zero.
    pub fn at(&self, abs: i64, ch: usize) -> (result: S)
        requires
            self@.valid(),
            ch < self@.channels,
        ensures
            result == self@.at(abs as int, ch as int),
    {
        let frames = self.frames();
        if abs < self.start || abs - self.start >= frames as i64 {
            return self.silence;
        }
        let rel = (abs - self.start) as usize;
        proof {
            lemma_sample_index(self.buf.len() as int, self.channels as int, rel as int, ch as int);
        }
        self.buf[rel * self.channels + ch]
    }

    /// Drops the frames before `keep_from`, which no later read can reach. A `keep_from`
    /// before the buffer drops nothing, one behind it drops everything and no more: a heavy
    /// downsampling step can overshoot the buffer.
    pub fn trim(&mut self, keep_from: i64)
        requires
            old(self)@.valid(),
        ensures
            final(self)@ == old(self)@.trimmed(keep_from as int),
            final(self)@.valid(),
            final(self)@.end() == old(self)@.end(),
    {
        let frames = self.frames();
        let end = self.start + frames as i64;
        let point: i64 = if keep_from < self.start {
            self.start
        } else if keep_from > end {
            end
        } else {
            keep_from
        };
        let drop = (point - self.start) as usize;
        proof {
            lemma_frames_dropped(self.buf.len() as int, self.channels as int, drop as int);
        }
        if drop > 0 {
            let kept = self.buf.split_off(drop * self.channels);
            self.buf = kept;
            self.start = point;
        }
        proof {
            assert(self@ =~= old(self)@.trimmed(keep_from as int));
        }
    }

    pub fn clear(&mut self)
        requires
            old(self)@.valid(),
        ensures
            final(self)@ == Buffered::empty(old(self)@.channels, old(self)@.silence),
            final(self)@.valid(),
    {
        self.buf.clear();
        self.start = 0;
    }
}

/// Dropping frames leaves every frame from the trim point on as it was.
pub proof fn law_trim_keeps_later_frames<S>(history: Buffered<S>, keep_from: int, abs: int, ch: int)
    requires
        history.valid(),
        0 <= ch < history.channels,
        abs >= keep_from || abs >= history.end(),
    ensures
        history.trimmed(keep_from).valid(),
        history.trimmed(keep_from).end() == history.end(),
        history.trimmed(keep_from).at(abs, ch) == history.at(abs, ch),
{
    let point = history.trim_point(keep_from);
    let drop = point - history.start;
    let len = history.samples.len() as int;
    let c = history.channels;
    lemma_frames_dropped(len, c, drop);
    if history.holds(abs) {
        let rel = abs - point;
        lemma_sample_index(len, c, abs - history.start, ch);
        assert(drop * c + (rel * c + ch) == (abs - history.start) * c + ch && 0 <= rel * c)
            by (nonlinear_arith)
            requires
                rel + drop == abs - history.start,
                rel >= 0,
                c > 0,
        ;
    }
}

/// More input changes no frame that was buffered already.
pub proof fn law_push_keeps_earlier_frames<S>(
    history: Buffered<S>,
    input: Seq<S>,
    abs: int,
    ch: int,
)
    requires
        history.valid(),
        0 <= ch < history.channels,
        history.holds(abs),
    ensures
        history.pushed(input).holds(abs),
        history.pushed(input).at(abs, ch) == history.at(abs, ch),
{
    let len = history.samples.len() as int;
    lemma_sample_index(len, history.channels, abs - history.start, ch);
    lemma_div_is_ordered(len, len + input.len(), history.channels);
}

/// Dropping frames twice is dropping up to the later point, in whichever order.
pub proof fn law_trims_join<S>(history: Buffered<S>, first: int, second: int)
    requires
        history.valid(),
    ensures
        first <= second ==> history.trimmed(first).trimmed(second) == history.trimmed(second),
        second <= first ==> history.trimmed(first).trimmed(second) == history.trimmed(first),
{
    let c = history.channels;
    let len = history.samples.len() as int;
    let a = history.trim_point(first) - history.start;
    let b = history.trim_point(second) - history.start;
    lemma_frames_dropped(len, c, a);
    lemma_frames_dropped(len, c, b);
    let once = history.trimmed(first);
    assert(once.end() == history.end());
    if first <= second {
        assert(once.trim_point(second) == history.trim_point(second));
        assert((b - a) * c == b * c - a * c && 0 <= (b - a) * c) by (nonlinear_arith)
            requires
                a <= b,
                c > 0,
        ;
        assert(once.trimmed(second).samples =~= history.trimmed(second).samples);
    }
    if second <= first {
        assert(once.trim_point(second) == once.start);
        assert((once.trim_point(second) - once.start) * c == 0) by (nonlinear_arith)
            requires
                once.trim_point(second) == once.start,
        ;
        assert(once.trimmed(second).samples =~= once.samples);
    }
}

/// Frames dropped before more input comes are the frames that would be dropped afterwards, as
/// far as the input went.
pub proof fn law_trim_and_push<S>(history: Buffered<S>, input: Seq<S>, first: int, second: int)
    requires
        history.valid(),
        history.pushed(input).valid(),
        first <= second,
    ensures
        history.trimmed(first).pushed(input).valid(),
        history.trimmed(first).pushed(input).end() == history.pushed(input).end(),
        history.trimmed(first).pushed(input).trimmed(second) == history.pushed(input).trimmed(
            second,
        ),
        forall|abs: int, ch: int|
            abs >= first && 0 <= ch < history.channels ==> #[trigger] history.trimmed(
                first,
            ).pushed(input).at(abs, ch) == history.pushed(input).at(abs, ch),
{
    let c = history.channels;
    let len = history.samples.len() as int;
    let point = history.trim_point(first);
    let whole = history.pushed(input);
    lemma_frames_dropped(len, c, point - history.start);
    lemma_div_is_ordered(len, len + input.len(), c);
    // Up to where the input went, dropping first is dropping afterwards.
    assert(history.trimmed(first).pushed(input) =~= whole.trimmed(point)) by {
        assert(whole.trim_point(point) == point);
        assert(history.trimmed(first).pushed(input).samples =~= whole.trimmed(point).samples);
    }
    lemma_frames_dropped(len + input.len(), c, point - history.start);
    if point <= second {
        law_trims_join(whole, point, second);
    } else {
        // Nothing was dropped, and nothing will be.
        assert(point == history.start);
        assert(whole.trimmed(second) =~= whole.trimmed(point));
        law_trims_join(whole, second, point);
        assert(whole.trimmed(point).trim_point(second) == point);
        assert(whole.trimmed(point).trimmed(second).samples =~= whole.trimmed(point).samples);
    }
    assert forall|abs: int, ch: int|
        abs >= first && 0 <= ch < history.channels implies #[trigger] history.trimmed(
        first,
    ).pushed(input).at(abs, ch) == whole.at(abs, ch) by {
        if abs >= point {
            law_trim_keeps_later_frames(whole, point, abs, ch);
        }
    }
}

/// Dropping frames leaves whole frames.
pub proof fn lemma_trimmed_whole<S>(history: Buffered<S>, keep_from: int)
    requires
        history.valid(),
        history.whole(),
    ensures
        history.trimmed(keep_from).whole(),
{
    let c = history.channels;
    let len = history.samples.len() as int;
    let drop = history.trim_point(keep_from) - history.start;
    lemma_frames_dropped(len, c, drop);
    lemma_fundamental_div_mod(len, c);
    let left = len / c - drop;
    assert(len - drop * c == left * c) by (nonlinear_arith)
        requires
            len == c * (len / c),
            left == len / c - drop,
    ;
    lemma_fundamental_div_mod_converse(left * c, c, left, 0);
}

/// Whole frames behind whole frames are whole frames.
pub proof fn lemma_pushed_whole<S>(history: Buffered<S>, input: Seq<S>, frames: int)
    requires
        history.valid(),
        history.whole(),
        0 <= frames,
        input.len() == frames * history.channels,
    ensures
        history.pushed(input).whole(),
{
    let c = history.channels;
    let len = history.samples.len() as int;
    let q = len / c;
    lemma_fundamental_div_mod(len, c);
    assert(len + frames * c == (q + frames) * c) by (nonlinear_arith)
        requires
            len == c * q,
    ;
    lemma_fundamental_div_mod_converse((q + frames) * c, c, q + frames, 0);
}

/// A channel of the history reads as it does among the others.
pub proof fn law_channel_reads_alone<S>(history: Buffered<S>, abs: int, ch: int)
    requires
        history.valid(),
        0 <= ch < history.channels,
    ensures
        history.channel(ch).valid(),
        history.channel(ch).end() == history.end(),
        history.channel(ch).at(abs, 0) == history.at(abs, ch),
{
    let len = history.samples.len() as int;
    lemma_fundamental_div_mod(len, history.channels);
    assert(len / history.channels >= 0) by (nonlinear_arith)
        requires
            0 <= len,
            history.channels > 0,
    ;
    lemma_fundamental_div_mod_converse(history.frames(), 1, history.frames(), 0);
    if history.holds(abs) {
        lemma_sample_index(len, history.channels, abs - history.start, ch);
    }
}

/// A channel of the input behind a channel of the history.
pub proof fn law_channel_of_pushed<S>(history: Buffered<S>, input: Seq<S>, frames: int, ch: int)
    requires
        history.valid(),
        history.whole(),
        0 <= frames,
        input.len() == frames * history.channels,
        0 <= ch < history.channels,
    ensures
        history.pushed(input).channel(ch) == history.channel(ch).pushed(
            channel_of(input, history.channels, ch),
        ),
{
    let c = history.channels;
    let len = history.samples.len() as int;
    let q = len / c;
    lemma_fundamental_div_mod(len, c);
    assert(len == q * c && q >= 0) by (nonlinear_arith)
        requires
            len == c * q,
            c > 0,
            len >= 0,
    ;
    lemma_frames_added(len, c, frames);
    lemma_fundamental_div_mod_converse(frames * c, c, frames, 0);
    let together = history.pushed(input).channel(ch).samples;
    let apart = history.channel(ch).pushed(channel_of(input, c, ch)).samples;
    assert(together.len() == q + frames);
    assert(apart.len() == q + frames);
    assert forall|k: int| 0 <= k < q + frames implies together[k] == apart[k] by {
        if k < q {
            lemma_sample_index(len, c, k, ch);
        } else {
            lemma_sample_index(frames * c, c, k - q, ch);
            assert(k * c + ch == len + ((k - q) * c + ch)) by (nonlinear_arith)
                requires
                    len == q * c,
            ;
        }
    }
    assert(together =~= apart);
}

/// A channel of what is left is what is left of the channel.
pub proof fn law_channel_of_trimmed<S>(history: Buffered<S>, keep_from: int, ch: int)
    requires
        history.valid(),
        0 <= ch < history.channels,
    ensures
        history.trimmed(keep_from).channel(ch) == history.channel(ch).trimmed(keep_from),
{
    let c = history.channels;
    let len = history.samples.len() as int;
    let drop = history.trim_point(keep_from) - history.start;
    lemma_frames_dropped(len, c, drop);
    law_channel_reads_alone(history, 0, ch);
    let together = history.trimmed(keep_from).channel(ch).samples;
    let apart = history.channel(ch).trimmed(keep_from).samples;
    assert(history.channel(ch).trim_point(keep_from) == history.trim_point(keep_from));
    assert forall|k: int| 0 <= k < len / c - drop implies together[k] == apart[k] by {
        lemma_sample_index(len - drop * c, c, k, ch);
        assert((k + drop) * c + ch == drop * c + (k * c + ch)) by (nonlinear_arith);
    }
    assert(together =~= apart);
}

} // verus!
