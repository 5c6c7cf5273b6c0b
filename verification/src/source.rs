//! Sound sources: the streaming-audio capability, an in-memory source,
//! and the format-adapter wrappers used by live reconfiguration.
//!
//! A source yields a fixed sequence of interleaved 16-bit samples from a
//! current read position.  Filling a buffer past the end of the sequence
//! comes back short, which signals the end of one playback pass; a reset
//! rewinds the position to the start so the same sequence plays again.

use vstd::prelude::*;

verus! {

/// A source of interleaved sound samples.
///
/// The model is a fixed sample sequence `s_data` together with a read
/// position `s_pos`; `write_samples` hands out the next samples of the
/// sequence and a short write means the source is exhausted for this
/// pass.  A buffer handed to `write_samples` should cover whole
/// interleaved frames, i.e. its length should be a multiple of the
/// channel count.
pub trait SoundSource {
    /// Number of interleaved channels.
    spec fn s_channels(&self) -> u16;

    /// Samples per second for one channel.
    spec fn s_rate(&self) -> u32;

    /// The complete sample sequence of one playback pass.
    spec fn s_data(&self) -> Seq<i16>;

    /// The current read position within `s_data`.
    spec fn s_pos(&self) -> int;

    /// Implementation-specific validity; every operation preserves it.
    spec fn s_inv(&self) -> bool;

    /// Return the number of channels.
    fn channels(&self) -> (r: u16)
        requires
            self.s_inv(),
        ensures
            r == self.s_channels(),
    ;

    /// Return the sample rate.
    fn sample_rate(&self) -> (r: u32)
        requires
            self.s_inv(),
        ensures
            r == self.s_rate(),
    ;

    /// Rewind the source to the start of its sequence.
    fn reset(&mut self)
        requires
            old(self).s_inv(),
        ensures
            final(self).s_inv(),
            final(self).s_pos() == 0,
            final(self).s_data() == old(self).s_data(),
            final(self).s_channels() == old(self).s_channels(),
            final(self).s_rate() == old(self).s_rate(),
    ;

    /// Write the next samples of the sequence into `buf[start..]`.
    ///
    /// Exactly the remainder of the buffer or the remainder of the
    /// sequence is written, whichever is shorter; the position advances
    /// by the amount written and the rest of the buffer is untouched.
    fn write_samples(&mut self, buf: &mut Vec<i16>, start: usize) -> (w: usize)
        requires
            old(self).s_inv(),
            start <= old(buf).len(),
        ensures
            final(self).s_inv(),
            final(self).s_data() == old(self).s_data(),
            final(self).s_channels() == old(self).s_channels(),
            final(self).s_rate() == old(self).s_rate(),
            w as int == vstd::math::min(
                old(buf).len() - start,
                old(self).s_data().len() - old(self).s_pos(),
            ),
            final(self).s_pos() == old(self).s_pos() + w,
            final(buf).len() == old(buf).len(),
            forall|i: int|
                0 <= i < w ==> #[trigger] final(buf)[start + i] == old(self).s_data()[old(
                    self,
                ).s_pos() + i],
            forall|i: int|
                0 <= i < start || start + w <= i < old(buf).len() ==> final(buf)[i] == old(
                    buf,
                )[i],
    ;
}

/// A sound source backed by an in-memory sample buffer.
pub struct MemSource {
    data: Vec<i16>,
    pos: usize,
    channels: u16,
    rate: u32,
}

impl MemSource {
    /// Build a source over `data`, which must hold whole interleaved
    /// frames, starting at the beginning of the sequence.
    pub fn new(data: Vec<i16>, channels: u16, rate: u32) -> (r: Self)
        requires
            channels >= 1,
            rate >= 1,
            data.len() as int % (channels as int) == 0,
        ensures
            r.s_inv(),
            r.s_data() == data@,
            r.s_pos() == 0,
            r.s_channels() == channels,
            r.s_rate() == rate,
    {
        MemSource { data, pos: 0, channels, rate }
    }
}

impl SoundSource for MemSource {
    closed spec fn s_channels(&self) -> u16 {
        self.channels
    }

    closed spec fn s_rate(&self) -> u32 {
        self.rate
    }

    closed spec fn s_data(&self) -> Seq<i16> {
        self.data@
    }

    closed spec fn s_pos(&self) -> int {
        self.pos as int
    }

    closed spec fn s_inv(&self) -> bool {
        &&& self.channels >= 1
        &&& self.rate >= 1
        &&& self.pos <= self.data.len()
        &&& self.data.len() as int % (self.channels as int) == 0
    }

    fn channels(&self) -> (r: u16) {
        self.channels
    }

    fn sample_rate(&self) -> (r: u32) {
        self.rate
    }

    fn reset(&mut self) {
        self.pos = 0;
    }

    fn write_samples(&mut self, buf: &mut Vec<i16>, start: usize) -> (w: usize) {
        let space = buf.len() - start;
        let remaining = self.data.len() - self.pos;
        let w = if space < remaining {
            space
        } else {
            remaining
        };
        let mut i: usize = 0;
        while i < w
            invariant
                i <= w,
                w == vstd::math::min((buf.len() - start) as int, self.data.len() - self.pos),
                self == old(self),
                start + w <= buf.len(),
                buf.len() == old(buf).len(),
                forall|j: int| 0 <= j < i ==> #[trigger] buf[start + j] == self.data[self.pos + j],
                forall|j: int|
                    0 <= j < start || start + i <= j < buf.len() ==> buf[j] == old(buf)[j],
            decreases w - i,
        {
            let v = self.data[self.pos + i];
            buf.set(start + i, v);
            i = i + 1;
        }
        self.pos = self.pos + w;
        w
    }
}


/// One frame of `from` source channels rendered as `to` output channels:
/// every output sample of a frame repeats the first sample of the
/// corresponding source frame.
pub open spec fn chan_convert(d: Seq<i16>, from: int, to: int) -> Seq<i16> {
    Seq::new((d.len() as int / from * to) as nat, |i: int| d[i / to * from])
}

/// A replaceable sound-source slot.
///
/// Live reconfiguration re-wraps a slot in place with a format adapter,
/// so the slot is a tagged variant: either a plain in-memory source, a
/// channel-count adapter around an inner slot, or a sample-rate adapter
/// around an inner slot.  The rate adapter relabels the nominal rate and
/// passes the sample content through unchanged; the channel adapter
/// re-frames the content with `chan_convert`.
#[allow(inconsistent_fields)]
pub enum Source {
    /// An in-memory source.
    Mem(MemSource),
    /// A channel-count adapter presenting `to` channels.
    Channels { inner: Box<Source>, to: u16 },
    /// A sample-rate adapter presenting `to` samples per second.
    Rate { inner: Box<Source>, to: u32 },
}

impl Source {
    /// The number of channels the slot presents.
    pub open spec fn channels_spec(self) -> u16
        decreases self,
    {
        match self {
            Source::Mem(m) => m.s_channels(),
            Source::Channels { inner, to } => to,
            Source::Rate { inner, to } => (*inner).channels_spec(),
        }
    }

    /// The sample rate the slot presents.
    pub open spec fn rate_spec(self) -> u32
        decreases self,
    {
        match self {
            Source::Mem(m) => m.s_rate(),
            Source::Channels { inner, to } => (*inner).rate_spec(),
            Source::Rate { inner, to } => to,
        }
    }

    /// The sample sequence of one playback pass, as the slot presents it.
    pub open spec fn data_spec(self) -> Seq<i16>
        decreases self,
    {
        match self {
            Source::Mem(m) => m.s_data(),
            Source::Channels { inner, to } => chan_convert(
                (*inner).data_spec(),
                (*inner).channels_spec() as int,
                to as int,
            ),
            Source::Rate { inner, to } => (*inner).data_spec(),
        }
    }

    /// The current read position, in samples of the presented sequence.
    pub open spec fn pos_spec(self) -> int
        decreases self,
    {
        match self {
            Source::Mem(m) => m.s_pos(),
            Source::Channels { inner, to } => (*inner).pos_spec() / ((*inner).channels_spec()
                as int) * (to as int),
            Source::Rate { inner, to } => (*inner).pos_spec(),
        }
    }

    /// Validity: positive dimensions, position inside the sequence, and
    /// a frame-aligned read position at every layer.
    pub open spec fn wf(self) -> bool
        decreases self,
    {
        match self {
            Source::Mem(m) => m.s_inv() && m.s_pos() % (m.s_channels() as int) == 0,
            Source::Channels { inner, to } => {
                &&& to >= 1
                &&& (*inner).wf()
                &&& (*inner).data_spec().len() as int / ((*inner).channels_spec() as int) * (
                to as int) <= usize::MAX as int
            },
            Source::Rate { inner, to } => to >= 1 && (*inner).wf(),
        }
    }
}

/// Bounds that every valid slot satisfies: dimensions are positive, the
/// position lies within the sequence, and sequence length and position
/// are whole numbers of frames.
pub proof fn lemma_wf_bounds(s: Source)
    requires
        s.wf(),
    ensures
        s.channels_spec() >= 1,
        s.rate_spec() >= 1,
        0 <= s.pos_spec() <= s.data_spec().len(),
        s.data_spec().len() as int % (s.channels_spec() as int) == 0,
        s.pos_spec() % (s.channels_spec() as int) == 0,
        s.data_spec().len() <= usize::MAX,
    decreases s,
{
    match s {
        Source::Mem(m) => {},
        Source::Channels { inner, to } => {
            lemma_wf_bounds(*inner);
            let from = (*inner).channels_spec() as int;
            let ilen = (*inner).data_spec().len() as int;
            let ipos = (*inner).pos_spec();
            let t = to as int;
            assert(ipos / from <= ilen / from) by {
                vstd::arithmetic::div_mod::lemma_div_is_ordered(ipos, ilen, from);
            };
            assert(0 <= ipos / from * t <= ilen / from * t) by (nonlinear_arith)
                requires
                    0 <= ipos / from <= ilen / from,
                    t >= 1,
            ;
            assert((ilen / from * t) % t == 0) by (nonlinear_arith)
                requires
                    t >= 1,
            ;
            assert((ipos / from * t) % t == 0) by (nonlinear_arith)
                requires
                    t >= 1,
            ;
        },
        Source::Rate { inner, to } => {
            lemma_wf_bounds(*inner);
        },
    }
}


impl Source {
    /// Return the number of channels the slot presents.
    pub fn channels(&self) -> (r: u16)
        requires
            self.wf(),
        ensures
            r == self.channels_spec(),
        decreases self,
    {
        match self {
            Source::Mem(m) => m.channels(),
            Source::Channels { inner, to } => *to,
            Source::Rate { inner, to } => inner.channels(),
        }
    }

    /// Return the sample rate the slot presents.
    pub fn sample_rate(&self) -> (r: u32)
        requires
            self.wf(),
        ensures
            r == self.rate_spec(),
        decreases self,
    {
        match self {
            Source::Mem(m) => m.sample_rate(),
            Source::Channels { inner, to } => inner.sample_rate(),
            Source::Rate { inner, to } => *to,
        }
    }

    /// Rewind the slot to the start of its sequence.
    pub fn reset(&mut self)
        requires
            old(self).wf(),
        ensures
            final(self).wf(),
            final(self).pos_spec() == 0,
            final(self).data_spec() == old(self).data_spec(),
            final(self).channels_spec() == old(self).channels_spec(),
            final(self).rate_spec() == old(self).rate_spec(),
        decreases *old(self),
    {
        match self {
            Source::Mem(m) => m.reset(),
            Source::Channels { inner, to } => {
                inner.reset();
                proof {
                    lemma_wf_bounds(**inner);
                    assert(0int / ((**inner).channels_spec() as int) * (*to as int) == 0)
                        by (nonlinear_arith)
                        requires
                            (**inner).channels_spec() as int >= 1,
                    ;
                }
            },
            Source::Rate { inner, to } => inner.reset(),
        }
    }
}


/// A vector of `n` zero samples.
pub fn zero_vec(n: usize) -> (v: Vec<i16>)
    ensures
        v.len() == n,
        forall|i: int| 0 <= i < n ==> v[i] == 0,
{
    let mut v: Vec<i16> = Vec::new();
    let mut i: usize = 0;
    while i < n
        invariant
            i <= n,
            v.len() == i,
            forall|j: int| 0 <= j < i ==> v[j] == 0,
        decreases n - i,
    {
        v.push(0);
        i = i + 1;
    }
    v
}

/// Sums and differences of multiples of `m` are multiples of `m`.
pub proof fn lemma_mod_combine(a: int, b: int, m: int)
    requires
        m >= 1,
        a % m == 0,
        b % m == 0,
    ensures
        (a - b) % m == 0,
        (a + b) % m == 0,
{
    let qa = a / m;
    let qb = b / m;
    vstd::arithmetic::div_mod::lemma_fundamental_div_mod(a, m);
    vstd::arithmetic::div_mod::lemma_fundamental_div_mod(b, m);
    assert(a - b == (qa - qb) * m && a + b == (qa + qb) * m) by (nonlinear_arith)
        requires
            a == m * qa,
            b == m * qb,
    ;
    vstd::arithmetic::div_mod::lemma_mod_multiples_basic(qa - qb, m);
    vstd::arithmetic::div_mod::lemma_mod_multiples_basic(qa + qb, m);
}

/// Where one converted sample comes from: output sample `f * to + j`
/// (counting from a frame-aligned position) repeats the first sample of
/// source frame `f`.
proof fn lemma_chan_index(d: Seq<i16>, from: int, to: int, ipos: int, f: int, j: int)
    requires
        from >= 1,
        to >= 1,
        0 <= ipos,
        ipos % from == 0,
        0 <= f,
        0 <= j < to,
        ipos + f * from + from <= d.len(),
        d.len() as int % from == 0,
    ensures
        0 <= ipos / from * to + f * to + j < chan_convert(d, from, to).len(),
        chan_convert(d, from, to)[ipos / from * to + f * to + j] == d[ipos + f * from],
{
    let q = ipos / from;
    let x = q * to + f * to + j;
    assert(q * from == ipos) by (nonlinear_arith)
        requires
            from >= 1,
            ipos >= 0,
            q == ipos / from,
            ipos % from == 0,
    ;
    assert(x / to == q + f && x >= 0) by (nonlinear_arith)
        requires
            to >= 1,
            q >= 0,
            f >= 0,
            0 <= j < to,
            x == q * to + f * to + j,
    ;
    assert((q + f) * from == ipos + f * from) by (nonlinear_arith)
        requires
            q * from == ipos,
    ;
    let n = d.len() as int;
    assert((q + f + 1) * from == ipos + f * from + from) by (nonlinear_arith)
        requires
            q * from == ipos,
    ;
    assert(q + f + 1 <= n / from) by (nonlinear_arith)
        requires
            from >= 1,
            n % from == 0,
            (q + f + 1) * from <= n,
            q + f >= 0,
    ;
    assert(x < n / from * to) by (nonlinear_arith)
        requires
            to >= 1,
            x == q * to + f * to + j,
            j < to,
            q + f + 1 <= n / from,
    ;
    assert(chan_convert(d, from, to)[x] == d[x / to * from]);
}

impl Source {
    /// How many samples of the presented sequence are left before the
    /// end of the current pass.
    pub fn remaining(&self) -> (r: usize)
        requires
            self.wf(),
        ensures
            r as int == self.data_spec().len() - self.pos_spec(),
        decreases self,
    {
        proof {
            lemma_wf_bounds(*self);
        }
        match self {
            Source::Mem(m) => m.data.len() - m.pos,
            Source::Channels { inner, to } => {
                let irem = inner.remaining();
                let from = inner.channels() as usize;
                let tt = *to as usize;
                proof {
                    lemma_wf_bounds(**inner);
                    let ilen = (**inner).data_spec().len() as int;
                    let ipos = (**inner).pos_spec();
                    let fi = from as int;
                    let ti = tt as int;
                    assert((ilen - ipos) / fi == ilen / fi - ipos / fi) by (nonlinear_arith)
                        requires
                            fi >= 1,
                            ilen % fi == 0,
                            ipos % fi == 0,
                            0 <= ipos <= ilen,
                    ;
                    assert((ilen / fi - ipos / fi) * ti == ilen / fi * ti - ipos / fi * ti)
                        by (nonlinear_arith)
                    ;
                    assert(0 <= ipos / fi * ti <= ilen / fi * ti) by (nonlinear_arith)
                        requires
                            ti >= 1,
                            0 <= ipos / fi <= ilen / fi,
                    ;
                    assert(ipos / fi <= ilen / fi) by {
                        vstd::arithmetic::div_mod::lemma_div_is_ordered(ipos, ilen, fi);
                    };
                }
                irem / from * tt
            },
            Source::Rate { inner, to } => inner.remaining(),
        }
    }
}


impl Source {
    #[verifier::rlimit(30)]
    /// Write the next samples of the presented sequence into
    /// `buf[start..]`, which must cover whole presented frames.
    ///
    /// Exactly the remainder of the buffer or the remainder of the
    /// sequence is written, whichever is shorter; the position advances
    /// by the amount written and the rest of the buffer is untouched.
    pub fn write_samples(&mut self, buf: &mut Vec<i16>, start: usize) -> (w: usize)
        requires
            old(self).wf(),
            start <= old(buf).len(),
            (old(buf).len() - start) as int % (old(self).channels_spec() as int) == 0,
        ensures
            final(self).wf(),
            final(self).data_spec() == old(self).data_spec(),
            final(self).channels_spec() == old(self).channels_spec(),
            final(self).rate_spec() == old(self).rate_spec(),
            w as int == vstd::math::min(
                old(buf).len() - start,
                old(self).data_spec().len() - old(self).pos_spec(),
            ),
            final(self).pos_spec() == old(self).pos_spec() + w,
            final(buf).len() == old(buf).len(),
            forall|i: int|
                0 <= i < w ==> #[trigger] final(buf)[start + i] == old(self).data_spec()[old(
                    self,
                ).pos_spec() + i],
            forall|i: int|
                0 <= i < start || start + w <= i < old(buf).len() ==> final(buf)[i] == old(
                    buf,
                )[i],
        decreases *old(self),
    {
        proof {
            lemma_wf_bounds(*old(self));
        }
        match self {
            Source::Mem(m) => {
                let ghost ch = m.s_channels() as int;
                let ghost len = m.s_data().len() as int;
                let ghost pos0 = m.s_pos();
                let ghost space = old(buf).len() - start;
                let w = m.write_samples(buf, start);
                proof {
                    lemma_mod_combine(len, pos0, ch);
                    assert(w as int == space || w as int == len - pos0);
                    lemma_mod_combine(pos0, w as int, ch);
                }
                w
            },
            Source::Rate { inner, to } => inner.write_samples(buf, start),
            Source::Channels { inner, to } => {
                let from_u16 = inner.channels();
                let from = from_u16 as usize;
                let tt = *to as usize;
                let space = buf.len() - start;
                let frames = space / tt;
                let irem = inner.remaining();
                proof {
                    lemma_wf_bounds(**inner);
                }
                let frames_avail = irem / from;
                let use_frames = if frames < frames_avail {
                    frames
                } else {
                    frames_avail
                };
                let ghost idata = (**inner).data_spec();
                let ghost ipos = (**inner).pos_spec();
                let ghost fi = from as int;
                let ghost ti = tt as int;
                let ghost ilen = idata.len() as int;
                let ghost odata = chan_convert(idata, fi, ti);
                let ghost opos = ipos / fi * ti;
                proof {
                    lemma_wf_bounds(**inner);
                    lemma_mod_combine(ilen, ipos, fi);
                    assert(irem as int % fi == 0);
                    assert(frames_avail as int * fi == irem as int && use_frames * fi
                        <= irem as int) by (nonlinear_arith)
                        requires
                            fi >= 1,
                            irem as int % fi == 0,
                            frames_avail as int == irem as int / fi,
                            use_frames <= frames_avail,
                            irem as int >= 0,
                    ;
                    vstd::arithmetic::div_mod::lemma_fundamental_div_mod(
                        (old(buf).len() - start) as int,
                        ti,
                    );
                    assert(old(buf).len() - start == ti * (frames as int));
                    assert(ti * (frames as int) == frames as int * ti) by (nonlinear_arith);
                    assert(frames as int * ti == old(buf).len() - start);
                    assert(use_frames as int * ti <= frames as int * ti && 0 <= use_frames
                        as int * ti && ilen / fi * ti >= 0) by (nonlinear_arith)
                        requires
                            ti >= 1,
                            fi >= 1,
                            0 <= use_frames <= frames,
                            ilen >= 0,
                    ;
                }
                let iwant = use_frames * from;
                proof {
                    vstd::arithmetic::div_mod::lemma_mod_multiples_basic(use_frames as int, fi);
                }
                let mut scratch = zero_vec(iwant);
                let wi = inner.write_samples(&mut scratch, 0);
                proof {
                    assert(wi == iwant);
                    assert forall|k: int| 0 <= k < wi implies #[trigger] scratch[k] == idata[ipos
                        + k] by {
                        assert(scratch[0 + k] == idata[ipos + k]);
                    }
                }
                let mut f: usize = 0;
                while f < use_frames
                    invariant
                        f <= use_frames,
                        tt == ti,
                        from == fi,
                        fi >= 1,
                        ti >= 1,
                        use_frames * fi == wi,
                        wi == scratch.len(),
                        use_frames * ti <= buf.len() - start,
                        buf.len() == old(buf).len(),
                        0 <= ipos,
                        ipos % fi == 0,
                        ipos + wi <= ilen,
                        ilen % fi == 0,
                        idata.len() == ilen,
                        odata == chan_convert(idata, fi, ti),
                        opos == ipos / fi * ti,
                        forall|k: int| 0 <= k < wi ==> #[trigger] scratch[k] == idata[ipos + k],
                        forall|x: int|
                            0 <= x < f * ti ==> #[trigger] buf[start + x] == odata[opos + x],
                        forall|j: int|
                            0 <= j < start || start + f * ti <= j < buf.len() ==> buf[j] == old(
                                buf,
                            )[j],
                    decreases use_frames - f,
                {
                    proof {
                        assert(f * fi + fi <= use_frames * fi && f * ti + ti <= use_frames * ti
                            && f * ti >= 0 && f * fi >= 0) by (nonlinear_arith)
                            requires
                                0 <= f < use_frames,
                                fi >= 1,
                                ti >= 1,
                        ;
                    }
                    let v = scratch[f * from];
                    let mut j: usize = 0;
                    while j < tt
                        invariant
                            j <= tt,
                            tt == ti,
                            from == fi,
                            fi >= 1,
                            ti >= 1,
                            0 <= f < use_frames,
                            use_frames * fi == wi,
                            wi == scratch.len(),
                            use_frames * ti <= buf.len() - start,
                            f * ti + ti <= use_frames * ti,
                            f * fi + fi <= wi,
                            buf.len() == old(buf).len(),
                            0 <= ipos,
                            ipos % fi == 0,
                            ipos + wi <= ilen,
                            ilen % fi == 0,
                            idata.len() == ilen,
                            v == idata[ipos + f * fi],
                            odata == chan_convert(idata, fi, ti),
                            opos == ipos / fi * ti,
                            forall|x: int|
                                0 <= x < f * ti + j ==> #[trigger] buf[start + x] == odata[opos
                                    + x],
                            forall|k: int|
                                0 <= k < start || start + f * ti + j <= k < buf.len() ==> buf[k]
                                    == old(buf)[k],
                        decreases tt - j,
                    {
                        proof {
                            lemma_chan_index(idata, fi, ti, ipos, f as int, j as int);
                            assert(opos + (f * ti + j) == ipos / fi * ti + f * ti + j);
                        }
                        buf.set(start + f * tt + j, v);
                        j = j + 1;
                    }
                    proof {
                        assert((f + 1) * ti == f * ti + ti) by (nonlinear_arith);
                    }
                    f = f + 1;
                }
                let w = use_frames * tt;
                proof {
                    let orem = odata.len() - opos;
                    assert(odata.len() == ilen / fi * ti);
                    assert(ilen / fi - ipos / fi == irem as int / fi) by (nonlinear_arith)
                        requires
                            fi >= 1,
                            ilen % fi == 0,
                            ipos % fi == 0,
                            0 <= ipos <= ilen,
                            irem as int == ilen - ipos,
                    ;
                    assert(orem == frames_avail as int * ti && w as int == use_frames as int
                        * ti) by (nonlinear_arith)
                        requires
                            orem == ilen / fi * ti - ipos / fi * ti,
                            ilen / fi - ipos / fi == frames_avail as int,
                            w as int == use_frames as int * ti,
                    ;
                    assert(w as int == vstd::math::min(buf.len() - start,
                        orem)) by (nonlinear_arith)
                        requires
                            ti >= 1,
                            w as int == use_frames as int * ti,
                            orem == frames_avail as int * ti,
                            use_frames == if frames < frames_avail { frames } else { frames_avail },
                            frames as int == (buf.len() - start) as int / ti,
                            (buf.len() - start) as int % ti == 0,
                            buf.len() - start >= 0,
                    ;
                    vstd::arithmetic::div_mod::lemma_fundamental_div_mod(ipos, fi);
                    assert(ipos + wi == fi * (ipos / fi + use_frames as int)) by (nonlinear_arith)
                        requires
                            ipos == fi * (ipos / fi),
                            wi as int == use_frames as int * fi,
                    ;
                    vstd::arithmetic::div_mod::lemma_div_multiples_vanish(
                        ipos / fi + use_frames as int,
                        fi,
                    );
                    assert((ipos / fi + use_frames as int) * ti == opos + w as int)
                        by (nonlinear_arith)
                        requires
                            opos == ipos / fi * ti,
                            w as int == use_frames as int * ti,
                    ;
                }
                w
            },
        }
    }
}


} // verus!
