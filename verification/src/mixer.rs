//! The mixer: a partitioned collection of sounds and the per-buffer
//! mixing algorithm.
//!
//! The mixer owns an ordered sequence of sound entries split into a
//! playing prefix `[0, playing)` and an idle suffix `[playing, len)`.
//! Lifecycle operations are keyed by sound identifier and silently do
//! nothing when the identifier is unknown.  The order of entries within
//! each partition is unspecified and may change under any operation;
//! contracts therefore pin down partition membership and entry contents
//! rather than positions.
//!
//! All fields and entry fields are public so that contracts can speak
//! about them directly; `wf` is the validity every operation assumes
//! and preserves, and mutating the fields directly may break it.

use vstd::prelude::*;
use crate::source::Source;
use crate::source::zero_vec;
use crate::source::lemma_mod_combine;
use crate::sample::clamp_i16;
use crate::sample::scale_spec;
use crate::sample::sat_add_i16;
use crate::sample::scale_sample;
use crate::sample::UNIT_VOLUME;

verus! {

/// The number of samples processed per second for a single channel of
/// audio.
#[derive(Debug, Clone, Copy, PartialEq, Eq, PartialOrd, Ord, Structural)]
pub struct SampleRate(pub u32);

/// A per-sample effect transform, applied to a sound's output before
/// volume scaling and summation.
///
/// `apply` may keep internal state, but the transform it computes,
/// described by `e_apply`, stays the same across calls.
pub trait Effect {
    /// The transform as a mathematical function.
    spec fn e_apply(&self, s: i16) -> i16;

    /// Apply the transform to one sample.
    fn apply(&mut self, s: i16) -> (r: i16)
        ensures
            r == old(self).e_apply(s),
            forall|x: i16| #[trigger] final(self).e_apply(x) == old(self).e_apply(x),
    ;
}

/// The identity effect: samples pass through unchanged.
pub struct IdentityEffect;

impl Effect for IdentityEffect {
    open spec fn e_apply(&self, s: i16) -> i16 {
        s
    }

    fn apply(&mut self, s: i16) -> (r: i16) {
        s
    }
}

/// An effect that silences every sample.
pub struct MuteEffect;

impl Effect for MuteEffect {
    open spec fn e_apply(&self, s: i16) -> i16 {
        0
    }

    fn apply(&mut self, s: i16) -> (r: i16) {
        0
    }
}

/// One sound in the mixer: the source slot plus its playback settings.
pub struct SoundInner<E> {
    /// The identity key; never reused within one mixer.
    pub id: u64,
    /// The replaceable source slot.
    pub data: Source,
    /// Volume in quanta of `1 / 32767`; `UNIT_VOLUME` is unity.
    pub volume: u32,
    /// Whether the sound restarts from its beginning when it runs out.
    pub looping: bool,
    /// Set when the handle is gone: remove the entry once it finishes a
    /// non-looping pass.
    pub pending_drop: bool,
    /// The effect transform.
    pub effect: E,
}

impl<E> SoundInner<E> {
    /// A fresh entry: unity volume, not looping, not pending removal.
    pub fn new(id: u64, data: Source, effect: E) -> (r: Self)
        ensures
            r == (SoundInner { id, data, volume: UNIT_VOLUME, looping: false, pending_drop: false, effect }),
    {
        SoundInner { id, data, volume: UNIT_VOLUME, looping: false, pending_drop: false, effect }
    }
}

/// Mint a fresh sound identifier from a monotonically increasing
/// counter: the current value is handed out and the counter advances.
pub fn next_id(counter: &mut u64) -> (id: u64)
    requires
        *old(counter) < u64::MAX,
    ensures
        id == *old(counter),
        *final(counter) == *old(counter) + 1,
{
    let id = *counter;
    *counter = *counter + 1;
    id
}

/// No two entries share an identifier.
pub open spec fn distinct_ids<E>(s: Seq<SoundInner<E>>) -> bool {
    forall|i: int, j: int| 0 <= i < j < s.len() ==> s[i].id != s[j].id
}

/// Every entry's source slot is valid.
pub open spec fn sources_wf<E>(s: Seq<SoundInner<E>>) -> bool {
    forall|k: int| 0 <= k < s.len() ==> (#[trigger] s[k].data).wf()
}

/// Every entry's identifier was minted before `n`.
pub open spec fn ids_below<E>(s: Seq<SoundInner<E>>, n: u64) -> bool {
    forall|k: int| 0 <= k < s.len() ==> (#[trigger] s[k].id) < n
}

/// Keeps track of each sound and mixes their output together.
pub struct Mixer<E> {
    /// The entries, partitioned into `[0, playing)` and `[playing, len)`.
    pub sounds: Vec<SoundInner<E>>,
    /// The size of the playing prefix.
    pub playing: usize,
    /// The number of interleaved output channels.
    pub channels: u16,
    /// The output sample rate.
    pub sample_rate: SampleRate,
    /// The counter the next sound identifier is minted from.
    pub counter: u64,
}

impl<E: Effect> Mixer<E> {
    /// Validity: the playing prefix fits, source slots are valid,
    /// identifiers are distinct and below the mint counter.
    pub open spec fn wf(self) -> bool {
        &&& self.playing <= self.sounds.len()
        &&& distinct_ids(self.sounds@)
        &&& sources_wf(self.sounds@)
        &&& ids_below(self.sounds@, self.counter)
    }

    /// An empty mixer with the given output format.
    pub fn new(channels: u16, sample_rate: SampleRate) -> (r: Self)
        ensures
            r.wf(),
            r.sounds@.len() == 0,
            r.playing == 0,
            r.channels == channels,
            r.sample_rate == sample_rate,
            r.counter == 0,
    {
        Mixer { sounds: Vec::new(), playing: 0, channels, sample_rate, counter: 0 }
    }

    /// Add a sound to the idle partition with unity volume, no looping
    /// and the given effect; returns its fresh identifier.
    pub fn add_sound(&mut self, sound: Source, effect: E) -> (id: u64)
        requires
            old(self).wf(),
            sound.wf(),
            old(self).counter < u64::MAX,
        ensures
            final(self).wf(),
            id == old(self).counter,
            final(self).counter == old(self).counter + 1,
            final(self).playing == old(self).playing,
            final(self).channels == old(self).channels,
            final(self).sample_rate == old(self).sample_rate,
            final(self).sounds@ == old(self).sounds@.push(
                (SoundInner {
                    id,
                    data: sound,
                    volume: UNIT_VOLUME,
                    looping: false,
                    pending_drop: false,
                    effect,
                }),
            ),
    {
        let id = next_id(&mut self.counter);
        let entry = SoundInner::new(id, sound, effect);
        self.sounds.push(entry);
        id
    }

    /// Scan `[lo, hi)` for the entry with the given identifier.
    fn find_in(&self, lo: usize, hi: usize, id: u64) -> (r: Option<usize>)
        requires
            lo <= hi <= self.sounds.len(),
        ensures
            match r {
                Some(j) => lo <= j < hi && self.sounds@[j as int].id == id,
                None => forall|k: int| lo <= k < hi ==> self.sounds@[k].id != id,
            },
    {
        let mut i: usize = hi;
        while i > lo
            invariant
                lo <= i <= hi <= self.sounds.len(),
                forall|k: int| i <= k < hi ==> self.sounds@[k].id != id,
            decreases i,
        {
            i = i - 1;
            if self.sounds[i].id == id {
                return Some(i);
            }
        }
        None
    }
}

/// Moving one entry (possibly with a rewritten source slot) to another
/// position keeps the identifiers distinct, the slots valid and the
/// identifiers below the mint counter.
proof fn lemma_relocate_entry<E: Effect>(
    s0: Seq<SoundInner<E>>,
    k: int,
    p: int,
    e: SoundInner<E>,
    n: u64,
)
    requires
        0 <= k < s0.len(),
        0 <= p <= s0.len() - 1,
        e.id == s0[k].id,
        e.data.wf(),
        distinct_ids(s0),
        sources_wf(s0),
        ids_below(s0, n),
    ensures
        s0.remove(k).insert(p, e).len() == s0.len(),
        distinct_ids(s0.remove(k).insert(p, e)),
        sources_wf(s0.remove(k).insert(p, e)),
        ids_below(s0.remove(k).insert(p, e), n),
{
    let s1 = s0.remove(k);
    let s2 = s1.insert(p, e);
    s0.remove_ensures(k);
    s1.insert_ensures(p, e);
    assert forall|i: int| 0 <= i < s2.len() implies (#[trigger] s2[i]).id < n && s2[i].data.wf()
        && (exists|j: int| 0 <= j < s0.len() && s2[i].id == s0[j].id && (i == p <==> j == k)) by {
        if i == p {
            assert(s2[i] == e);
            assert(s2[i].id == s0[k].id);
        } else if i < p {
            assert(s2[i] == s1[i]);
            if i < k {
                assert(s1[i] == s0[i]);
            } else {
                assert(s1[i] == s0[i + 1]);
            }
        } else {
            assert(s2[i] == s1[i - 1]);
            if i - 1 < k {
                assert(s1[i - 1] == s0[i - 1]);
            } else {
                assert(s1[i - 1] == s0[i]);
            }
        }
    }
    assert forall|i: int, j: int| 0 <= i < j < s2.len() implies s2[i].id != s2[j].id by {
        let ii = choose|x: int|
            0 <= x < s0.len() && s2[i].id == s0[x].id && (i == p <==> x == k);
        let jj = choose|x: int|
            0 <= x < s0.len() && s2[j].id == s0[x].id && (j == p <==> x == k);
        if ii == jj {
            assert(i == p <==> ii == k);
            assert(j == p <==> jj == k);
            assert(i != j);
            assert(false);
        }
    }
}


/// `remove` followed by `insert` at the same place is a pointwise
/// update.
proof fn lemma_remove_insert_same<T>(s: Seq<T>, k: int, v: T)
    requires
        0 <= k < s.len(),
    ensures
        s.remove(k).insert(k, v) == s.update(k, v),
{
    s.remove_ensures(k);
    s.remove(k).insert_ensures(k, v);
    assert(s.remove(k).insert(k, v) =~= s.update(k, v));
}

/// `b` is `a` with its source rewound to the start: every setting and
/// the presented sequence are unchanged and the read position is zero.
pub open spec fn reset_like<E>(a: SoundInner<E>, b: SoundInner<E>) -> bool {
    &&& b.id == a.id
    &&& b.volume == a.volume
    &&& b.looping == a.looping
    &&& b.pending_drop == a.pending_drop
    &&& b.effect == a.effect
    &&& b.data.wf()
    &&& b.data.data_spec() == a.data.data_spec()
    &&& b.data.pos_spec() == 0
    &&& b.data.channels_spec() == a.data.channels_spec()
    &&& b.data.rate_spec() == a.data.rate_spec()
}

impl<E: Effect> Mixer<E> {
    /// If the sound is paused or stopped, move it into the playing
    /// partition; if it is already playing or unknown, do nothing.
    /// The read position is not changed.
    pub fn play(&mut self, id: u64)
        requires
            old(self).wf(),
        ensures
            final(self).wf(),
            final(self).channels == old(self).channels,
            final(self).sample_rate == old(self).sample_rate,
            final(self).counter == old(self).counter,
            (forall|k: int|
                old(self).playing <= k < old(self).sounds@.len() ==> old(self).sounds@[k].id
                    != id) ==> *final(self) == *old(self),
            forall|k: int|
                old(self).playing <= k < old(self).sounds@.len() && old(self).sounds@[k].id == id
                    ==> final(self).playing == old(self).playing + 1 && final(self).sounds@
                    == old(self).sounds@.remove(k).insert(
                    old(self).playing as int,
                    old(self).sounds@[k],
                ),
    {
        match self.find_in(self.playing, self.sounds.len(), id) {
            Some(i) => {
                let ghost s0 = self.sounds@;
                let e = self.sounds.remove(i);
                self.sounds.insert(self.playing, e);
                self.playing = self.playing + 1;
                proof {
                    lemma_relocate_entry(
                        s0,
                        i as int,
                        old(self).playing as int,
                        s0[i as int],
                        old(self).counter,
                    );
                    assert forall|k: int|
                        old(self).playing <= k < s0.len() && s0[k].id == id implies k
                        == i as int by {
                        if k != i as int {
                            assert(s0[k].id != s0[i as int].id);
                        }
                    }
                }
            },
            None => {},
        }
    }

    /// If the sound is playing, move it out of the playing partition;
    /// otherwise do nothing.  The read position is retained.
    pub fn pause(&mut self, id: u64)
        requires
            old(self).wf(),
        ensures
            final(self).wf(),
            final(self).channels == old(self).channels,
            final(self).sample_rate == old(self).sample_rate,
            final(self).counter == old(self).counter,
            (forall|k: int|
                0 <= k < old(self).playing ==> old(self).sounds@[k].id != id) ==> *final(self)
                == *old(self),
            forall|k: int|
                0 <= k < old(self).playing && old(self).sounds@[k].id == id ==> final(self).playing == old(self).playing - 1 && final(self).sounds@ == old(self).sounds@.remove(k).insert(old(self).playing - 1, old(self).sounds@[k]),
    {
        match self.find_in(0, self.playing, id) {
            Some(i) => {
                let ghost s0 = self.sounds@;
                let e = self.sounds.remove(i);
                self.playing = self.playing - 1;
                self.sounds.insert(self.playing, e);
                proof {
                    lemma_relocate_entry(
                        s0,
                        i as int,
                        old(self).playing - 1,
                        s0[i as int],
                        old(self).counter,
                    );
                    assert forall|k: int|
                        0 <= k < old(self).playing && s0[k].id == id implies k == i as int by {
                        if k != i as int {
                            assert(s0[k].id != s0[i as int].id);
                        }
                    }
                }
            },
            None => {},
        }
    }

    /// Rewind the sound to its start; if it was playing, also move it
    /// out of the playing partition.  Unknown identifiers do nothing.
    pub fn stop(&mut self, id: u64)
        requires
            old(self).wf(),
        ensures
            final(self).wf(),
            final(self).channels == old(self).channels,
            final(self).sample_rate == old(self).sample_rate,
            final(self).counter == old(self).counter,
            (forall|k: int|
                0 <= k < old(self).sounds@.len() ==> old(self).sounds@[k].id != id) ==> *final(self) == *old(self),
            forall|k: int|
                0 <= k < old(self).playing && old(self).sounds@[k].id == id ==> final(self).playing == old(self).playing - 1 && reset_like(
                    old(self).sounds@[k],
                    final(self).sounds@[old(self).playing - 1],
                ) && final(self).sounds@ == old(self).sounds@.remove(k).insert(
                    old(self).playing - 1,
                    final(self).sounds@[old(self).playing - 1],
                ),
            forall|k: int|
                old(self).playing <= k < old(self).sounds@.len() && old(self).sounds@[k].id == id
                    ==> final(self).playing == old(self).playing && reset_like(
                    old(self).sounds@[k],
                    final(self).sounds@[k],
                ) && final(self).sounds@ == old(self).sounds@.update(k, final(self).sounds@[k]),
    {
        match self.find_in(0, self.sounds.len(), id) {
            Some(i) => {
                let ghost s0 = self.sounds@;
                let mut e = self.sounds.remove(i);
                e.data.reset();
                proof {
                    assert forall|k: int|
                        0 <= k < s0.len() && s0[k].id == id implies k == i as int by {
                        if k != i as int {
                            assert(s0[k].id != s0[i as int].id);
                        }
                    }
                }
                if i < self.playing {
                    self.playing = self.playing - 1;
                    self.sounds.insert(self.playing, e);
                    proof {
                        lemma_relocate_entry(
                            s0,
                            i as int,
                            old(self).playing - 1,
                            final(self).sounds@[old(self).playing - 1],
                            old(self).counter,
                        );
                    }
                } else {
                    self.sounds.insert(i, e);
                    proof {
                        lemma_relocate_entry(
                            s0,
                            i as int,
                            i as int,
                            final(self).sounds@[i as int],
                            old(self).counter,
                        );
                        lemma_remove_insert_same(s0, i as int, final(self).sounds@[i as int]);
                    }
                }
            },
            None => {},
        }
    }

    /// Rewind the sound to its start without changing whether it is
    /// playing.  Unknown identifiers do nothing.
    pub fn reset(&mut self, id: u64)
        requires
            old(self).wf(),
        ensures
            final(self).wf(),
            final(self).channels == old(self).channels,
            final(self).sample_rate == old(self).sample_rate,
            final(self).counter == old(self).counter,
            final(self).playing == old(self).playing,
            (forall|k: int|
                0 <= k < old(self).sounds@.len() ==> old(self).sounds@[k].id != id) ==> *final(self) == *old(self),
            forall|k: int|
                0 <= k < old(self).sounds@.len() && old(self).sounds@[k].id == id ==> reset_like(
                    old(self).sounds@[k],
                    final(self).sounds@[k],
                ) && final(self).sounds@ == old(self).sounds@.update(k, final(self).sounds@[k]),
    {
        match self.find_in(0, self.sounds.len(), id) {
            Some(i) => {
                let ghost s0 = self.sounds@;
                let mut e = self.sounds.remove(i);
                e.data.reset();
                self.sounds.insert(i, e);
                proof {
                    assert forall|k: int|
                        0 <= k < s0.len() && s0[k].id == id implies k == i as int by {
                        if k != i as int {
                            assert(s0[k].id != s0[i as int].id);
                        }
                    }
                    lemma_relocate_entry(
                        s0,
                        i as int,
                        i as int,
                        final(self).sounds@[i as int],
                        old(self).counter,
                    );
                    lemma_remove_insert_same(s0, i as int, final(self).sounds@[i as int]);
                }
            },
            None => {},
        }
    }
}


impl<E: Effect> Mixer<E> {
    /// Set the volume of the sound, in quanta of `1 / 32767`.
    /// Unknown identifiers do nothing.
    pub fn set_volume(&mut self, id: u64, volume: u32)
        requires
            old(self).wf(),
        ensures
            final(self).wf(),
            final(self).channels == old(self).channels,
            final(self).sample_rate == old(self).sample_rate,
            final(self).counter == old(self).counter,
            final(self).playing == old(self).playing,
            (forall|k: int|
                0 <= k < old(self).sounds@.len() ==> old(self).sounds@[k].id != id) ==> *final(self)
                == *old(self),
            forall|k: int|
                0 <= k < old(self).sounds@.len() && old(self).sounds@[k].id == id ==> final(self).sounds@
                    == old(self).sounds@.update(
                    k,
                    (SoundInner {
                        id: old(self).sounds@[k].id,
                        data: old(self).sounds@[k].data,
                        volume,
                        looping: old(self).sounds@[k].looping,
                        pending_drop: old(self).sounds@[k].pending_drop,
                        effect: old(self).sounds@[k].effect,
                    }),
                ),
    {
        match self.find_in(0, self.sounds.len(), id) {
            Some(i) => {
                let ghost s0 = self.sounds@;
                let mut e = self.sounds.remove(i);
                e.volume = volume;
                self.sounds.insert(i, e);
                proof {
                    assert forall|k: int|
                        0 <= k < s0.len() && s0[k].id == id implies k == i as int by {
                        if k != i as int {
                            assert(s0[k].id != s0[i as int].id);
                        }
                    }
                    lemma_relocate_entry(
                        s0,
                        i as int,
                        i as int,
                        final(self).sounds@[i as int],
                        old(self).counter,
                    );
                    lemma_remove_insert_same(s0, i as int, final(self).sounds@[i as int]);
                }
            },
            None => {},
        }
    }

    /// Set whether the sound repeats every time it reaches its end.
    /// Unknown identifiers do nothing.
    pub fn set_loop(&mut self, id: u64, looping: bool)
        requires
            old(self).wf(),
        ensures
            final(self).wf(),
            final(self).channels == old(self).channels,
            final(self).sample_rate == old(self).sample_rate,
            final(self).counter == old(self).counter,
            final(self).playing == old(self).playing,
            (forall|k: int|
                0 <= k < old(self).sounds@.len() ==> old(self).sounds@[k].id != id) ==> *final(self)
                == *old(self),
            forall|k: int|
                0 <= k < old(self).sounds@.len() && old(self).sounds@[k].id == id ==> final(self).sounds@
                    == old(self).sounds@.update(
                    k,
                    (SoundInner {
                        id: old(self).sounds@[k].id,
                        data: old(self).sounds@[k].data,
                        volume: old(self).sounds@[k].volume,
                        looping,
                        pending_drop: old(self).sounds@[k].pending_drop,
                        effect: old(self).sounds@[k].effect,
                    }),
                ),
    {
        match self.find_in(0, self.sounds.len(), id) {
            Some(i) => {
                let ghost s0 = self.sounds@;
                let mut e = self.sounds.remove(i);
                e.looping = looping;
                self.sounds.insert(i, e);
                proof {
                    assert forall|k: int|
                        0 <= k < s0.len() && s0[k].id == id implies k == i as int by {
                        if k != i as int {
                            assert(s0[k].id != s0[i as int].id);
                        }
                    }
                    lemma_relocate_entry(
                        s0,
                        i as int,
                        i as int,
                        final(self).sounds@[i as int],
                        old(self).counter,
                    );
                    lemma_remove_insert_same(s0, i as int, final(self).sounds@[i as int]);
                }
            },
            None => {},
        }
    }

    /// Mark the sound for removal once it finishes a non-looping pass;
    /// until then it keeps playing.  Unknown identifiers do nothing.
    pub fn drop_sound(&mut self, id: u64)
        requires
            old(self).wf(),
        ensures
            final(self).wf(),
            final(self).channels == old(self).channels,
            final(self).sample_rate == old(self).sample_rate,
            final(self).counter == old(self).counter,
            final(self).playing == old(self).playing,
            (forall|k: int|
                0 <= k < old(self).sounds@.len() ==> old(self).sounds@[k].id != id) ==> *final(self)
                == *old(self),
            forall|k: int|
                0 <= k < old(self).sounds@.len() && old(self).sounds@[k].id == id ==> final(self).sounds@
                    == old(self).sounds@.update(
                    k,
                    (SoundInner {
                        id: old(self).sounds@[k].id,
                        data: old(self).sounds@[k].data,
                        volume: old(self).sounds@[k].volume,
                        looping: old(self).sounds@[k].looping,
                        pending_drop: true,
                        effect: old(self).sounds@[k].effect,
                    }),
                ),
    {
        match self.find_in(0, self.sounds.len(), id) {
            Some(i) => {
                let ghost s0 = self.sounds@;
                let mut e = self.sounds.remove(i);
                e.pending_drop = true;
                self.sounds.insert(i, e);
                proof {
                    assert forall|k: int|
                        0 <= k < s0.len() && s0[k].id == id implies k == i as int by {
                        if k != i as int {
                            assert(s0[k].id != s0[i as int].id);
                        }
                    }
                    lemma_relocate_entry(
                        s0,
                        i as int,
                        i as int,
                        final(self).sounds@[i as int],
                        old(self).counter,
                    );
                    lemma_remove_insert_same(s0, i as int, final(self).sounds@[i as int]);
                }
            },
            None => {},
        }
    }

    /// Replace the sound's effect transform.  Unknown identifiers do
    /// nothing.
    pub fn update_effect(&mut self, id: u64, effect: E)
        requires
            old(self).wf(),
        ensures
            final(self).wf(),
            final(self).channels == old(self).channels,
            final(self).sample_rate == old(self).sample_rate,
            final(self).counter == old(self).counter,
            final(self).playing == old(self).playing,
            (forall|k: int|
                0 <= k < old(self).sounds@.len() ==> old(self).sounds@[k].id != id) ==> *final(self)
                == *old(self),
            forall|k: int|
                0 <= k < old(self).sounds@.len() && old(self).sounds@[k].id == id ==> final(self).sounds@
                    == old(self).sounds@.update(
                    k,
                    (SoundInner {
                        id: old(self).sounds@[k].id,
                        data: old(self).sounds@[k].data,
                        volume: old(self).sounds@[k].volume,
                        looping: old(self).sounds@[k].looping,
                        pending_drop: old(self).sounds@[k].pending_drop,
                        effect,
                    }),
                ),
    {
        match self.find_in(0, self.sounds.len(), id) {
            Some(i) => {
                let ghost s0 = self.sounds@;
                let mut e = self.sounds.remove(i);
                e.effect = effect;
                self.sounds.insert(i, e);
                proof {
                    assert forall|k: int|
                        0 <= k < s0.len() && s0[k].id == id implies k == i as int by {
                        if k != i as int {
                            assert(s0[k].id != s0[i as int].id);
                        }
                    }
                    lemma_relocate_entry(
                        s0,
                        i as int,
                        i as int,
                        final(self).sounds@[i as int],
                        old(self).counter,
                    );
                    lemma_remove_insert_same(s0, i as int, final(self).sounds@[i as int]);
                }
            },
            None => {},
        }
    }
}


/// `b` is `a` re-framed for the new output format: untouched when the
/// format already matches, wrapped by a channel adapter and then a rate
/// adapter when the respective dimension differs.
pub open spec fn converted_slot(a: Source, b: Source, ch: u16, rt: u32) -> bool {
    &&& b.wf()
    &&& b.channels_spec() == ch
    &&& b.rate_spec() == rt
    &&& (a.channels_spec() == ch && a.rate_spec() == rt ==> b == a)
    &&& (a.channels_spec() == ch ==> b.data_spec() == a.data_spec() && b.pos_spec()
        == a.pos_spec())
    &&& (a.channels_spec() != ch ==> b.data_spec() == crate::source::chan_convert(
        a.data_spec(),
        a.channels_spec() as int,
        ch as int,
    ) && b.pos_spec() == a.pos_spec() / (a.channels_spec() as int) * (ch as int))
}

/// The entry after reconfiguration: settings unchanged, the source
/// slot converted.
pub open spec fn converted_entry<E>(a: SoundInner<E>, b: SoundInner<E>, ch: u16, rt: u32) -> bool {
    &&& b.id == a.id
    &&& b.volume == a.volume
    &&& b.looping == a.looping
    &&& b.pending_drop == a.pending_drop
    &&& b.effect == a.effect
    &&& converted_slot(a.data, b.data, ch, rt)
}

impl<E: Effect> Mixer<E> {
    /// Change the number of channels and the sample rate.
    ///
    /// If nothing changes this is a no-op.  Otherwise every entry whose
    /// source differs from the new format is re-wrapped in place with a
    /// channel adapter and then a rate adapter, each only if its
    /// dimension actually differs, keeping the entry order and every
    /// read position.
    pub fn set_config(&mut self, channels: u16, sample_rate: SampleRate)
        requires
            old(self).wf(),
            channels >= 1,
            sample_rate.0 >= 1,
            forall|k: int|
                0 <= k < old(self).sounds@.len() ==> (#[trigger] old(self).sounds@[k].data).data_spec().len() as int
                    / (old(self).sounds@[k].data.channels_spec() as int) * (channels as int)
                    <= usize::MAX as int,
        ensures
            final(self).wf(),
            final(self).channels == channels,
            final(self).sample_rate == sample_rate,
            final(self).counter == old(self).counter,
            final(self).playing == old(self).playing,
            final(self).sounds@.len() == old(self).sounds@.len(),
            channels == old(self).channels && sample_rate == old(self).sample_rate ==> *final(self)
                == *old(self),
            channels != old(self).channels || sample_rate != old(self).sample_rate ==> forall|
                k: int,
            |
                0 <= k < old(self).sounds@.len() ==> converted_entry(
                    old(self).sounds@[k],
                    #[trigger] final(self).sounds@[k],
                    channels,
                    sample_rate.0,
                ),
    {
        if channels == self.channels && sample_rate == self.sample_rate {
            return ;
        }
        let n = self.sounds.len();
        let mut k: usize = 0;
        while k < n
            invariant
                k <= n,
                n == self.sounds.len(),
                n == old(self).sounds@.len(),
                self.playing == old(self).playing,
                self.channels == old(self).channels,
                self.sample_rate == old(self).sample_rate,
                self.counter == old(self).counter,
                channels >= 1,
                sample_rate.0 >= 1,
                self.playing <= n,
                forall|j: int|
                    0 <= j < n ==> (#[trigger] old(self).sounds@[j].data).data_spec().len() as int
                        / (old(self).sounds@[j].data.channels_spec() as int) * (channels as int)
                        <= usize::MAX as int,
                distinct_ids(self.sounds@),
                sources_wf(self.sounds@),
                ids_below(self.sounds@, self.counter),
                forall|j: int| k <= j < n ==> self.sounds@[j] == old(self).sounds@[j],
                forall|j: int|
                    0 <= j < k ==> converted_entry(
                        old(self).sounds@[j],
                        #[trigger] self.sounds@[j],
                        channels,
                        sample_rate.0,
                    ),
            decreases n - k,
        {
            let ghost sc = self.sounds@;
            let e = self.sounds.remove(k);
            let SoundInner { id: eid, data: d0, volume, looping, pending_drop, effect } = e;
            proof {
                assert(sc[k as int] == old(self).sounds@[k as int]);
                assert(d0 == old(self).sounds@[k as int].data);
                assert(d0.wf());
                assert(old(self).sounds@[k as int].data.data_spec().len() as int / (old(self).sounds@[k as int].data.channels_spec() as int) * (channels as int)
                    <= usize::MAX as int);
            }
            let ghost a = sc[k as int].data;
            let sch = d0.channels();
            let d1 = if sch != channels {
                let b = Source::Channels { inner: Box::new(d0), to: channels };
                proof {
                    assert(b.wf());
                    assert(b.channels_spec() == channels);
                    assert(b.data_spec() == crate::source::chan_convert(
                        a.data_spec(),
                        a.channels_spec() as int,
                        channels as int,
                    ));
                    assert(b.pos_spec() == a.pos_spec() / (a.channels_spec() as int) * (
                    channels as int));
                }
                b
            } else {
                d0
            };
            proof {
                assert(d1.wf());
                assert(d1.channels_spec() == channels);
            }
            let srate = d1.sample_rate();
            let d2 = if srate != sample_rate.0 {
                let b = Source::Rate { inner: Box::new(d1), to: sample_rate.0 };
                proof {
                    assert(b.wf());
                    assert(b.channels_spec() == d1.channels_spec());
                    assert(b.rate_spec() == sample_rate.0);
                    assert(b.data_spec() == d1.data_spec());
                    assert(b.pos_spec() == d1.pos_spec());
                }
                b
            } else {
                d1
            };
            let e2 = SoundInner {
                id: eid,
                data: d2,
                volume,
                looping,
                pending_drop,
                effect,
            };
            self.sounds.insert(k, e2);
            proof {
                let a = sc[k as int].data;
                assert(d2.wf());
                assert(d2.channels_spec() == channels);
                assert(d2.rate_spec() == sample_rate.0);
                assert(a.channels_spec() == channels && a.rate_spec() == sample_rate.0 ==> d2
                    == a);
                assert(a.channels_spec() == channels ==> d2.data_spec() == a.data_spec()
                    && d2.pos_spec() == a.pos_spec());
                assert(a.channels_spec() != channels ==> d2.data_spec()
                    == crate::source::chan_convert(
                    a.data_spec(),
                    a.channels_spec() as int,
                    channels as int,
                ) && d2.pos_spec() == a.pos_spec() / (a.channels_spec() as int) * (
                channels as int));
                assert(converted_slot(sc[k as int].data, d2, channels, sample_rate.0));
                lemma_relocate_entry(
                    sc,
                    k as int,
                    k as int,
                    self.sounds@[k as int],
                    old(self).counter,
                );
                lemma_remove_insert_same(sc, k as int, self.sounds@[k as int]);
            }
            k = k + 1;
        }
        self.channels = channels;
        self.sample_rate = sample_rate;
    }

    /// The number of interleaved output channels.
    pub fn channels(&self) -> (r: u16)
        ensures
            r == self.channels,
    {
        self.channels
    }

    /// The output sample rate.
    pub fn sample_rate(&self) -> (r: u32)
        ensures
            r == self.sample_rate.0,
    {
        self.sample_rate.0
    }
}


/// How many samples the entry contributes to a buffer of `total`
/// samples: a looping sound with content always fills the whole
/// buffer, any other sound contributes what is left of its sequence.
pub open spec fn contrib_len_spec<E: Effect>(e: SoundInner<E>, total: int) -> int {
    let l = e.data.data_spec().len() as int;
    let p = e.data.pos_spec();
    if e.looping && l > 0 {
        total
    } else {
        vstd::math::min(total, l - p)
    }
}

/// The `i`-th sample the entry contributes: read from its position,
/// wrapping around to the start when the sound loops.
pub open spec fn contrib_at<E: Effect>(e: SoundInner<E>, i: int) -> i16 {
    let d = e.data.data_spec();
    let p = e.data.pos_spec();
    if e.looping && d.len() > 0 {
        d[(p + i) % (d.len() as int)]
    } else {
        d[p + i]
    }
}

/// The entry finishes its pass inside this buffer: it contributes
/// fewer samples than the buffer holds.
pub open spec fn exhausted_spec<E: Effect>(e: SoundInner<E>, total: int) -> bool {
    contrib_len_spec(e, total) < total
}

/// The read position after the entry was mixed into a buffer of
/// `total` samples: advanced, wrapped around for a looping sound, or
/// rewound to the start when the pass finished.
pub open spec fn end_pos_spec<E: Effect>(e: SoundInner<E>, total: int) -> int {
    let l = e.data.data_spec().len() as int;
    let p = e.data.pos_spec();
    if e.looping && l > 0 {
        if total == 0 {
            p
        } else {
            let r = (p + total) % l;
            if r == 0 {
                l
            } else {
                r
            }
        }
    } else if l - p < total {
        0
    } else {
        p + total
    }
}

/// `b` is `a` after one mixing pass over a buffer of `total` samples:
/// the settings and the sample sequence are unchanged, only the read
/// position moved (and effect state may have advanced without changing
/// the transform).
pub open spec fn entry_after_play<E: Effect>(a: SoundInner<E>, b: SoundInner<E>, total: int) -> bool {
    &&& b.id == a.id
    &&& b.volume == a.volume
    &&& b.looping == a.looping
    &&& b.pending_drop == a.pending_drop
    &&& forall|x: i16| #[trigger] b.effect.e_apply(x) == a.effect.e_apply(x)
    &&& b.data.wf()
    &&& b.data.data_spec() == a.data.data_spec()
    &&& b.data.channels_spec() == a.data.channels_spec()
    &&& b.data.rate_spec() == a.data.rate_spec()
    &&& b.data.pos_spec() == end_pos_spec(a, total)
}

/// The value of output sample `i` after the first `k` playing entries
/// were mixed over the starting value `init`: each contributing entry
/// in turn has its effect applied, is scaled by its volume, and is
/// added with saturation.
pub open spec fn mixed_sample<E: Effect>(
    s: Seq<SoundInner<E>>,
    total: int,
    init: i16,
    i: int,
    k: int,
) -> i16
    decreases k,
{
    if k <= 0 {
        init
    } else {
        let prev = mixed_sample(s, total, init, i, k - 1);
        let e = s[k - 1];
        if i < contrib_len_spec(e, total) {
            clamp_i16(
                prev as int + scale_spec(e.effect.e_apply(contrib_at(e, i)) as int, e.volume as int),
            ) as i16
        } else {
            prev
        }
    }
}

/// How many of the first `k` entries keep playing after this pass.
pub open spec fn count_live<E: Effect>(s: Seq<SoundInner<E>>, total: int, k: int) -> int
    decreases k,
{
    if k <= 0 {
        0
    } else {
        count_live(s, total, k - 1) + if !exhausted_spec(s[k - 1], total) {
            1int
        } else {
            0int
        }
    }
}

/// How many of the first `k` entries finish this pass but stay in the
/// mixer because no removal is pending.
pub open spec fn count_kept<E: Effect>(s: Seq<SoundInner<E>>, total: int, k: int) -> int
    decreases k,
{
    if k <= 0 {
        0
    } else {
        count_kept(s, total, k - 1) + if exhausted_spec(s[k - 1], total) && !s[k - 1].pending_drop {
            1int
        } else {
            0int
        }
    }
}

/// The counters grow monotonically, by at most one per entry.
pub proof fn lemma_count_mono<E: Effect>(s: Seq<SoundInner<E>>, total: int, j: int, k: int)
    requires
        0 <= j <= k,
    ensures
        count_live(s, total, j) <= count_live(s, total, k),
        count_kept(s, total, j) <= count_kept(s, total, k),
        count_live(s, total, k) - count_live(s, total, j) <= k - j,
        count_kept(s, total, k) - count_kept(s, total, j) <= k - j,
    decreases k - j,
{
    if j < k {
        lemma_count_mono(s, total, j, k - 1);
    }
}


/// Fill `scratch` from the entry's source: one pass for an ordinary
/// sound, wrapping around for a looping one.  Returns how many samples
/// were produced and leaves the source rewound when its pass finished.
fn fill_entry<E: Effect>(e: &mut SoundInner<E>, scratch: &mut Vec<i16>) -> (len: usize)
    requires
        old(e).data.wf(),
        old(scratch).len() as int % (old(e).data.channels_spec() as int) == 0,
    ensures
        final(e).id == old(e).id,
        final(e).volume == old(e).volume,
        final(e).looping == old(e).looping,
        final(e).pending_drop == old(e).pending_drop,
        final(e).effect == old(e).effect,
        final(e).data.wf(),
        final(e).data.data_spec() == old(e).data.data_spec(),
        final(e).data.channels_spec() == old(e).data.channels_spec(),
        final(e).data.rate_spec() == old(e).data.rate_spec(),
        final(e).data.pos_spec() == end_pos_spec(*old(e), old(scratch).len() as int),
        len as int == contrib_len_spec(*old(e), old(scratch).len() as int),
        final(scratch).len() == old(scratch).len(),
        forall|i: int| 0 <= i < len ==> #[trigger] final(scratch)[i] == contrib_at(*old(e), i),
{
    let total = scratch.len();
    let ghost e0 = *old(e);
    let ghost p0 = e0.data.pos_spec();
    let ghost l = e0.data.data_spec().len() as int;
    let ghost ch = e0.data.channels_spec() as int;
    proof {
        crate::source::lemma_wf_bounds(e0.data);
    }
    let mut len = e.data.write_samples(scratch, 0);
    proof {
        assert forall|i: int| 0 <= i < len implies #[trigger] scratch[i] == e0.data.data_spec()[p0
            + i] by {
            assert(scratch[0 + i] == e0.data.data_spec()[p0 + i]);
        }
    }
    proof {
        if e.looping && l > 0 && len == total && total > 0 {
            assert forall|i: int| 0 <= i < len implies #[trigger] scratch[i]
                == e0.data.data_spec()[(p0 + i) % l] by {
                assert(scratch[i] == e0.data.data_spec()[p0 + i]);
                assert(0 <= p0 + i < l);
                vstd::arithmetic::div_mod::lemma_small_mod((p0 + i) as nat, l as nat);
            }
            if p0 + total < l {
                vstd::arithmetic::div_mod::lemma_small_mod((p0 + total) as nat, l as nat);
            } else {
                assert(p0 + total == l);
                vstd::arithmetic::div_mod::lemma_mod_self_0(l);
            }
            assert(e.data.pos_spec() == end_pos_spec(e0, total as int));
        }
    }
    if len < total {
        e.data.reset();
        if e.looping {
            let nonempty = e.data.remaining();
            if nonempty > 0 {
                proof {
                    assert(l > 0);
                    assert(len as int == l - p0);
                    vstd::arithmetic::div_mod::lemma_mod_multiples_basic(1, l);
                    assert((p0 + len) % l == 0) by {
                        assert(p0 + len == l);
                        assert(l % l == 0) by {
                            vstd::arithmetic::div_mod::lemma_mod_self_0(l);
                        };
                    };
                    lemma_mod_combine(l, p0, ch);
                    assert forall|i: int| 0 <= i < len implies #[trigger] scratch[i]
                        == e0.data.data_spec()[(p0 + i) % l] by {
                        assert(0 <= p0 + i < l);
                        vstd::arithmetic::div_mod::lemma_small_mod((p0 + i) as nat, l as nat);
                    }
                }
                while len < total
                    invariant
                        e.looping,
                        e.id == e0.id,
                        e.volume == e0.volume,
                        e.pending_drop == e0.pending_drop,
                        e.effect == e0.effect,
                        e.data.wf(),
                        e.data.data_spec() == e0.data.data_spec(),
                        e.data.channels_spec() == e0.data.channels_spec(),
                        e.data.rate_spec() == e0.data.rate_spec(),
                        1 <= l,
                        l == e0.data.data_spec().len() as int,
                        l % ch == 0,
                        ch >= 1,
                        ch == e0.data.channels_spec() as int,
                        p0 >= 0,
                        p0 == e0.data.pos_spec(),
                        len <= total,
                        total == scratch.len(),
                        total as int % ch == 0,
                        len as int % ch == 0,
                        0 <= e.data.pos_spec() <= l,
                        (p0 + len) % l == e.data.pos_spec() % l,
                        len == total ==> e.data.pos_spec() >= 1,
                        forall|i: int|
                            0 <= i < len ==> #[trigger] scratch[i] == e0.data.data_spec()[(p0 + i)
                                % l],
                    decreases 2 * (total - len) + (if e.data.pos_spec() > 0 {
                        1int
                    } else {
                        0int
                    }),
                {
                    let ghost pc = e.data.pos_spec();
                    let ghost len_old = len as int;
                    proof {
                        lemma_mod_combine(total as int, len as int, ch);
                        crate::source::lemma_wf_bounds(e.data);
                        lemma_mod_combine(l, pc, ch);
                    }
                    let w = e.data.write_samples(scratch, len);
                    len = len + w;
                    proof {
                        assert(w as int == total - len_old || w as int == l - pc);
                        lemma_mod_combine(len_old, w as int, ch);
                        assert forall|j: int| 0 <= j < w implies #[trigger] scratch[len_old + j]
                            == e0.data.data_spec()[(p0 + len_old + j) % l] by {
                            assert(scratch[len_old + j] == e0.data.data_spec()[pc + j]);
                            assert(0 <= pc + j < l);
                            vstd::arithmetic::div_mod::lemma_add_mod_noop(p0 + len_old, j, l);
                            vstd::arithmetic::div_mod::lemma_add_mod_noop(pc, j, l);
                            vstd::arithmetic::div_mod::lemma_small_mod((pc + j) as nat, l as nat);
                            assert((p0 + len_old + j) % l == (pc + j) % l);
                        }
                        assert forall|i: int| 0 <= i < len implies #[trigger] scratch[i]
                            == e0.data.data_spec()[(p0 + i) % l] by {
                            if i < len_old {
                            } else {
                                assert(scratch[len_old + (i - len_old)] == e0.data.data_spec()[(p0
                                    + len_old + (i - len_old)) % l]);
                            }
                        }
                        vstd::arithmetic::div_mod::lemma_add_mod_noop(p0 + len_old, w as int, l);
                        vstd::arithmetic::div_mod::lemma_add_mod_noop(pc, w as int, l);
                    }
                    if len < total {
                        e.data.reset();
                        proof {
                            assert(pc + w == l);
                            vstd::arithmetic::div_mod::lemma_mod_self_0(l);
                            vstd::arithmetic::div_mod::lemma_small_mod(0nat, l as nat);
                        }
                    }
                }
                proof {
                    let pcf = e.data.pos_spec();
                    let r = (p0 + total) % l;
                    vstd::arithmetic::div_mod::lemma_mod_bound(p0 + total, l);
                    if pcf < l {
                        vstd::arithmetic::div_mod::lemma_small_mod(pcf as nat, l as nat);
                        assert(pcf == r);
                    } else {
                        vstd::arithmetic::div_mod::lemma_mod_self_0(l);
                        assert(r == 0);
                    }
                    assert(pcf == end_pos_spec(e0, total as int));
                }
            } else {
                proof {
                    assert(l == 0);
                    assert(len == 0);
                    assert(contrib_len_spec(e0, total as int) == 0);
                    assert(end_pos_spec(e0, total as int) == 0);
                }
            }
        }
    }
    len
}

/// Mix `scratch[0 .. len]` into `buffer`: apply the entry's effect to
/// each sample, scale by its volume and add with saturation.
fn mix_into<E: Effect>(buffer: &mut Vec<i16>, scratch: &Vec<i16>, len: usize, e: &mut SoundInner<E>)
    requires
        len <= old(buffer).len(),
        len <= scratch.len(),
    ensures
        final(buffer).len() == old(buffer).len(),
        forall|i: int|
            0 <= i < len ==> #[trigger] final(buffer)[i] as int == clamp_i16(
                old(buffer)[i] as int + scale_spec(
                    old(e).effect.e_apply(scratch[i]) as int,
                    old(e).volume as int,
                ),
            ),
        forall|i: int| len <= i < old(buffer).len() ==> final(buffer)[i] == old(buffer)[i],
        final(e).id == old(e).id,
        final(e).data == old(e).data,
        final(e).volume == old(e).volume,
        final(e).looping == old(e).looping,
        final(e).pending_drop == old(e).pending_drop,
        forall|x: i16| #[trigger] final(e).effect.e_apply(x) == old(e).effect.e_apply(x),
{
    let mut i: usize = 0;
    while i < len
        invariant
            i <= len,
            len <= buffer.len(),
            len <= scratch.len(),
            buffer.len() == old(buffer).len(),
            e.id == old(e).id,
            e.data == old(e).data,
            e.volume == old(e).volume,
            e.looping == old(e).looping,
            e.pending_drop == old(e).pending_drop,
            forall|x: i16| #[trigger] e.effect.e_apply(x) == old(e).effect.e_apply(x),
            forall|j: int|
                0 <= j < i ==> #[trigger] buffer[j] as int == clamp_i16(
                    old(buffer)[j] as int + scale_spec(
                        old(e).effect.e_apply(scratch[j]) as int,
                        old(e).volume as int,
                    ),
                ),
            forall|j: int| i <= j < buffer.len() ==> buffer[j] == old(buffer)[j],
        decreases len - i,
    {
        let sample = scratch[i];
        let ev = e.effect.apply(sample);
        let scaled = scale_sample(ev, e.volume);
        let b = buffer[i];
        buffer.set(i, sat_add_i16(b, scaled));
        i = i + 1;
    }
}


impl<E: Effect> Mixer<E> {
    /// Mix all playing sounds into `buffer` and report it fully
    /// written; the mixer itself never signals exhaustion.
    ///
    /// With nothing playing the buffer is zeroed.  Otherwise every
    /// playing entry in turn is mixed over the buffer's current
    /// contents: its effect is applied per sample, scaled by its
    /// volume, and added with saturation; a looping sound wraps around
    /// to fill the whole buffer.  An entry that finishes a non-looping
    /// pass is rewound and demoted to the idle partition, or removed
    /// entirely when its removal is pending; its final partial output
    /// is still mixed.  The buffer must cover whole frames of every
    /// playing source.
    pub fn write_samples(&mut self, buffer: &mut Vec<i16>) -> (w: usize)
        requires
            old(self).wf(),
            forall|k: int|
                0 <= k < old(self).playing ==> (old(buffer).len() as int) % ((
                #[trigger] old(self).sounds@[k].data).channels_spec() as int) == 0,
        ensures
            w == old(buffer).len(),
            final(buffer).len() == old(buffer).len(),
            final(self).wf(),
            final(self).channels == old(self).channels,
            final(self).sample_rate == old(self).sample_rate,
            final(self).counter == old(self).counter,
            old(self).playing == 0 ==> *final(self) == *old(self) && (forall|i: int|
                0 <= i < old(buffer).len() ==> final(buffer)[i] == 0),
            old(self).playing > 0 ==> ({
                let s0 = old(self).sounds@;
                let p0 = old(self).playing as int;
                let total = old(buffer).len() as int;
                &&& forall|i: int|
                    0 <= i < total ==> #[trigger] final(buffer)[i] == mixed_sample(
                        s0,
                        total,
                        old(buffer)[i],
                        i,
                        p0,
                    )
                &&& final(self).playing as int == count_live(s0, total, p0)
                &&& final(self).sounds@.len() == count_live(s0, total, p0) + count_kept(
                    s0,
                    total,
                    p0,
                ) + (s0.len() - p0)
                &&& forall|k: int|
                    0 <= k < p0 && !exhausted_spec(s0[k], total) ==> entry_after_play(
                        s0[k],
                        #[trigger] final(self).sounds@[count_live(s0, total, k)],
                        total,
                    )
                &&& forall|k: int|
                    0 <= k < p0 && exhausted_spec(s0[k], total) && !s0[k].pending_drop
                        ==> entry_after_play(
                        s0[k],
                        #[trigger] final(self).sounds@[count_live(s0, total, p0) + count_kept(
                            s0,
                            total,
                            k,
                        )],
                        total,
                    )
                &&& forall|k: int, j: int|
                    #![trigger final(self).sounds@[j], s0[k]]
                    0 <= k < p0 && exhausted_spec(s0[k], total) && s0[k].pending_drop && 0 <= j
                        < final(self).sounds@.len() ==> final(self).sounds@[j].id != s0[k].id
                &&& forall|k: int|
                    p0 <= k < s0.len() ==> #[trigger] final(self).sounds@[count_live(
                        s0,
                        total,
                        p0,
                    ) + count_kept(s0, total, p0) + k - p0] == s0[k]
            }),
    {
        let total = buffer.len();
        if self.playing == 0 {
            let mut i: usize = 0;
            while i < total
                invariant
                    i <= total,
                    total == old(buffer).len(),
                    buffer.len() == total,
                    forall|j: int| 0 <= j < i ==> buffer[j] == 0,
                decreases total - i,
            {
                buffer.set(i, 0);
                i = i + 1;
            }
            return total;
        }
        let ghost s0 = old(self).sounds@;
        let ghost p0i = old(self).playing as int;
        let ghost totali = total as int;
        let p0 = self.playing;
        let mut scratch = zero_vec(total);
        let mut flags: Vec<bool> = Vec::new();
        let mut s: usize = 0;
        while s < p0
            invariant
                s <= p0,
                p0 == old(self).playing,
                p0i == p0 as int,
                totali == total as int,
                total == old(buffer).len(),
                s0 == old(self).sounds@,
                self.playing == p0,
                self.channels == old(self).channels,
                self.sample_rate == old(self).sample_rate,
                self.counter == old(self).counter,
                self.sounds@.len() == s0.len(),
                p0 <= s0.len(),
                buffer.len() == total,
                scratch.len() == total,
                flags@.len() == s,
                forall|k: int|
                    0 <= k < p0 ==> (total as int) % ((#[trigger] s0[k].data).channels_spec()
                        as int) == 0,
                forall|j: int| 0 <= j < s ==> flags@[j] == exhausted_spec(s0[j], totali),
                forall|j: int|
                    0 <= j < s ==> entry_after_play(s0[j], #[trigger] self.sounds@[j], totali),
                forall|j: int| s <= j < s0.len() ==> self.sounds@[j] == s0[j],
                forall|i: int|
                    0 <= i < totali ==> #[trigger] buffer[i] == mixed_sample(
                        s0,
                        totali,
                        old(buffer)[i],
                        i,
                        s as int,
                    ),
                distinct_ids(self.sounds@),
                sources_wf(self.sounds@),
                ids_below(self.sounds@, self.counter),
            decreases p0 - s,
        {
            let ghost scur = self.sounds@;
            let mut e = self.sounds.remove(s);
            let len = fill_entry(&mut e, &mut scratch);
            let ghost buf_pre = buffer@;
            mix_into(buffer, &scratch, len, &mut e);
            flags.push(len < total);
            self.sounds.insert(s, e);
            proof {
                lemma_relocate_entry(
                    scur,
                    s as int,
                    s as int,
                    self.sounds@[s as int],
                    self.counter,
                );
                lemma_remove_insert_same(scur, s as int, self.sounds@[s as int]);
                assert(entry_after_play(s0[s as int], self.sounds@[s as int], totali));
                assert forall|i: int| 0 <= i < totali implies #[trigger] buffer[i]
                    == mixed_sample(s0, totali, old(buffer)[i], i, s as int + 1) by {
                    let prev = mixed_sample(s0, totali, old(buffer)[i], i, s as int);
                    assert(buf_pre[i] == prev);
                    if i < contrib_len_spec(s0[s as int], totali) {
                        assert(scratch[i] == contrib_at(s0[s as int], i));
                        assert(buffer[i] as int == clamp_i16(
                            prev as int + scale_spec(
                                s0[s as int].effect.e_apply(contrib_at(s0[s as int], i)) as int,
                                s0[s as int].volume as int,
                            ),
                        ));
                    } else {
                        assert(buffer[i] == buf_pre[i]);
                    }
                }
            }
            s = s + 1;
        }
        let ghost s1 = self.sounds@;
        let mut playing_new: Vec<SoundInner<E>> = Vec::new();
        let mut idle_new: Vec<SoundInner<E>> = Vec::new();
        let ghost mut src_pl: Seq<int> = Seq::empty();
        let ghost mut src_id: Seq<int> = Seq::empty();
        let mut k: usize = 0;
        while k < p0
            invariant
                k <= p0,
                p0 == old(self).playing,
                p0i == p0 as int,
                totali == total as int,
                total == old(buffer).len(),
                s0 == old(self).sounds@,
                s1.len() == s0.len(),
                p0 <= s0.len(),
                self.playing == p0,
                self.channels == old(self).channels,
                self.sample_rate == old(self).sample_rate,
                self.counter == old(self).counter,
                self.sounds@ == s1.skip(k as int),
                flags@.len() == p0,
                forall|j: int| 0 <= j < p0 ==> flags@[j] == exhausted_spec(s0[j], totali),
                forall|j: int|
                    0 <= j < p0 ==> entry_after_play(s0[j], #[trigger] s1[j], totali),
                forall|j: int| p0 <= j < s0.len() ==> s1[j] == s0[j],
                distinct_ids(s1),
                sources_wf(s1),
                ids_below(s1, self.counter),
                playing_new@.len() == count_live(s0, totali, k as int),
                idle_new@.len() == count_kept(s0, totali, k as int),
                src_pl.len() == playing_new@.len(),
                src_id.len() == idle_new@.len(),
                forall|jj: int|
                    0 <= jj < src_pl.len() ==> 0 <= #[trigger] src_pl[jj] < k as int
                        && !exhausted_spec(s0[src_pl[jj]], totali) && count_live(
                        s0,
                        totali,
                        src_pl[jj],
                    ) == jj && playing_new@[jj] == s1[src_pl[jj]],
                forall|jj: int|
                    0 <= jj < src_id.len() ==> 0 <= #[trigger] src_id[jj] < k as int
                        && exhausted_spec(s0[src_id[jj]], totali) && !s0[src_id[
                        jj]].pending_drop && count_kept(s0, totali, src_id[jj]) == jj
                        && idle_new@[jj] == s1[src_id[jj]],
                forall|j: int|
                    0 <= j < k && !exhausted_spec(s0[j], totali) ==> playing_new@[count_live(
                        s0,
                        totali,
                        j,
                    )] == s1[j],
                forall|j: int|
                    0 <= j < k && exhausted_spec(s0[j], totali) && !s0[j].pending_drop
                        ==> idle_new@[count_kept(s0, totali, j)] == s1[j],
            decreases p0 - k,
        {
            let ghost pl_pre = playing_new@;
            let ghost id_pre = idle_new@;
            let e = self.sounds.remove(0);
            proof {
                assert(e == s1[k as int]);
                assert(self.sounds@ =~= s1.skip(k as int + 1));
                assert(e.pending_drop == s0[k as int].pending_drop);
            }
            if !flags[k] {
                playing_new.push(e);
                proof {
                    src_pl = src_pl.push(k as int);
                }
            } else if !e.pending_drop {
                idle_new.push(e);
                proof {
                    src_id = src_id.push(k as int);
                }
            }
            proof {
                let ki = k as int;
                assert forall|j: int|
                    0 <= j < ki + 1 && !exhausted_spec(s0[j], totali)
                    implies playing_new@[count_live(s0, totali, j)] == s1[j] by {
                    if j < ki {
                        lemma_count_mono(s0, totali, 0, j);
                        lemma_count_mono(s0, totali, j + 1, ki);
                        assert(0 <= count_live(s0, totali, j) < pl_pre.len());
                        assert(playing_new@[count_live(s0, totali, j)] == pl_pre[count_live(
                            s0,
                            totali,
                            j,
                        )]);
                    } else {
                        assert(playing_new@[pl_pre.len() as int] == s1[ki]);
                    }
                }
                assert forall|j: int|
                    0 <= j < ki + 1 && exhausted_spec(s0[j], totali) && !s0[j].pending_drop
                    implies idle_new@[count_kept(s0, totali, j)] == s1[j] by {
                    if j < ki {
                        lemma_count_mono(s0, totali, 0, j);
                        lemma_count_mono(s0, totali, j + 1, ki);
                        assert(0 <= count_kept(s0, totali, j) < id_pre.len());
                        assert(idle_new@[count_kept(s0, totali, j)] == id_pre[count_kept(
                            s0,
                            totali,
                            j,
                        )]);
                    } else {
                        assert(idle_new@[id_pre.len() as int] == s1[ki]);
                    }
                }
            }
            k = k + 1;
        }
        let nlive = playing_new.len();
        let ghost pl1 = playing_new@;
        let ghost id1 = idle_new@;
        while idle_new.len() > 0
            invariant
                playing_new@ + idle_new@ == pl1 + id1,
            decreases idle_new.len(),
        {
            let e = idle_new.remove(0);
            playing_new.push(e);
            proof {
                assert(playing_new@ + idle_new@ =~= pl1 + id1);
            }
        }
        let ghost tail1 = self.sounds@;
        let ghost pl2 = playing_new@;
        while self.sounds.len() > 0
            invariant
                playing_new@ + self.sounds@ == pl2 + tail1,
                self.playing == p0,
                self.channels == old(self).channels,
                self.sample_rate == old(self).sample_rate,
                self.counter == old(self).counter,
            decreases self.sounds.len(),
        {
            let e = self.sounds.remove(0);
            playing_new.push(e);
            proof {
                assert(playing_new@ + self.sounds@ =~= pl2 + tail1);
            }
        }
        core::mem::swap(&mut self.sounds, &mut playing_new);
        self.playing = nlive;
        proof {
            lemma_count_mono(s0, totali, 0, p0i);
            let fin = self.sounds@;
            let nl = count_live(s0, totali, p0i);
            let nk = count_kept(s0, totali, p0i);
            assert(pl1.len() == nl);
            assert(id1.len() == nk);
            assert(tail1 =~= s1.skip(p0i));
            assert(fin =~= pl1 + id1 + s1.skip(p0i));
            assert(fin.len() == nl + nk + (s0.len() - p0i));
            let src = |j: int|
                if j < nl {
                    src_pl[j]
                } else if j < nl + nk {
                    src_id[j - nl]
                } else {
                    p0i + (j - nl - nk)
                };
            assert forall|j: int| 0 <= j < fin.len() implies 0 <= src(j) < s1.len()
                && #[trigger] fin[j] == s1[src(j)] by {
                if j < nl {
                    assert(fin[j] == pl1[j]);
                } else if j < nl + nk {
                    assert(fin[j] == id1[j - nl]);
                } else {
                    assert(fin[j] == s1.skip(p0i)[j - nl - nk]);
                    assert(s1.skip(p0i)[j - nl - nk] == s1[p0i + (j - nl - nk)]);
                }
            }
            assert forall|k2: int| 0 <= k2 < p0i && !exhausted_spec(s0[k2], totali)
                implies entry_after_play(
                s0[k2],
                #[trigger] fin[count_live(s0, totali, k2)],
                totali,
            ) by {
                lemma_count_mono(s0, totali, 0, k2);
                lemma_count_mono(s0, totali, k2 + 1, p0i);
                assert(0 <= count_live(s0, totali, k2) < nl);
                assert(fin[count_live(s0, totali, k2)] == pl1[count_live(s0, totali, k2)]);
                assert(pl1[count_live(s0, totali, k2)] == s1[k2]);
            }
            assert forall|k2: int|
                0 <= k2 < p0i && exhausted_spec(s0[k2], totali) && !s0[k2].pending_drop
                implies entry_after_play(
                s0[k2],
                #[trigger] fin[nl + count_kept(s0, totali, k2)],
                totali,
            ) by {
                lemma_count_mono(s0, totali, 0, k2);
                lemma_count_mono(s0, totali, k2 + 1, p0i);
                assert(0 <= count_kept(s0, totali, k2) < nk);
                assert(fin[nl + count_kept(s0, totali, k2)] == id1[count_kept(s0, totali, k2)]);
                assert(id1[count_kept(s0, totali, k2)] == s1[k2]);
            }
            assert forall|k2: int| p0i <= k2 < s0.len() implies #[trigger] fin[nl + nk + k2
                - p0i] == s0[k2] by {
                assert(fin[nl + nk + k2 - p0i] == s1.skip(p0i)[k2 - p0i]);
                assert(s1.skip(p0i)[k2 - p0i] == s1[k2]);
            }
            assert forall|i2: int, j2: int| 0 <= i2 < j2 < fin.len() implies fin[i2].id
                != fin[j2].id by {
                let a = src(i2);
                let b = src(j2);
                assert(fin[i2] == s1[a] && fin[j2] == s1[b]);
                if i2 < nl && j2 < nl {
                    assert(count_live(s0, totali, a) == i2 && count_live(s0, totali, b) == j2);
                    assert(a != b);
                } else if nl <= i2 < nl + nk && nl <= j2 < nl + nk {
                    assert(count_kept(s0, totali, a) == i2 - nl && count_kept(s0, totali, b)
                        == j2 - nl);
                    assert(a != b);
                } else {
                    assert(a != b);
                }
                if a < b {
                    assert(s1[a].id != s1[b].id);
                } else {
                    assert(s1[b].id != s1[a].id);
                }
            }
            assert forall|k2: int, j: int|
                #![trigger fin[j], s0[k2]]
                0 <= k2 < p0i && exhausted_spec(s0[k2], totali) && s0[k2].pending_drop && 0 <= j
                    < fin.len() implies fin[j].id != s0[k2].id by {
                let b = src(j);
                assert(fin[j] == s1[b]);
                assert(b != k2);
                assert(s1[b].id == s0[b].id);
                if b < k2 {
                    assert(s0[b].id != s0[k2].id);
                } else {
                    assert(s0[k2].id != s0[b].id);
                }
            }
            assert forall|j: int| 0 <= j < fin.len() implies (#[trigger] fin[j].data).wf()
                && fin[j].id < self.counter by {
                let b = src(j);
                assert(fin[j] == s1[b]);
                assert(s1[b].data.wf());
                assert(s1[b].id < self.counter);
            }
        }
        total
    }
}


/// After a sound is rewound (as `stop` and `reset` leave it), its next
/// pass reads exactly the samples a freshly added copy of the same
/// source would read: replay is bit-identical to a first play.
pub proof fn lemma_restart_matches_fresh<E: Effect>(
    a: SoundInner<E>,
    b: SoundInner<E>,
    total: int,
    i: int,
)
    requires
        a.data.pos_spec() == 0,
        b.data.pos_spec() == 0,
        a.data.data_spec() == b.data.data_spec(),
        a.looping == b.looping,
    ensures
        contrib_len_spec(a, total) == contrib_len_spec(b, total),
        0 <= i < contrib_len_spec(a, total) ==> contrib_at(a, i) == contrib_at(b, i),
{
}

/// Mixing a single sound at unity volume through an identity effect
/// into a silent buffer leaves its samples unchanged.
pub proof fn lemma_unity_mix_single<E: Effect>(s: Seq<SoundInner<E>>, total: int, i: int)
    requires
        s.len() >= 1,
        s[0].volume == UNIT_VOLUME,
        forall|x: i16| #[trigger] s[0].effect.e_apply(x) == x,
        0 <= i < contrib_len_spec(s[0], total),
    ensures
        mixed_sample(s, total, 0, i, 1) == contrib_at(s[0], i),
{
    let c = contrib_at(s[0], i);
    crate::sample::lemma_scale_unit(c as int);
    assert(mixed_sample(s, total, 0, i, 0) == 0i16);
    assert(clamp_i16(0 + scale_spec(c as int, UNIT_VOLUME as int)) == c as int);
}

/// Saturating mixing never wraps: whatever a sound contributes on top
/// of an accumulated value, the result stays inside the 16-bit sample
/// range and equals the clamped exact sum.
pub proof fn lemma_mix_saturates<E: Effect>(
    s: Seq<SoundInner<E>>,
    total: int,
    init: i16,
    i: int,
    k: int,
)
    requires
        1 <= k <= s.len(),
        0 <= i < contrib_len_spec(s[k - 1], total),
    ensures
        mixed_sample(s, total, init, i, k) as int == clamp_i16(
            mixed_sample(s, total, init, i, k - 1) as int + scale_spec(
                s[k - 1].effect.e_apply(contrib_at(s[k - 1], i)) as int,
                s[k - 1].volume as int,
            ),
        ),
        -32768 <= mixed_sample(s, total, init, i, k) as int <= 32767,
{
}

/// A looping sound with content never finishes a pass: it always
/// fills the whole buffer, wrapping around its sequence with no gap.
pub proof fn lemma_looping_fills<E: Effect>(e: SoundInner<E>, total: int, i: int)
    requires
        e.looping,
        e.data.data_spec().len() > 0,
        0 <= e.data.pos_spec(),
    ensures
        contrib_len_spec(e, total) == total,
        !exhausted_spec(e, total),
        0 <= i < total ==> contrib_at(e, i) == e.data.data_spec()[(e.data.pos_spec() + i) % (
        e.data.data_spec().len() as int)],
{
}



/// The entry sequence after one keyed move: the entry at `k` taken
/// out and put back at position `q`, as `play`, `pause` and `stop`
/// rearrange the partition.
pub open spec fn moved_entry<T>(s: Seq<T>, k: int, q: int) -> Seq<T> {
    s.remove(k).insert(q, s[k])
}

/// What `play` does to the entry order: moving the entry at `k` back
/// to position `q <= k` keeps every entry before `q` in place, shifts
/// the entries between one step toward the end, and leaves the rest
/// untouched.  With `q` the old partition boundary, exactly the moved
/// entry joins the playing prefix.
pub proof fn lemma_move_forward<T>(s: Seq<T>, k: int, q: int)
    requires
        0 <= q <= k < s.len(),
    ensures
        moved_entry(s, k, q).len() == s.len(),
        moved_entry(s, k, q)[q] == s[k],
        forall|j: int| 0 <= j < q ==> #[trigger] moved_entry(s, k, q)[j] == s[j],
        forall|j: int| q < j <= k ==> #[trigger] moved_entry(s, k, q)[j] == s[j - 1],
        forall|j: int| k < j < s.len() ==> #[trigger] moved_entry(s, k, q)[j] == s[j],
{
    let s1 = s.remove(k);
    s.remove_ensures(k);
    s1.insert_ensures(q, s[k]);
    assert forall|j: int| q < j <= k implies #[trigger] moved_entry(s, k, q)[j] == s[j - 1] by {
        assert(moved_entry(s, k, q)[j] == s1[j - 1]);
    }
    assert forall|j: int| k < j < s.len() implies #[trigger] moved_entry(s, k, q)[j] == s[j] by {
        assert(moved_entry(s, k, q)[j] == s1[j - 1]);
    }
}

/// What `pause` and `stop` do to the entry order: moving the entry at
/// `k` forward to position `q >= k` keeps every entry before `k` in
/// place, shifts the entries between one step toward the front, and
/// leaves the rest untouched.  With `q` one below the old partition
/// boundary, exactly the moved entry leaves the playing prefix.
pub proof fn lemma_move_back<T>(s: Seq<T>, k: int, q: int)
    requires
        0 <= k <= q < s.len(),
    ensures
        moved_entry(s, k, q).len() == s.len(),
        moved_entry(s, k, q)[q] == s[k],
        forall|j: int| 0 <= j < k ==> #[trigger] moved_entry(s, k, q)[j] == s[j],
        forall|j: int| k <= j < q ==> #[trigger] moved_entry(s, k, q)[j] == s[j + 1],
        forall|j: int| q < j < s.len() ==> #[trigger] moved_entry(s, k, q)[j] == s[j],
{
    let s1 = s.remove(k);
    s.remove_ensures(k);
    s1.insert_ensures(q, s[k]);
    assert forall|j: int| k <= j < q implies #[trigger] moved_entry(s, k, q)[j] == s[j + 1] by {
        assert(moved_entry(s, k, q)[j] == s1[j]);
    }
    assert forall|j: int| q < j < s.len() implies #[trigger] moved_entry(s, k, q)[j] == s[j] by {
        assert(moved_entry(s, k, q)[j] == s1[j - 1]);
    }
}

} // verus!
