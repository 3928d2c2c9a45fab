//! Adding up the sounds that play at the same time.

use vstd::prelude::*;

use crate::arithmetic::{evaluates, word, Arithmetic, Expr, Term, ZERO};

verus! {

/// A chunk of sound and how far it has been played.
#[derive(Clone, Copy)]
pub struct AudioSample<const CHUNK: usize> {
    pub sample: [u32; CHUNK],
    pub position: usize,
}

/// A chunk of sound as the contracts see it.
pub struct Sound {
    pub sample: Seq<u32>,
    pub position: int,
}

impl<const CHUNK: usize> View for AudioSample<CHUNK> {
    type V = Sound;

    open spec fn view(&self) -> Sound {
        Sound { sample: self.sample@, position: self.position as int }
    }
}

impl Sound {
    /// Something of it is left to play.
    pub open spec fn is_left(self) -> bool {
        self.position < self.sample.len()
    }

    /// The sample that plays now.
    pub open spec fn level(self) -> u32 {
        self.sample[self.position]
    }

    /// The sound one sample on.
    pub open spec fn stepped(self) -> Sound {
        Sound { position: self.position + 1, ..self }
    }
}

pub open spec fn sound_views<const CHUNK: usize>(samples: Seq<AudioSample<CHUNK>>) -> Seq<Sound> {
    Seq::new(samples.len(), |i: int| samples[i]@)
}

/// The sounds of which something is left to play.
pub open spec fn sounding(sounds: Seq<Sound>) -> Seq<Sound> {
    sounds.filter(|s: Sound| s.is_left())
}

/// The samples that play now.
pub open spec fn levels(sounds: Seq<Sound>) -> Seq<u32> {
    sounding(sounds).map_values(|s: Sound| s.level())
}

/// The sounds one sample on: the finished ones are gone.
pub open spec fn stepped(sounds: Seq<Sound>) -> Seq<Sound> {
    sounding(sounds).map_values(|s: Sound| s.stepped())
}

/// The sounds `n` samples on.
pub open spec fn sounds_after(sounds: Seq<Sound>, n: nat) -> Seq<Sound>
    decreases n,
{
    if n == 0 {
        sounds
    } else {
        stepped(sounds_after(sounds, (n - 1) as nat))
    }
}

/// The sum of some samples, added up from the first to the last.
pub open spec fn total(samples: Seq<u32>) -> Expr
    decreases samples.len(),
{
    if samples.len() == 0 {
        word(ZERO)
    } else {
        total(samples.drop_last()).plus(word(samples.last()))
    }
}

/// `signal` is the sum of the sounds for `n` samples, then silence.
pub open spec fn mixed<A: Arithmetic>(ar: A, sounds: Seq<Sound>, n: int, signal: Seq<u32>) -> bool {
    &&& forall|i: int|
        0 <= i < n ==> evaluates(
            ar,
            total(levels(sounds_after(sounds, i as nat))),
            #[trigger] signal[i],
        )
    &&& forall|i: int| n <= i < signal.len() ==> #[trigger] signal[i] == ZERO
}

/// Taking out one that is finished leaves the same sounding.
proof fn lemma_drop_finished(sounds: Seq<Sound>, i: int)
    requires
        0 <= i < sounds.len(),
        !sounds[i].is_left(),
    ensures
        sounding(sounds.remove(i)) == sounding(sounds),
{
    let pred = |s: Sound| s.is_left();
    let a = sounds.take(i);
    let b = sounds.skip(i + 1);
    let one = seq![sounds[i]];
    assert(sounds == a + one + b);
    assert(sounds.remove(i) == a + b);
    Seq::filter_distributes_over_add(a + one, b, pred);
    Seq::filter_distributes_over_add(a, one, pred);
    Seq::filter_distributes_over_add(a, b, pred);
    one.lemma_all_neg_filter_empty(pred);
    assert(a.filter(pred) + one.filter(pred) == a.filter(pred));
}

/// Where nothing is finished, all are sounding.
proof fn lemma_all_sounding(sounds: Seq<Sound>)
    requires
        forall|i: int| 0 <= i < sounds.len() ==> (#[trigger] sounds[i]).is_left(),
    ensures
        sounding(sounds) == sounds,
    decreases sounds.len(),
{
    reveal(Seq::filter);
    if sounds.len() > 0 {
        lemma_all_sounding(sounds.drop_last());
        assert(sounds == sounds.drop_last().push(sounds.last()));
    }
}

/// Takes the finished sounds out.
fn drop_finished<const CHUNK: usize>(samples: &mut Vec<AudioSample<CHUNK>>)
    ensures
        sound_views(final(samples)@) == sounding(sound_views(old(samples)@)),
{
    let ghost sounds = sound_views(samples@);
    let mut i: usize = 0;
    while i < samples.len()
        invariant
            i <= samples.len(),
            sounding(sound_views(samples@)) == sounding(sounds),
            forall|j: int| 0 <= j < i ==> (#[trigger] sound_views(samples@)[j]).is_left(),
        decreases samples.len() - i,
    {
        if samples[i].position >= CHUNK {
            let ghost now = sound_views(samples@);
            proof {
                lemma_drop_finished(now, i as int);
            }
            samples.remove(i);
            assert(sound_views(samples@) == now.remove(i as int));
        } else {
            i = i + 1;
        }
    }
    proof {
        lemma_all_sounding(sound_views(samples@));
    }
}

/// Adds up what plays now, and moves on by one sample.
fn mix_one<A: Arithmetic, const CHUNK: usize>(
    ar: &A,
    samples: &mut Vec<AudioSample<CHUNK>>,
) -> (accum: u32)
    ensures
        evaluates(*ar, total(levels(sound_views(old(samples)@))), accum),
        sound_views(final(samples)@) == stepped(sound_views(old(samples)@)),
{
    let ghost sounds = sound_views(samples@);
    drop_finished(samples);
    let ghost live = sound_views(samples@);
    let mut accum: Term = Term::word(ar, ZERO);
    assert(levels(sounds).take(0) == Seq::<u32>::empty());
    assert forall|j: int| 0 <= j < live.len() implies (#[trigger] live[j]).is_left() by {
        sounds.lemma_filter_pred(|s: Sound| s.is_left(), j);
    }
    let count: usize = samples.len();
    for i in 0..count
        invariant
            count == samples.len(),
            live == sounding(sounds),
            live.len() == count,
            forall|j: int| 0 <= j < live.len() ==> (#[trigger] live[j]).is_left(),
            forall|j: int| 0 <= j < i ==> (#[trigger] samples@[j])@ == live[j].stepped(),
            forall|j: int| i <= j < count ==> (#[trigger] samples@[j])@ == live[j],
            accum.holds(*ar),
            accum.expr@ == total(levels(sounds).take(i as int)),
    {
        assert(live[i as int].is_left());
        assert(samples@[i as int]@ == live[i as int]);
        let position: usize = samples[i].position;
        let num: u32 = samples[i].sample[position];
        samples[i].position = position + 1;
        accum = accum.plus(ar, Term::word(ar, num));
        assert(levels(sounds).take(i + 1).drop_last() == levels(sounds).take(i as int));
    }
    assert(levels(sounds).take(count as int) == levels(sounds));
    assert(sound_views(samples@) == stepped(sounds));
    accum.word
}

/// Adds up the sounds for `n` samples, and moves on by as many.
pub fn mix<A: Arithmetic, const CHUNK: usize>(
    ar: &A,
    samples: &mut Vec<AudioSample<CHUNK>>,
    n: usize,
) -> (signal: [u32; CHUNK])
    requires
        n <= CHUNK,
    ensures
        mixed(*ar, sound_views(old(samples)@), n as int, signal@),
        sound_views(final(samples)@) == sounds_after(sound_views(old(samples)@), n as nat),
{
    let ghost sounds = sound_views(samples@);
    let mut signal: [u32; CHUNK] = [ZERO; CHUNK];
    for i in 0..n
        invariant
            n <= CHUNK,
            sound_views(samples@) == sounds_after(sounds, i as nat),
            mixed(*ar, sounds, i as int, signal@),
    {
        signal[i] = mix_one(ar, samples);
    }
    signal
}

} // verus!
