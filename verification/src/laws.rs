//! What holds of the library as a whole.

use vstd::prelude::*;

use crate::arithmetic::Arithmetic;
use crate::command::{
    offered, received, room, sent, traffic_in, traffic_out, AudioCommand, CommandReceiver,
    CommandSender,
};
use crate::desk::key_rows;
use crate::effect::{
    echo, fresh_effect, pointer_after, recorded, EffectDefinition, BUFFER_SIZE, MAXIMUM_PARAM_INDEX,
};
use crate::generator::GeneratorView;
use crate::gui::{cycle_back, cycle_on, GuiView};
use crate::keys::Keycode;
use crate::mixing::{levels, sounding, sounds_after, stepped, Sound};
use crate::player::{has_note, keys_differ, NoteData, PlayerView, Rack, Verdict};
use crate::region::{
    declick_left, declick_right, declick_start, declicked_frames, smoothed_samples, written,
    BUFFER_REGION_SIZE, DECLICK_SIZE,
};
use crate::render::{
    all_played, can_process, chunk_len, chunk_played, chunk_states, lemma_chunk_region,
    lemma_pointer_between, lemma_within_by_definition, note_stays, note_within,
    notes_after_chunk, notes_within, one_chunk_on, streamed,
};

verus! {

// The ring

/// Commands come out of the ring in the order in which they went in, none
/// added, none changed: of what was sent and what was received, the one begins
/// with the other.
pub proof fn law_commands_arrive_in_order(sender: CommandSender, receiver: CommandReceiver)
    requires
        traffic_in(sender) == traffic_out(receiver),
        sent(sender).is_prefix_of(traffic_in(sender)),
        received(receiver).is_prefix_of(traffic_out(receiver)),
    ensures
        received(receiver).is_prefix_of(sent(sender)) || sent(sender).is_prefix_of(
            received(receiver),
        ),
{
    let all = traffic_in(sender);
    let s = sent(sender);
    let r = received(receiver);
    assert(s == all.subrange(0, s.len() as int));
    assert(r == all.subrange(0, r.len() as int));
    if r.len() <= s.len() {
        assert(r == s.subrange(0, r.len() as int));
    } else {
        assert(s == r.subrange(0, s.len() as int));
    }
}

/// Once nothing more is sent, what was received is what was sent, in order, as
/// far as it goes; and of a ring that nothing was sent to, nothing is received.
pub proof fn law_nothing_comes_from_nowhere(sender: CommandSender, receiver: CommandReceiver)
    requires
        traffic_in(sender) == traffic_out(receiver),
        sent(sender) == traffic_in(sender),
        received(receiver).is_prefix_of(traffic_out(receiver)),
    ensures
        received(receiver).is_prefix_of(sent(sender)),
        sent(sender).len() == 0 ==> received(receiver).len() == 0,
        received(receiver).len() == sent(sender).len() ==> received(receiver) == sent(sender),
{
    let s = sent(sender);
    let r = received(receiver);
    assert(r == s.subrange(0, r.len() as int));
    if r.len() == s.len() {
        assert(s.subrange(0, s.len() as int) == s);
    }
}

/// A ring that has room for all that was ever sent and is being offered takes
/// all of it, in order.
pub proof fn law_room_takes_all(
    before: CommandSender,
    commands: Seq<AudioCommand>,
    after: CommandSender,
)
    requires
        offered(before, commands, after),
        sent(before).len() + commands.len() <= room(before),
    ensures
        sent(after) == sent(before) + commands,
        room(after) == room(before),
{
}

/// It makes no difference how the commands are spread over calls.
pub proof fn law_commands_add_up(
    rack: Rack,
    first: Seq<AudioCommand>,
    second: Seq<AudioCommand>,
)
    ensures
        rack.after_all(first + second) == rack.after_all(first).after_all(second),
        rack.obeys_all(first + second) == (rack.obeys_all(first) && rack.after_all(first).obeys_all(
            second,
        )),
    decreases second.len(),
{
    if second.len() == 0 {
        assert(first + second == first);
    } else {
        law_commands_add_up(rack, first, second.drop_last());
        assert((first + second).drop_last() == first + second.drop_last());
    }
}

// Commands

/// A command keeps the rack in order.
pub proof fn law_command_keeps_order(rack: Rack, command: AudioCommand)
    requires
        rack.wf(),
    ensures
        rack.after(command).wf(),
{
    let after = rack.after(command);
    assert forall|i: int| 0 <= i < after.notes.len() implies (#[trigger] after.notes[i]).1.instrument
        < after.generators.len() by {
        if i < rack.notes.len() {
            assert(rack.notes[i].1.instrument < rack.generators.len());
        }
    }
    assert forall|i: int, j: int| 0 <= i < j < after.notes.len() implies (
    #[trigger] after.notes[i]).0 != (#[trigger] after.notes[j]).0 by {
        assert(rack.notes[i].0 == after.notes[i].0);
        if j < rack.notes.len() {
            assert(rack.notes[j].0 == after.notes[j].0);
        }
    }
    assert forall|i: int| 0 <= i < after.effects.len() implies 0 <= (
    #[trigger] after.effects[i]).pointer < BUFFER_SIZE && after.effects[i].buffer.len()
        == BUFFER_SIZE && after.effects[i].params.len() == MAXIMUM_PARAM_INDEX by {
        if i < rack.effects.len() {
            assert(rack.effects[i].buffer.len() == BUFFER_SIZE);
        }
        if i + 1 < rack.effects.len() {
            assert(rack.effects[i + 1].buffer.len() == BUFFER_SIZE);
        }
    }
}

/// Commands keep the rack in order.
pub proof fn law_commands_keep_order(rack: Rack, commands: Seq<AudioCommand>)
    requires
        rack.wf(),
    ensures
        rack.after_all(commands).wf(),
    decreases commands.len(),
{
    if commands.len() > 0 {
        law_commands_keep_order(rack, commands.drop_last());
        law_command_keeps_order(rack.after_all(commands.drop_last()), commands.last());
    }
}

/// A note that has not sounded for long can be counted for `len` samples more:
/// the samples so far, those to come and a chunk are within the limits of the
/// machine.
pub proof fn law_young_notes_count(
    rack: Rack,
    sample_rate: u32,
    chunk: int,
    note: (Keycode, NoteData),
    len: int,
)
    requires
        chunk > 0,
        note.1.current_chunk * chunk + len + chunk <= usize::MAX,
    ensures
        note_within(rack, sample_rate, chunk, note, len),
    decreases
        (if len > 0 {
            len
        } else {
            0
        }),
{
    if len > 0 {
        let c = note.1.current_chunk as int;
        assert(c <= c * chunk) by (nonlinear_arith)
            requires
                chunk > 0,
                c >= 0,
        ;
        assert((c + 1) * chunk == c * chunk + chunk) by (nonlinear_arith);
        assert(note.1.current_chunk as usize == c);
        law_young_notes_count(rack, sample_rate, chunk, one_chunk_on(note), len - chunk);
    }
}

/// Commands start notes anew or leave their count alone, and touch nothing else
/// that rendering depends on: samples that can be rendered before them can be
/// rendered after them.
pub proof fn law_commands_leave_room(
    player: PlayerView,
    commands: Seq<AudioCommand>,
    sample_rate: u32,
    chunk: int,
    len: int,
)
    requires
        player.rack.wf(),
        len + chunk <= usize::MAX,
        can_process(player, sample_rate, chunk, len),
    ensures
        can_process(
            PlayerView { rack: player.rack.after_all(commands), ..player },
            sample_rate,
            chunk,
            len,
        ),
    decreases commands.len(),
{
    if commands.len() > 0 {
        law_commands_leave_room(player, commands.drop_last(), sample_rate, chunk, len);
        law_commands_keep_order(player.rack, commands.drop_last());
        let mid = player.rack.after_all(commands.drop_last());
        let after = mid.after(commands.last());
        assert forall|i: int| 0 <= i < after.notes.len() implies note_within(
            after,
            sample_rate,
            chunk,
            #[trigger] after.notes[i],
            len,
        ) by {
            if i < mid.notes.len() && after.notes[i] == mid.notes[i] {
                assert(mid.notes[i].1.instrument < mid.generators.len());
                assert(note_within(mid, sample_rate, chunk, mid.notes[i], len));
                lemma_within_by_definition(
                    mid,
                    after,
                    sample_rate,
                    chunk,
                    mid.notes[i],
                    len,
                );
            } else {
                assert(0 * chunk == 0) by (nonlinear_arith);
                law_young_notes_count(after, sample_rate, chunk, after.notes[i], len);
            }
        }
    }
}

/// A command that is not obeyed changes nothing.
pub proof fn law_refused_changes_nothing(rack: Rack, command: AudioCommand)
    requires
        rack.verdict(command) != Verdict::Obeyed,
    ensures
        rack.after(command) == rack,
{
}

/// A key that goes down and up again has a note that dies away from its start,
/// and no other note is touched.
pub proof fn law_press_then_release(rack: Rack, generator: usize, key: Keycode, pitch: u32)
    requires
        rack.wf(),
        generator < rack.generators.len(),
    ensures
        ({
            let after = rack.after(AudioCommand::Press(generator, key, pitch)).after(
                AudioCommand::Release(key),
            );
            &&& has_note(after.notes, key)
            &&& forall|i: int|
                0 <= i < after.notes.len() ==> {
                    let (k, note) = #[trigger] after.notes[i];
                    if k == key {
                        &&& note.instrument == generator
                        &&& !note.is_pressed
                        &&& note.current_chunk == 0
                    } else {
                        i < rack.notes.len() && rack.notes[i] == (k, note)
                    }
                }
        }),
{
    let pressed = rack.after(AudioCommand::Press(generator, key, pitch));
    let after = pressed.after(AudioCommand::Release(key));
    if has_note(rack.notes, key) {
        let i = choose|i: int| 0 <= i < rack.notes.len() && (#[trigger] rack.notes[i]).0 == key;
        assert(after.notes[i].0 == key);
    } else {
        assert(after.notes[rack.notes.len() as int].0 == key);
    }
}

/// Removing the effect that was just added undoes the adding.
pub proof fn law_del_undoes_new_effect(rack: Rack, definition: EffectDefinition)
    requires
        rack.wf(),
        rack.effects.len() <= usize::MAX,
    ensures
        rack.after(AudioCommand::NewEffect(definition)).after(
            AudioCommand::DelEffect(rack.effects.len() as usize),
        ) == rack,
{
    let n = rack.effects.len() as int;
    assert(rack.effects.push(fresh_effect(definition)).remove(n) == rack.effects);
    assert(rack.after(AudioCommand::NewEffect(definition)).wetness.remove(n) == rack.wetness);
}

// Notes

/// While its key is down or its generator has not finished, a note goes on, one
/// chunk further.
pub proof fn law_note_goes_on(
    generators: Seq<GeneratorView>,
    sample_rate: u32,
    chunk: int,
    notes: Seq<(Keycode, NoteData)>,
    i: int,
)
    requires
        0 <= i < notes.len(),
        note_stays(generators, sample_rate, chunk, notes[i].1),
    ensures
        notes_after_chunk(generators, sample_rate, chunk, notes).contains(
            one_chunk_on(notes[i]),
        ),
    decreases notes.len(),
{
    let after = notes_after_chunk(generators, sample_rate, chunk, notes);
    let next = one_chunk_on(notes[i]);
    let shorter = notes.drop_last();
    let before = notes_after_chunk(generators, sample_rate, chunk, shorter);
    if i < shorter.len() {
        law_note_goes_on(generators, sample_rate, chunk, shorter, i);
        let j = choose|j: int| 0 <= j < before.len() && before[j] == next;
        assert(after[j] == next);
    } else {
        assert(after.last() == next);
        assert(after[after.len() - 1] == next);
    }
}

/// Once its key is up and its generator has finished, a note is gone.
pub proof fn law_note_ends(
    generators: Seq<GeneratorView>,
    sample_rate: u32,
    chunk: int,
    notes: Seq<(Keycode, NoteData)>,
    i: int,
)
    requires
        keys_differ(notes),
        0 <= i < notes.len(),
        !note_stays(generators, sample_rate, chunk, notes[i].1),
    ensures
        !has_note(notes_after_chunk(generators, sample_rate, chunk, notes), notes[i].0),
    decreases notes.len(),
{
    let key = notes[i].0;
    let shorter = notes.drop_last();
    let before = notes_after_chunk(generators, sample_rate, chunk, shorter);
    let after = notes_after_chunk(generators, sample_rate, chunk, notes);
    assert forall|a: int, b: int| 0 <= a < b < shorter.len() implies (#[trigger] shorter[a]).0 != (
    #[trigger] shorter[b]).0 by {
        assert(notes[a].0 != notes[b].0);
    }
    if i < shorter.len() {
        law_note_ends(generators, sample_rate, chunk, shorter, i);
        assert(notes[i].0 != notes[notes.len() - 1].0);
    } else {
        crate::render::lemma_keys_after_chunk(generators, sample_rate, chunk, shorter);
        assert(after == before);
        if has_note(before, key) {
            let j = choose|j: int| 0 <= j < before.len() && (#[trigger] before[j]).0 == key;
            let a = choose|a: int| 0 <= a < shorter.len() && (#[trigger] shorter[a]).0 == before[j].0;
            assert(notes[a].0 != notes[i].0);
        }
    }
    if has_note(after, key) {
        let j = choose|j: int| 0 <= j < after.len() && (#[trigger] after[j]).0 == key;
        if j < before.len() {
            assert(before[j].0 == key);
        }
    }
}

// The delay

/// Two different steps within one round write to different places.
proof fn lemma_round_differs(p: int, n: int, a: int, b: int)
    requires
        n > 0,
        0 < b - a < n,
    ensures
        (p + a) % n != (p + b) % n,
{
    if (p + a) % n == (p + b) % n {
        vstd::arithmetic::div_mod::lemma_mod_equivalence(p + b, p + a, n);
        vstd::arithmetic::div_mod::lemma_small_mod((b - a) as nat, n as nat);
    }
}

/// A sample stays in the loop until the loop comes round.
proof fn lemma_recorded_recent(buffer: Seq<u32>, p: int, n: int, out: Seq<u32>, i: int)
    requires
        2 <= n <= buffer.len(),
        0 <= p < n,
        0 <= i < out.len() <= i + n,
    ensures
        recorded(buffer, p, n, out).len() == buffer.len(),
        recorded(buffer, p, n, out)[(p + i) % n] == out[i],
    decreases out.len(),
{
    let last = out.len() - 1;
    let shorter = out.drop_last();
    lemma_recorded_len(buffer, p, n, shorter);
    vstd::arithmetic::div_mod::lemma_small_mod(p as nat, n as nat);
    vstd::arithmetic::div_mod::lemma_mod_bound(p + last, n);
    vstd::arithmetic::div_mod::lemma_mod_bound(p + i, n);
    if i < last {
        lemma_recorded_recent(buffer, p, n, shorter, i);
        lemma_round_differs(p, n, i, last);
    }
}

/// Writing to the delay's buffer does not change its size.
pub proof fn lemma_recorded_len(buffer: Seq<u32>, p: int, n: int, out: Seq<u32>)
    requires
        0 < n <= buffer.len(),
        0 <= p < buffer.len(),
    ensures
        recorded(buffer, p, n, out).len() == buffer.len(),
    decreases out.len(),
{
    if out.len() > 0 {
        lemma_recorded_len(buffer, p, n, out.drop_last());
        vstd::arithmetic::div_mod::lemma_mod_bound(p + (out.len() - 1), n);
    }
}

/// What the delay plays back is what it played one loop, less one sample, ago.
pub proof fn law_echo_is_past_output(buffer: Seq<u32>, p: int, n: int, out: Seq<u32>, i: int)
    requires
        2 <= n <= buffer.len(),
        0 <= p < n,
        0 <= i,
        i + n - 1 < out.len(),
    ensures
        echo(buffer, p, n, out, i + n - 1) == out[i],
{
    let j = i + n - 1;
    let past = out.take(j);
    lemma_recorded_recent(buffer, p, n, past, i);
    crate::effect::lemma_step_round(p, n, j);
    assert(pointer_after(p, n, j + 1) == (p + i + n) % n);
    vstd::arithmetic::div_mod::lemma_mod_add_multiples_vanish(p + i, n);
}

/// The delay does not notice where one chunk ends and the next begins.
pub proof fn law_delay_joins_chunks(
    buffer: Seq<u32>,
    p: int,
    n: int,
    first: Seq<u32>,
    second: Seq<u32>,
)
    requires
        n > 0,
    ensures
        recorded(
            recorded(buffer, p, n, first),
            pointer_after(p, n, first.len() as int),
            n,
            second,
        ) == recorded(buffer, p, n, first + second),
        pointer_after(pointer_after(p, n, first.len() as int), n, second.len() as int)
            == pointer_after(p, n, (first + second).len() as int),
    decreases second.len(),
{
    let k = first.len() as int;
    lemma_pointer_adds(p, n, k, second.len() as int);
    if second.len() == 0 {
        assert(first + second == first);
    } else {
        law_delay_joins_chunks(buffer, p, n, first, second.drop_last());
        assert((first + second).drop_last() == first + second.drop_last());
        lemma_pointer_adds(p, n, k, second.len() - 1);
    }
}

proof fn lemma_pointer_adds(p: int, n: int, a: int, b: int)
    requires
        n > 0,
        a >= 0,
        b >= 0,
    ensures
        pointer_after(pointer_after(p, n, a), n, b) == pointer_after(p, n, a + b),
{
    if a > 0 && b > 0 {
        vstd::arithmetic::div_mod::lemma_add_mod_noop(p + a, b, n);
        vstd::arithmetic::div_mod::lemma_mod_twice(p + a, n);
        vstd::arithmetic::div_mod::lemma_add_mod_noop((p + a) % n, b, n);
    }
}

/// A loop that became shorter leaves the rest of the buffer as it was: when the
/// loop becomes longer again, that old sound comes back.
pub proof fn law_short_loop_leaves_rest(buffer: Seq<u32>, p: int, n: int, out: Seq<u32>, j: int)
    requires
        0 < n <= j < buffer.len(),
        0 <= p < n,
    ensures
        recorded(buffer, p, n, out)[j] == buffer[j],
    decreases out.len(),
{
    if out.len() > 0 {
        law_short_loop_leaves_rest(buffer, p, n, out.drop_last(), j);
        lemma_recorded_len(buffer, p, n, out.drop_last());
        vstd::arithmetic::div_mod::lemma_mod_bound(p + (out.len() - 1), n);
    }
}

// Mixing

/// Filtering what was mapped is mapping what was filtered.
proof fn lemma_filter_of_map(
    sounds: Seq<Sound>,
    f: spec_fn(Sound) -> Sound,
    pred: spec_fn(Sound) -> bool,
)
    ensures
        sounds.map_values(f).filter(pred) == sounds.filter(|s: Sound| pred(f(s))).map_values(f),
    decreases sounds.len(),
{
    reveal(Seq::filter);
    let both = |s: Sound| pred(f(s));
    if sounds.len() > 0 {
        let shorter = sounds.drop_last();
        lemma_filter_of_map(shorter, f, pred);
        assert(sounds.map_values(f).drop_last() == shorter.map_values(f));
        if both(sounds.last()) {
            assert(sounds.filter(both).map_values(f) == shorter.filter(both).map_values(f).push(
                f(sounds.last()),
            ));
        }
    } else {
        assert(sounds.map_values(f).filter(pred) == sounds.filter(both).map_values(f));
    }
}

/// Filtering twice is filtering once by both.
proof fn lemma_filter_twice(
    sounds: Seq<Sound>,
    first: spec_fn(Sound) -> bool,
    second: spec_fn(Sound) -> bool,
    both: spec_fn(Sound) -> bool,
)
    requires
        forall|s: Sound| #[trigger] both(s) == (first(s) && second(s)),
    ensures
        sounds.filter(first).filter(second) == sounds.filter(both),
    decreases sounds.len(),
{
    reveal(Seq::filter);
    if sounds.len() > 0 {
        let shorter = sounds.drop_last();
        lemma_filter_twice(shorter, first, second, both);
        if first(sounds.last()) {
            assert(sounds.filter(first).drop_last() == shorter.filter(first));
        }
        assert(both(sounds.last()) == (first(sounds.last()) && second(sounds.last())));
    }
}

/// After `n` samples, `n > 0`, those sounds are left of which the last of these
/// samples was one, each as many samples further.
pub proof fn law_sounds_after(sounds: Seq<Sound>, n: nat)
    requires
        n > 0,
    ensures
        sounds_after(sounds, n) == sounds.filter(
            |s: Sound| s.position + n - 1 < s.sample.len(),
        ).map_values(|s: Sound| Sound { position: s.position + n, ..s }),
    decreases n,
{
    let is_left = |s: Sound| s.is_left();
    let step = |s: Sound| s.stepped();
    let reaches = |s: Sound| s.position + n - 1 < s.sample.len();
    let ahead = |s: Sound| Sound { position: s.position + n, ..s };
    if n == 1 {
        assert(sounds_after(sounds, 0) == sounds);
        lemma_filter_same(sounds, is_left, reaches);
        assert(sounds_after(sounds, 1) == sounds.filter(reaches).map_values(ahead));
    } else {
        let m = (n - 1) as nat;
        law_sounds_after(sounds, m);
        let reached = |s: Sound| s.position + m - 1 < s.sample.len();
        let further = |s: Sound| Sound { position: s.position + m, ..s };
        let kept = sounds.filter(reached);
        assert(sounds_after(sounds, m) == kept.map_values(further));
        lemma_filter_of_map(kept, further, is_left);
        let left_further = |s: Sound| is_left(further(s));
        lemma_filter_twice(sounds, reached, left_further, reaches);
        assert(sounding(sounds_after(sounds, m)) == sounds.filter(reaches).map_values(further));
        assert(sounds.filter(reaches).map_values(further).map_values(step) == sounds.filter(
            reaches,
        ).map_values(ahead));
    }
}

proof fn lemma_filter_same(
    sounds: Seq<Sound>,
    first: spec_fn(Sound) -> bool,
    second: spec_fn(Sound) -> bool,
)
    requires
        forall|s: Sound| #[trigger] first(s) == second(s),
    ensures
        sounds.filter(first) == sounds.filter(second),
    decreases sounds.len(),
{
    reveal(Seq::filter);
    if sounds.len() > 0 {
        lemma_filter_same(sounds.drop_last(), first, second);
        assert(first(sounds.last()) == second(sounds.last()));
    }
}

/// Each sound adds each of its samples once, in order: `n` samples from now,
/// the sample `n` places further, as long as there is one.
pub proof fn law_each_sample_heard_once(sounds: Seq<Sound>, n: nat)
    ensures
        levels(sounds_after(sounds, n)) == sounds.filter(
            |s: Sound| s.position + n < s.sample.len(),
        ).map_values(|s: Sound| s.sample[s.position + n]),
{
    let reaches = |s: Sound| s.position + n < s.sample.len();
    let sample = |s: Sound| s.sample[s.position + n];
    if n == 0 {
        let is_left = |s: Sound| s.is_left();
        lemma_filter_same(sounds, is_left, reaches);
        assert(levels(sounds) == sounds.filter(reaches).map_values(sample));
    } else {
        law_sounds_after(sounds, n);
        law_sounds_after(sounds, n + 1);
        let after = sounding(sounds_after(sounds, n));
        let reaches_next = |s: Sound| s.position + (n + 1) - 1 < s.sample.len();
        lemma_filter_same(sounds, reaches, reaches_next);
        let kept = sounds.filter(reaches);
        let next = sounds_after(sounds, n + 1);
        let step = |s: Sound| s.stepped();
        assert(next == after.map_values(step));
        assert(next.len() == kept.len());
        assert forall|i: int| 0 <= i < kept.len() implies #[trigger] after[i].level() == sample(
            kept[i],
        ) by {
            assert(next[i] == step(after[i]));
            assert(next[i] == (Sound { position: kept[i].position + (n + 1), ..kept[i] }));
        }
        assert(levels(sounds_after(sounds, n)) == kept.map_values(sample));
    }
}

/// A sound that starts with its chunk is over when the chunk is.
pub proof fn law_chunk_plays_whole_sound(sounds: Seq<Sound>, chunk: nat)
    requires
        chunk > 0,
        forall|i: int|
            0 <= i < sounds.len() ==> (#[trigger] sounds[i]).position >= 0 && sounds[i].sample.len()
                <= chunk,
    ensures
        levels(sounds_after(sounds, chunk)) == Seq::<u32>::empty(),
{
    law_each_sample_heard_once(sounds, chunk);
    let pred = |s: Sound| s.position + chunk < s.sample.len();
    sounds.lemma_all_neg_filter_empty(pred);
}

// The region

proof fn lemma_written_len(region: Seq<u32>, pointer: int, samples: Seq<u32>)
    requires
        region.len() == BUFFER_REGION_SIZE,
    ensures
        written(region, pointer, samples).len() == region.len(),
    decreases samples.len(),
{
    if samples.len() > 0 {
        lemma_written_len(region, pointer, samples.drop_last());
    }
}

/// What is written to the region can be read from it.
pub proof fn law_region_keeps_written(
    region: Seq<u32>,
    pointer: int,
    samples: Seq<u32>,
    i: int,
)
    requires
        region.len() == BUFFER_REGION_SIZE,
        0 <= i < samples.len() <= BUFFER_REGION_SIZE,
    ensures
        written(region, pointer, samples)[(pointer + i) % BUFFER_REGION_SIZE as int] == samples[i],
    decreases samples.len(),
{
    let shorter = samples.drop_last();
    lemma_written_len(region, pointer, shorter);
    if i < shorter.len() {
        law_region_keeps_written(region, pointer, shorter, i);
        lemma_round_differs(pointer, BUFFER_REGION_SIZE as int, i, samples.len() - 1);
    }
}

/// Writing to the region leaves the rest of it alone.
pub proof fn law_region_keeps_rest(region: Seq<u32>, pointer: int, samples: Seq<u32>, i: int)
    requires
        region.len() == BUFFER_REGION_SIZE,
        samples.len() <= i < BUFFER_REGION_SIZE,
    ensures
        written(region, pointer, samples)[(pointer + i) % BUFFER_REGION_SIZE as int]
            == region[(pointer + i) % BUFFER_REGION_SIZE as int],
    decreases samples.len(),
{
    if samples.len() > 0 {
        let shorter = samples.drop_last();
        lemma_written_len(region, pointer, shorter);
        law_region_keeps_rest(region, pointer, shorter, i);
        lemma_round_differs(pointer, BUFFER_REGION_SIZE as int, samples.len() - 1, i);
    }
}

/// Smoothing a seam touches only the frames behind its start.
pub proof fn law_declick_is_local(
    region: Seq<u32>,
    start: int,
    smoothed: Seq<u32>,
    j: int,
)
    requires
        region.len() == BUFFER_REGION_SIZE,
        forall|k: int|
            0 < k <= smoothed.len() ==> #[trigger] declick_left(start, k) != j && declick_right(
                start,
                k,
            ) != j,
        0 <= j < BUFFER_REGION_SIZE,
    ensures
        declicked_frames(region, start, smoothed).len() == region.len(),
        declicked_frames(region, start, smoothed)[j] == region[j],
    decreases smoothed.len(),
{
    if smoothed.len() > 0 {
        let k = smoothed.len() as int;
        law_declick_is_local(region, start, smoothed.drop_last(), j);
        assert(declick_left(start, k) != j);
    }
}

/// Where the samples asked for divide the region evenly and start on such a
/// division, and chunks are a whole number of frames, the samples can be
/// rendered and streamed, now and in the next call.
pub proof fn law_even_requests_fit(player: PlayerView, sample_rate: u32, chunk: int, len: int)
    requires
        chunk > 0,
        chunk % 2 == 0,
        0 < len <= BUFFER_REGION_SIZE,
        BUFFER_REGION_SIZE as int % len == 0,
        0 <= player.pointer < BUFFER_REGION_SIZE,
        player.pointer % len == 0,
        player.pointer % 2 == 0,
        notes_within(player.rack, sample_rate, chunk, len),
    ensures
        can_process(player, sample_rate, chunk, len),
        ((player.pointer + len) % BUFFER_REGION_SIZE as int) % len == 0,
        len % 2 == 0 ==> ((player.pointer + len) % BUFFER_REGION_SIZE as int) % 2 == 0,
{
    let size = BUFFER_REGION_SIZE as int;
    let next = player.pointer + len;
    let rounds = size / len;
    let place = player.pointer / len;
    vstd::arithmetic::div_mod::lemma_fundamental_div_mod(size, len);
    vstd::arithmetic::div_mod::lemma_fundamental_div_mod(player.pointer, len);
    assert(size == len * rounds);
    assert(player.pointer == len * place);
    assert(next == len * (place + 1)) by (nonlinear_arith)
        requires
            next == len * place + len,
    ;
    assert(place + 1 <= rounds) by (nonlinear_arith)
        requires
            len * place < len * rounds,
            len > 0,
    ;
    if place + 1 == rounds {
        assert(next == size);
        assert(next % size == 0);
        vstd::arithmetic::div_mod::lemma_small_mod(0, len as nat);
        assert(0int + len <= size);
    } else {
        assert(next + len <= size) by (nonlinear_arith)
            requires
                next == len * (place + 1),
                size == len * rounds,
                place + 2 <= rounds,
                len > 0,
        ;
        assert(next % size == next);
        vstd::arithmetic::div_mod::lemma_mod_multiples_basic(place + 1, len);
        assert(len * (place + 1) == (place + 1) * len) by (nonlinear_arith);
    }
    assert forall|k: int| 0 <= k && #[trigger] (k * chunk) < len implies declick_start(
        (player.pointer + k * chunk) % size,
    ) + 1 < size by {
        let half = chunk / 2;
        assert(k * chunk == 2 * (k * half)) by (nonlinear_arith)
            requires
                chunk == 2 * half,
        ;
        let start = (player.pointer + k * chunk) % size;
        assert(start % 2 == 0);
    }
}

/// The seam at `p` does not reach the place `d` samples further.
proof fn lemma_seam_misses(p: int, d: int, k: int)
    requires
        0 <= p < BUFFER_REGION_SIZE,
        4 <= d < BUFFER_REGION_SIZE - 2,
        0 < k <= DECLICK_SIZE / 2 - 1,
    ensures
        declick_left(declick_start(p), k) != (p + d) % BUFFER_REGION_SIZE as int,
        declick_right(declick_start(p), k) != (p + d) % BUFFER_REGION_SIZE as int,
{
    assert(k == 1 || k == 2 || k == 3);
}

/// A chunk of `n` samples touches the region where it is written and at the seam
/// before it, from two samples before its start to three behind it.
proof fn lemma_chunk_is_local<A: Arithmetic>(
    ar: A,
    sample_rate: u32,
    chunk: int,
    n: int,
    before: PlayerView,
    after: PlayerView,
    d: int,
)
    requires
        chunk_played(ar, sample_rate, chunk, n, before, after),
        before.region.len() == BUFFER_REGION_SIZE,
        0 <= before.pointer < BUFFER_REGION_SIZE,
        n <= d,
        4 <= d < BUFFER_REGION_SIZE - 2,
    ensures
        after.region.len() == BUFFER_REGION_SIZE,
        after.region[(before.pointer + d) % BUFFER_REGION_SIZE as int] == before.region[(
        before.pointer + d) % BUFFER_REGION_SIZE as int],
{
    let p = before.pointer;
    let j = (p + d) % BUFFER_REGION_SIZE as int;
    let samples = lemma_chunk_region(ar, sample_rate, chunk, n, before, after);
    let full = written(before.region, p, samples);
    lemma_written_len(before.region, p, samples);
    law_region_keeps_rest(before.region, p, samples, d);
    let start = declick_start(p);
    let smoothed = choose|smoothed: Seq<u32>|
        {
            &&& smoothed.len() == DECLICK_SIZE / 2 - 1
            &&& #[trigger] smoothed_samples(ar, sample_rate, full, start, smoothed)
            &&& after.region == declicked_frames(full, start, smoothed)
        };
    assert forall|k: int| 0 < k <= smoothed.len() implies #[trigger] declick_left(start, k) != j
        && declick_right(start, k) != j by {
        lemma_seam_misses(p, d, k);
    }
    law_declick_is_local(full, start, smoothed, j);
}

/// However many chunks are rendered, the pointer moves on by their samples, and
/// the region is touched only where these are written and at the seams. A place
/// `d` samples behind the pointer stays as it was if it lies behind what is
/// written, four or more samples behind the start of the last chunk, and more
/// than two before the pointer.
pub proof fn law_playing_is_local<A: Arithmetic>(
    ar: A,
    sample_rate: u32,
    chunk: int,
    len: int,
    before: PlayerView,
    after: PlayerView,
    d: int,
)
    requires
        chunk > 0,
        len >= 0,
        before.region.len() == BUFFER_REGION_SIZE,
        0 <= before.pointer < BUFFER_REGION_SIZE,
        all_played(ar, sample_rate, chunk, len, before, after),
        len <= d < BUFFER_REGION_SIZE - 2,
        forall|k: int| 0 <= k && #[trigger] (k * chunk) < len ==> k * chunk + 4 <= d,
    ensures
        after.pointer == (before.pointer + len) % BUFFER_REGION_SIZE as int,
        after.region.len() == BUFFER_REGION_SIZE,
        after.region[(before.pointer + d) % BUFFER_REGION_SIZE as int] == before.region[(
        before.pointer + d) % BUFFER_REGION_SIZE as int],
{
    let states = choose|states: Seq<PlayerView>|
        {
            &&& #[trigger] chunk_states(ar, sample_rate, chunk, len, states)
            &&& states[0] == before
            &&& states.last() == after
            &&& (states.len() - 2) * chunk < len <= (states.len() - 1) * chunk
        };
    let last = states.len() - 1;
    lemma_states_local(ar, sample_rate, chunk, len, states, last, d);
    lemma_pointer_between(ar, sample_rate, chunk, len, states, last);
}

/// The region after `k` chunks.
proof fn lemma_states_local<A: Arithmetic>(
    ar: A,
    sample_rate: u32,
    chunk: int,
    len: int,
    states: Seq<PlayerView>,
    k: int,
    d: int,
)
    requires
        chunk > 0,
        len >= 0,
        0 <= k < states.len(),
        (states.len() - 2) * chunk < len,
        chunk_states(ar, sample_rate, chunk, len, states),
        states[0].region.len() == BUFFER_REGION_SIZE,
        0 <= states[0].pointer < BUFFER_REGION_SIZE,
        len <= d < BUFFER_REGION_SIZE - 2,
        forall|k: int| 0 <= k && #[trigger] (k * chunk) < len ==> k * chunk + 4 <= d,
    ensures
        states[k].region.len() == BUFFER_REGION_SIZE,
        states[k].region[(states[0].pointer + d) % BUFFER_REGION_SIZE as int]
            == states[0].region[(states[0].pointer + d) % BUFFER_REGION_SIZE as int],
    decreases k,
{
    if k > 0 {
        lemma_states_local(ar, sample_rate, chunk, len, states, k - 1, d);
        lemma_pointer_between(ar, sample_rate, chunk, len, states, k);
        lemma_pointer_between(ar, sample_rate, chunk, len, states, k - 1);
        let size = BUFFER_REGION_SIZE as int;
        let n = chunk_len(len, chunk, k - 1);
        let done = (k - 1) * chunk;
        assert(done >= 0) by (nonlinear_arith)
            requires
                done == (k - 1) * chunk,
                k > 0,
                chunk > 0,
        ;
        assert(chunk_played(ar, sample_rate, chunk, n, states[k - 1], states[k]));
        lemma_chunk_is_local(ar, sample_rate, chunk, n, states[k - 1], states[k], d - done);
        assert((states[k - 1].pointer + (d - done)) % size == (states[0].pointer + d) % size) by {
            vstd::arithmetic::div_mod::lemma_add_mod_noop(
                states[0].pointer + done,
                d - done,
                size,
            );
            vstd::arithmetic::div_mod::lemma_add_mod_noop(
                (states[0].pointer + done) % size,
                d - done,
                size,
            );
            vstd::arithmetic::div_mod::lemma_mod_twice(states[0].pointer + done, size);
        }
    }
}

/// A few places on from `p`, round the region, without passing its end.
proof fn lemma_no_wrap(p: int, i: int)
    requires
        0 <= i,
        p % BUFFER_REGION_SIZE as int + i < BUFFER_REGION_SIZE,
    ensures
        (p + i) % BUFFER_REGION_SIZE as int == p % BUFFER_REGION_SIZE as int + i,
{
}

/// What is streamed was in the region before the call: the samples that a call
/// renders are streamed by a later one. Left out are the places that the
/// smoothing reaches: the two before the first chunk, and those that the seam of
/// a last chunk of less than four samples leads to.
pub proof fn law_stream_lags<A: Arithmetic>(
    ar: A,
    sample_rate: u32,
    chunk: int,
    len: int,
    before: PlayerView,
    after: PlayerView,
    i: int,
)
    requires
        can_process(before, sample_rate, chunk, len),
        before.region.len() == BUFFER_REGION_SIZE,
        0 <= before.pointer < BUFFER_REGION_SIZE,
        all_played(ar, sample_rate, chunk, len, before, after),
        0 <= i < len,
        len + i < BUFFER_REGION_SIZE - 2,
        forall|k: int| 0 <= k && #[trigger] (k * chunk) < len ==> k * chunk + 4 <= len + i,
    ensures
        streamed(after, len)[i] == before.region[after.pointer + i],
{
    law_playing_is_local(ar, sample_rate, chunk, len, before, after, len + i);
    lemma_no_wrap(before.pointer + len, i);
    assert(before.pointer + (len + i) == before.pointer + len + i);
}

// The menus

/// Going on undoes going back, and the other way round.
pub proof fn law_back_and_on(i: int, n: int)
    requires
        0 <= i < n,
    ensures
        cycle_on(cycle_back(i, n), n) == i,
        cycle_back(cycle_on(i, n), n) == i,
        0 <= cycle_back(i, n) < n,
        0 <= cycle_on(i, n) < n,
{
}

/// Switching the mode twice leads back.
pub proof fn law_mode_twice(gui: GuiView, struck: Seq<Keycode>)
    ensures
        gui.mode_struck(struck).mode_struck(struck) == gui,
{
}

/// Removing the effect that was just added undoes the adding.
pub proof fn law_removing_undoes_adding(
    gui: GuiView,
    definition: EffectDefinition,
    effects: int,
    generators: int,
)
    requires
        gui.wf(effects, generators),
    ensures
        gui.with_effect(definition).without_effect(gui.effect_stack.len() as int) == gui,
{
    let n = gui.effect_stack.len() as int;
    let more = gui.with_effect(definition);
    assert(more.effect_stack.remove(n) == gui.effect_stack);
    assert(more.effect_params.remove(n) == gui.effect_params);
    assert(more.effect_wetness.remove(n) == gui.effect_wetness);
}

/// Where a key lies on the piano.
pub open spec fn seat_of(key: Keycode) -> (int, int) {
    match key {
        Keycode::Key1 => (0, 0),
        Keycode::Key2 => (0, 1),
        Keycode::Key3 => (0, 2),
        Keycode::Key4 => (0, 3),
        Keycode::Key5 => (0, 4),
        Keycode::Key6 => (0, 5),
        Keycode::Key7 => (0, 6),
        Keycode::Key8 => (0, 7),
        Keycode::Key9 => (0, 8),
        Keycode::Key0 => (0, 9),
        Keycode::Minus => (0, 10),
        Keycode::Equal => (0, 11),
        Keycode::Q => (1, 0),
        Keycode::W => (1, 1),
        Keycode::E => (1, 2),
        Keycode::R => (1, 3),
        Keycode::T => (1, 4),
        Keycode::Y => (1, 5),
        Keycode::U => (1, 6),
        Keycode::I => (1, 7),
        Keycode::O => (1, 8),
        Keycode::P => (1, 9),
        Keycode::LeftBracket => (1, 10),
        Keycode::RightBracket => (1, 11),
        Keycode::A => (2, 0),
        Keycode::S => (2, 1),
        Keycode::D => (2, 2),
        Keycode::F => (2, 3),
        Keycode::G => (2, 4),
        Keycode::H => (2, 5),
        Keycode::J => (2, 6),
        Keycode::K => (2, 7),
        Keycode::L => (2, 8),
        Keycode::Semicolon => (2, 9),
        Keycode::Apostrophe => (2, 10),
        Keycode::Z => (3, 0),
        Keycode::X => (3, 1),
        Keycode::C => (3, 2),
        Keycode::V => (3, 3),
        Keycode::B => (3, 4),
        Keycode::N => (3, 5),
        Keycode::M => (3, 6),
        Keycode::Comma => (3, 7),
        Keycode::Dot => (3, 8),
        Keycode::Slash => (3, 9),
        _ => (4, 0),
    }
}

proof fn lemma_seats(i: int, j: int)
    requires
        0 <= i < key_rows().len(),
        0 <= j < key_rows()[i].len(),
    ensures
        seat_of(key_rows()[i][j]) == (i, j),
{
    assert(i == 0 || i == 1 || i == 2 || i == 3);
    assert(j == 0 || j == 1 || j == 2 || j == 3 || j == 4 || j == 5 || j == 6 || j == 7 || j == 8
        || j == 9 || j == 10 || j == 11);
}

/// The keys of the piano are the four rows of 12, 12, 11 and 10 keys: each of these
/// keys lies in its place, and no other key is among them.
pub proof fn law_piano_is_four_rows(key: Keycode)
    ensures
        key_rows().len() == 4,
        key_rows()[0].len() == 12,
        key_rows()[1].len() == 12,
        key_rows()[2].len() == 11,
        key_rows()[3].len() == 10,
        ({
            let (i, j) = seat_of(key);
            if i < 4 {
                0 <= i && 0 <= j < key_rows()[i].len() && key_rows()[i][j] == key
            } else {
                forall|k: int, l: int|
                    0 <= k < 4 && 0 <= l < key_rows()[k].len() ==> #[trigger] key_rows()[k][l]
                        != key
            }
        }),
{
    let (i, j) = seat_of(key);
    if i == 4 {
        assert forall|k: int, l: int| 0 <= k < 4 && 0 <= l < key_rows()[k].len() implies
            #[trigger] key_rows()[k][l] != key by {
            lemma_seats(k, l);
        }
    }
}

/// No key of the piano lies in two places.
pub proof fn law_piano_keys_differ(i: int, j: int, k: int, l: int)
    requires
        0 <= i < key_rows().len(),
        0 <= j < key_rows()[i].len(),
        0 <= k < key_rows().len(),
        0 <= l < key_rows()[k].len(),
        key_rows()[i][j] == key_rows()[k][l],
    ensures
        i == k,
        j == l,
{
    lemma_seats(i, j);
    lemma_seats(k, l);
}

} // verus!
