//! The commands that the control side sends to the audio side, and the ring
//! that carries them from one thread to the other.

use ringbuf::traits::{Consumer, Producer, Split};
use ringbuf::{HeapCons, HeapProd, HeapRb};

use vstd::prelude::*;

use crate::effect::EffectDefinition;
use crate::generator::GeneratorDefinition;
use crate::keys::Keycode;

verus! {

/// What the audio side can be told. Pitches and values are words.
#[derive(Clone, Copy, PartialEq, Eq, Structural, Debug)]
pub enum AudioCommand {
    /// Another generator, behind those that are there.
    NewGenerator(GeneratorDefinition),
    /// A key goes down: the generator to sound it with, the key, its pitch.
    Press(usize, Keycode, u32),
    /// A key goes up.
    Release(Keycode),
    /// Another effect, behind those that are there.
    NewEffect(EffectDefinition),
    /// The effect at this place goes.
    DelEffect(usize),
    /// The effect at this place gets a value: its wetness for parameter 0, else
    /// the parameter one below.
    SetParam(usize, usize, u32),
}

/// A ring of commands before it is split into its two ends.
#[verifier::external_body]
pub struct CommandRing {
    ring: HeapRb<AudioCommand>,
}

/// The end of a ring that commands go into.
#[verifier::external_body]
pub struct CommandSender {
    end: HeapProd<AudioCommand>,
}

/// The end of a ring that commands come out of.
#[verifier::external_body]
pub struct CommandReceiver {
    end: HeapCons<AudioCommand>,
}

/// The commands in the ring, oldest first.
pub uninterp spec fn ring_contents(ring: CommandRing) -> Seq<AudioCommand>;

/// The number of commands that the ring was made for.
pub uninterp spec fn ring_room(ring: CommandRing) -> nat;

/// The commands that this end was given so far, oldest first, whether the ring
/// took them or handed them back.
pub uninterp spec fn offers(sender: CommandSender) -> Seq<AudioCommand>;

/// The commands that the ring has taken from this end so far, oldest first.
pub uninterp spec fn sent(sender: CommandSender) -> Seq<AudioCommand>;

/// The number of commands that the ring behind this end was made for.
pub uninterp spec fn room(sender: CommandSender) -> nat;

/// The commands that the ring takes from this end in its whole life, which
/// ends some time, oldest first. No call changes it; it is known as far as
/// [`sent`] goes.
pub uninterp spec fn traffic_in(sender: CommandSender) -> Seq<AudioCommand>;

/// The commands that this end has handed out so far, oldest first.
pub uninterp spec fn received(receiver: CommandReceiver) -> Seq<AudioCommand>;

/// How often this end has found the ring empty so far.
pub uninterp spec fn found_empty(receiver: CommandReceiver) -> nat;

/// The commands that the ring takes from its other end in its whole life, which
/// ends some time, oldest first. No call changes it; it is known as far as
/// [`received`] goes.
pub uninterp spec fn traffic_out(receiver: CommandReceiver) -> Seq<AudioCommand>;

impl CommandRing {
    /// `HeapRb::new`: an empty ring with room for exactly `capacity` commands.
    /// It panics on a capacity of zero and on one that cannot be allocated.
    #[verifier::external_body]
    pub(crate) fn new(capacity: usize) -> (r: CommandRing)
        requires
            0 < capacity <= 65536,
        ensures
            ring_contents(r) == Seq::<AudioCommand>::empty(),
            ring_room(r) == capacity,
    {
        CommandRing { ring: HeapRb::new(capacity) }
    }

    /// `Split::split` of an empty `HeapRb`: the two ends, neither of them used
    /// yet. What comes out of the one is what goes into the other.
    #[verifier::external_body]
    pub(crate) fn split(self) -> (r: (CommandSender, CommandReceiver))
        requires
            ring_contents(self) == Seq::<AudioCommand>::empty(),
        ensures
            offers(r.0) == Seq::<AudioCommand>::empty(),
            sent(r.0) == Seq::<AudioCommand>::empty(),
            received(r.1) == Seq::<AudioCommand>::empty(),
            found_empty(r.1) == 0,
            room(r.0) == ring_room(self),
            traffic_in(r.0) == traffic_out(r.1),
    {
        let (producer, consumer) = self.ring.split();
        (CommandSender { end: producer }, CommandReceiver { end: consumer })
    }
}

impl CommandSender {
    /// `Producer::try_push`: appends the command, or hands it back if the ring
    /// is full. Whether it is depends on the other end, but as long as fewer
    /// commands than the ring has room for were ever sent, it is not.
    #[verifier::external_body]
    pub(crate) fn try_push(&mut self, command: AudioCommand) -> (r: Result<(), AudioCommand>)
        ensures
            offers(*final(self)) == offers(*old(self)).push(command),
            match r {
                Ok(_) => sent(*final(self)) == sent(*old(self)).push(command),
                Err(returned) => returned == command && sent(*final(self)) == sent(*old(self)),
            },
            sent(*old(self)).len() < room(*old(self)) ==> r is Ok,
            room(*final(self)) == room(*old(self)),
            traffic_in(*final(self)) == traffic_in(*old(self)),
            r is Ok ==> sent(*final(self)).is_prefix_of(traffic_in(*final(self))),
    {
        self.end.try_push(command)
    }
}

impl CommandReceiver {
    /// `Consumer::try_pop`: removes the oldest command and returns it, or
    /// returns `None` if it finds the ring empty. Whether it does depends on the
    /// other end; so nothing is said of when a command comes, but it is counted
    /// how often none did.
    #[verifier::external_body]
    pub(crate) fn try_pop(&mut self) -> (r: Option<AudioCommand>)
        ensures
            match r {
                Some(command) => {
                    &&& received(*final(self)) == received(*old(self)).push(command)
                    &&& received(*final(self)).is_prefix_of(traffic_out(*final(self)))
                    &&& found_empty(*final(self)) == found_empty(*old(self))
                },
                None => {
                    &&& received(*final(self)) == received(*old(self))
                    &&& found_empty(*final(self)) == found_empty(*old(self)) + 1
                },
            },
            traffic_out(*final(self)) == traffic_out(*old(self)),
    {
        self.end.try_pop()
    }
}

/// The commands of which the flag at the same place is set.
pub open spec fn taken(commands: Seq<AudioCommand>, flags: Seq<bool>) -> Seq<AudioCommand>
    decreases commands.len(),
{
    if commands.len() == 0 {
        Seq::empty()
    } else {
        let before = taken(commands.drop_last(), flags.drop_last());
        if flags.last() {
            before.push(commands.last())
        } else {
            before
        }
    }
}

/// The commands were offered to the ring in this order, `flags` tells which it
/// took. It took all of them if it surely had the room.
pub open spec fn offered_with(
    before: CommandSender,
    commands: Seq<AudioCommand>,
    flags: Seq<bool>,
    after: CommandSender,
) -> bool {
    &&& flags.len() == commands.len()
    &&& offers(after) == offers(before) + commands
    &&& sent(after) == sent(before) + taken(commands, flags)
    &&& sent(before).len() + commands.len() <= room(before) ==> taken(commands, flags) == commands
    &&& room(after) == room(before)
    &&& traffic_in(after) == traffic_in(before)
    &&& sent(before).is_prefix_of(traffic_in(before)) ==> sent(after).is_prefix_of(traffic_in(after))
}

/// The commands were offered to the ring in this order.
pub open spec fn offered(
    before: CommandSender,
    commands: Seq<AudioCommand>,
    after: CommandSender,
) -> bool {
    exists|flags: Seq<bool>| #[trigger] offered_with(before, commands, flags, after)
}

/// Two offers one after the other are one offer.
pub proof fn lemma_offered_both(
    a: CommandSender,
    first: Seq<AudioCommand>,
    b: CommandSender,
    second: Seq<AudioCommand>,
    c: CommandSender,
)
    requires
        offered(a, first, b),
        offered(b, second, c),
    ensures
        offered(a, first + second, c),
{
    let f1 = choose|flags: Seq<bool>| #[trigger] offered_with(a, first, flags, b);
    let f2 = choose|flags: Seq<bool>| #[trigger] offered_with(b, second, flags, c);
    lemma_taken_both(first, f1, second, f2);
    lemma_taken_len(first, f1);
    assert(offers(c) == offers(a) + (first + second));
    assert(sent(c) == sent(a) + taken(first + second, f1 + f2));
    assert(offered_with(a, first + second, f1 + f2, c));
}

proof fn lemma_taken_len(commands: Seq<AudioCommand>, flags: Seq<bool>)
    ensures
        taken(commands, flags).len() <= commands.len(),
    decreases commands.len(),
{
    if commands.len() > 0 {
        lemma_taken_len(commands.drop_last(), flags.drop_last());
    }
}

proof fn lemma_taken_both(
    first: Seq<AudioCommand>,
    f1: Seq<bool>,
    second: Seq<AudioCommand>,
    f2: Seq<bool>,
)
    requires
        f1.len() == first.len(),
        f2.len() == second.len(),
    ensures
        taken(first + second, f1 + f2) == taken(first, f1) + taken(second, f2),
    decreases second.len(),
{
    if second.len() == 0 {
        assert(first + second == first);
        assert(f1 + f2 == f1);
    } else {
        lemma_taken_both(first, f1, second.drop_last(), f2.drop_last());
        assert((first + second).drop_last() == first + second.drop_last());
        assert((f1 + f2).drop_last() == f1 + f2.drop_last());
    }
}

/// Offering nothing changes nothing.
pub proof fn lemma_offered_none(sender: CommandSender)
    ensures
        offered(sender, Seq::empty(), sender),
{
    assert(offers(sender) + Seq::empty() == offers(sender));
    assert(sent(sender) + taken(Seq::empty(), Seq::empty()) == sent(sender));
    assert(offered_with(sender, Seq::empty(), Seq::empty(), sender));
}

/// Offers one command to the ring. It is lost if the ring is full.
pub fn offer(sender: &mut CommandSender, command: AudioCommand)
    ensures
        offered(*old(sender), seq![command], *final(sender)),
{
    let ghost before = *sender;
    let result = sender.try_push(command);
    proof {
        let flags = seq![result is Ok];
        assert(seq![command].drop_last() == Seq::<AudioCommand>::empty());
        assert(taken(seq![command].drop_last(), flags.drop_last()) == Seq::<AudioCommand>::empty());
        assert(offers(*sender) == offers(before) + seq![command]);
        assert(sent(*sender) == sent(before) + taken(seq![command], flags));
        assert(offered_with(before, seq![command], flags, *sender));
    }
}

} // verus!
