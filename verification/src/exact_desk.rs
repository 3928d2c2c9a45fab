//! What the pitches and the slider are in exact numbers.

use vstd::prelude::*;

use crate::arithmetic::{evaluates, Arithmetic};
use crate::command::AudioCommand;
use crate::desk::{
    at_octave, edo12_from_c, key_rows, octaves_up, rows_at_pitch, seat_note, slid, slider_value,
    Desk,
};
use crate::exact::{fair, stands_for, value, Reading};
use crate::keys::Keycode;
use crate::session::{law_press_has_pitch_of_seat, Frame, Session, Setup};

verus! {

/// The pitch of the key in column `j` of row `i`: twelve equal steps to the
/// octave, two for each column, five less for each row, from 440 at four.
pub open spec fn pitch_at(m: Reading, i: int, j: int) -> real {
    440 as real * (m.powf)(2 as real, (2 * j - 5 * i - 4) as real / 12 as real)
}

/// The key in column `j` of row `i` has the pitch of its seat.
pub proof fn law_seat_has_its_pitch<A: Arithmetic>(ar: A, i: int, j: int, r: u32)
    requires
        0 <= i <= 3,
        0 <= j <= 11,
        evaluates(ar, edo12_from_c(seat_note(i, j)), r),
    ensures
        stands_for(ar, r, |m: Reading| pitch_at(m, i, j)),
{
    let e = edo12_from_c(seat_note(i, j));
    assert forall|m: Reading| fair(m) implies #[trigger] value(m, e) == pitch_at(m, i, j) by {
        reveal_with_fuel(value, 8);
        let note = -(7 as real) - (5 * i) as real + (2 * j) as real;
        assert(3 as real + note == (2 * j - 5 * i - 4) as real);
        assert((3 as real + note) / 12 as real == (2 * j - 5 * i - 4) as real / 12 as real);
    }
}

/// A word stands for the pitch of a seat.
pub open spec fn has_pitch_of<A: Arithmetic>(ar: A, own: u32, i: int, j: int) -> bool {
    stands_for(ar, own, |m: Reading| pitch_at(m, i, j))
}

/// A word stands for another, times two to the power of the octave.
pub open spec fn is_raised<A: Arithmetic>(ar: A, own: u32, octave: i32, pitch: u32) -> bool {
    stands_for(ar, pitch, |m: Reading| (m.word)(own) * (m.powi)(2 as real, octave as int))
}

/// The rows are short.
proof fn lemma_row_lengths(i: int)
    requires
        0 <= i < key_rows().len(),
    ensures
        i <= 3,
        key_rows()[i].len() <= 12,
{
    assert(i == 0 || i == 1 || i == 2 || i == 3);
}

/// A press of a key is for the selected generator, and its pitch is the key's
/// own times two to the power of the octave, whether that is above or below the
/// starting one; the key's own is that of its seat.
pub proof fn law_press_pitch_is_exact<A: Arithmetic>(
    ar: A,
    session: Session,
    frame: Frame,
    setup: Setup,
    octave: i32,
    c: int,
)
    requires
        rows_at_pitch(ar, key_rows(), setup.piano),
        session.gui.current_octave == octave,
        at_octave(ar, setup.piano, octave, session.struck(frame), frame.pitches),
        0 <= c < session.told(frame, setup).len(),
        session.told(frame, setup)[c] is Press,
    ensures
        exists|i: int, j: int, own: u32, pitch: u32|
            {
                &&& 0 <= i < key_rows().len()
                &&& 0 <= j < key_rows()[i].len()
                &&& #[trigger] has_pitch_of(ar, own, i, j)
                &&& #[trigger] is_raised(ar, own, octave, pitch)
                &&& session.told(frame, setup)[c] == AudioCommand::Press(
                    session.gui.current_instrument as usize,
                    key_rows()[i][j],
                    pitch,
                )
            },
{
    law_press_has_pitch_of_seat(ar, session, frame, setup, octave, c);
    let (i, j, own, pitch) = choose|i: int, j: int, own: u32, pitch: u32|
        {
            &&& 0 <= i < key_rows().len()
            &&& 0 <= j < key_rows()[i].len()
            &&& #[trigger] evaluates(ar, edo12_from_c(seat_note(i, j)), own)
            &&& #[trigger] evaluates(ar, octaves_up(own, octave), pitch)
            &&& session.told(frame, setup)[c] == AudioCommand::Press(
                session.gui.current_instrument as usize,
                key_rows()[i][j],
                pitch,
            )
        };
    lemma_row_lengths(i);
    law_seat_has_its_pitch(ar, i, j, own);
    lemma_octave(ar, own, octave, pitch);
    assert(has_pitch_of(ar, own, i, j));
    assert(is_raised(ar, own, octave, pitch));
}

proof fn lemma_octave<A: Arithmetic>(ar: A, own: u32, octave: i32, pitch: u32)
    requires
        evaluates(ar, octaves_up(own, octave), pitch),
    ensures
        stands_for(ar, pitch, |m: Reading| (m.word)(own) * (m.powi)(2 as real, octave as int)),
{
    let e = octaves_up(own, octave);
    assert forall|m: Reading| fair(m) implies #[trigger] value(m, e) == (m.word)(own) * (m.powi)(
        2 as real,
        octave as int,
    ) by {
        reveal_with_fuel(value, 3);
    }
}

/// Powers of two that grow and shrink with their exponent.
pub open spec fn doubles(m: Reading) -> bool {
    &&& (m.powi)(2 as real, 0) == 1 as real
    &&& forall|n: int, k: int| k == n + 1 ==> #[trigger] (m.powi)(2 as real, k) == 2 as real
        * #[trigger] (m.powi)(2 as real, n)
}

/// An octave higher is twice the pitch, an octave lower half of it, wherever one
/// starts: a press of the same key one octave further up stands for the double.
pub proof fn law_octave_doubles<A: Arithmetic>(
    ar: A,
    piano: Seq<(Keycode, u32)>,
    struck: Seq<Keycode>,
    octave: i32,
    lower: Seq<u32>,
    higher: Seq<u32>,
    i: int,
)
    requires
        octave < i32::MAX,
        at_octave(ar, piano, octave, struck, lower),
        at_octave(ar, piano, (octave + 1) as i32, struck, higher),
        0 <= i < piano.len(),
        struck.contains(piano[i].0),
    ensures
        exists|v: spec_fn(Reading) -> real, w: spec_fn(Reading) -> real|
            {
                &&& #[trigger] stands_for(ar, lower[i], v)
                &&& #[trigger] stands_for(ar, higher[i], w)
                &&& forall|m: Reading|
                    fair(m) && doubles(m) ==> #[trigger] w(m) == 2 as real * v(m)
                &&& octave == 0 ==> forall|m: Reading|
                    fair(m) && doubles(m) ==> #[trigger] v(m) == (m.word)(piano[i].1)
            },
{
    let own = piano[i].1;
    let up = (octave + 1) as i32;
    lemma_octave(ar, own, octave, lower[i]);
    lemma_octave(ar, own, up, higher[i]);
    let v = |m: Reading| (m.word)(own) * (m.powi)(2 as real, octave as int);
    let w = |m: Reading| (m.word)(own) * (m.powi)(2 as real, up as int);
    assert(stands_for(ar, lower[i], v));
    assert(stands_for(ar, higher[i], w));
    assert forall|m: Reading| fair(m) && doubles(m) implies #[trigger] w(m) == 2 as real * v(m) by {
        let (x, p, q) = (
            (m.word)(own),
            (m.powi)(2 as real, octave as int),
            (m.powi)(2 as real, up as int),
        );
        assert(x * q == 2 as real * (x * p)) by (nonlinear_arith)
            requires
                q == 2 as real * p,
        ;
    }
    if octave == 0 {
        assert forall|m: Reading| fair(m) && doubles(m) implies #[trigger] v(m) == (m.word)(own) by {
            let x = (m.word)(own);
            let p = (m.powi)(2 as real, octave as int);
            assert(x * p == x) by (nonlinear_arith)
                requires
                    p == 1 as real,
            ;
        }
    }
}

/// Powers that turn sums into products.
pub open spec fn powers(m: Reading) -> bool {
    &&& (m.powf)(2 as real, 0 as real) == 1 as real
    &&& (m.powf)(2 as real, 1 as real) == 2 as real
    &&& forall|x: real, y: real, z: real| z == x + y ==> #[trigger] (m.powf)(2 as real, z)
        == #[trigger] (m.powf)(2 as real, x) * #[trigger] (m.powf)(2 as real, y)
}

/// On the piano, a column on is a whole tone up and a row down is a fourth down,
/// wherever one starts; six columns on are an octave, and the third key of the
/// first row is concert pitch.
pub proof fn law_piano_steps(m: Reading, i: int, j: int)
    requires
        powers(m),
    ensures
        pitch_at(m, i, j + 1) == pitch_at(m, i, j) * (m.powf)(2 as real, 1 as real / 6 as real),
        pitch_at(m, i, j) == pitch_at(m, i + 1, j) * (m.powf)(2 as real, 5 as real / 12 as real),
        pitch_at(m, i, j + 6) == 2 as real * pitch_at(m, i, j),
        pitch_at(m, 0, 2) == 440 as real,
{
    let x = (2 * j - 5 * i - 4) as real / 12 as real;
    let tone = 1 as real / 6 as real;
    let fourth = 5 as real / 12 as real;
    let here = (m.powf)(2 as real, x);
    assert((2 * (j + 1) - 5 * i - 4) as real / 12 as real == x + tone);
    let up = (m.powf)(2 as real, x + tone);
    let t = (m.powf)(2 as real, tone);
    assert(440 as real * up == (440 as real * here) * t) by (nonlinear_arith)
        requires
            up == here * t,
    ;
    let y = (2 * j - 5 * (i + 1) - 4) as real / 12 as real;
    assert(x == y + fourth);
    let below = (m.powf)(2 as real, y);
    let f = (m.powf)(2 as real, fourth);
    assert(440 as real * here == (440 as real * below) * f) by (nonlinear_arith)
        requires
            here == below * f,
    ;
    assert((2 * (j + 6) - 5 * i - 4) as real / 12 as real == x + 1 as real);
    let octave = (m.powf)(2 as real, x + 1 as real);
    assert(octave == here * (m.powf)(2 as real, 1 as real));
}

/// The slider stands for the mouse's share of a screen of 1920 columns.
pub proof fn law_slider_is_share_of_screen<A: Arithmetic>(
    ar: A,
    before: Desk,
    x: i32,
    word: u32,
    after: Desk,
)
    requires
        slid(ar, before, x, word, after),
    ensures
        stands_for(ar, word, |m: Reading| x as real / 1920 as real),
{
    let e = slider_value(x);
    assert forall|m: Reading| fair(m) implies #[trigger] value(m, e) == x as real
        / 1920 as real by {
        reveal_with_fuel(value, 2);
    }
}

} // verus!
