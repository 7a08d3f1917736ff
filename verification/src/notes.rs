//! Which drum a note plays, and which note a computer key stands for.

use vstd::prelude::*;

verus! {

/// Number of semitones in an octave.
pub const OCTAVE: i32 = 12;

/// The drum that a note plays: C is the kick, D the snare, E the hihat, in every octave.
pub open spec fn drum_of(semitone: int) -> Option<usize> {
    let pitch_class = semitone % (OCTAVE as int);
    if pitch_class == 0 {
        Some(0usize)
    } else if pitch_class == 2 {
        Some(1usize)
    } else if pitch_class == 4 {
        Some(2usize)
    } else {
        None
    }
}

/// The drum that the note `st` semitones above a C plays, if any.
pub fn drum_for_semitone(st: i32) -> (r: Option<usize>)
    ensures
        r == drum_of(st as int),
{
    match st.checked_rem_euclid(OCTAVE) {
        Some(0) => Some(0),
        Some(2) => Some(1),
        Some(4) => Some(2),
        _ => None,
    }
}

/// The keys of one octave, laid out like a piano: the home row holds the white keys and the row
/// above it the black ones.
pub open spec fn semitone_of(c: char) -> Option<i32> {
    match c {
        'a' => Some(0i32),
        'w' => Some(1i32),
        's' => Some(2i32),
        'e' => Some(3i32),
        'd' => Some(4i32),
        'f' => Some(5i32),
        't' => Some(6i32),
        'g' => Some(7i32),
        'y' => Some(8i32),
        'h' => Some(9i32),
        'u' => Some(10i32),
        'j' => Some(11i32),
        'k' => Some(12i32),
        _ => None,
    }
}

/// The note that a computer key stands for, in semitones above C.
pub fn key_to_semitone(c: char) -> (r: Option<i32>)
    ensures
        r == semitone_of(c),
{
    match c {
        'a' => Some(0),
        'w' => Some(1),
        's' => Some(2),
        'e' => Some(3),
        'd' => Some(4),
        'f' => Some(5),
        't' => Some(6),
        'g' => Some(7),
        'y' => Some(8),
        'h' => Some(9),
        'u' => Some(10),
        'j' => Some(11),
        'k' => Some(12),
        _ => None,
    }
}

/// A note plays the same drum in every octave.
pub proof fn law_octaves_agree(semitone: int, octaves: int)
    ensures
        drum_of(semitone + octaves * OCTAVE) == drum_of(semitone),
{
    vstd::arithmetic::div_mod::lemma_mod_multiples_vanish(octaves, semitone, OCTAVE as int);
    assert(OCTAVE * octaves + semitone == semitone + octaves * OCTAVE) by (nonlinear_arith);
}

/// The drum that a computer key plays, if any.
pub open spec fn drum_of_key(c: char) -> Option<usize> {
    match semitone_of(c) {
        Some(st) => drum_of(st as int),
        None => None,
    }
}

/// Exactly the keys a, s, d and k play a drum: kick, snare, hihat, and the kick an octave up.
pub proof fn law_drum_keys(c: char)
    ensures
        drum_of_key(c) == Some(0usize) <==> c == 'a' || c == 'k',
        drum_of_key(c) == Some(1usize) <==> c == 's',
        drum_of_key(c) == Some(2usize) <==> c == 'd',
        drum_of_key(c) matches Some(drum) ==> drum < 3,
{
}

/// In every octave C plays the kick, D the snare and E the hihat, and no other note plays anything.
pub proof fn law_drum_notes(octave: int, step: int)
    requires
        0 <= step < 12,
    ensures
        drum_of(12 * octave + step) == if step == 0 {
            Some(0usize)
        } else if step == 2 {
            Some(1usize)
        } else if step == 4 {
            Some(2usize)
        } else {
            None
        },
{
    law_octaves_agree(step, octave);
    assert(12 * octave + step == step + octave * OCTAVE) by (nonlinear_arith)
        requires
            OCTAVE == 12,
    ;
}

/// No two keys stand for the same note, and all notes lie within one octave and its end.
pub proof fn law_keys_have_their_notes(a: char, b: char)
    requires
        semitone_of(a) is Some,
        semitone_of(b) is Some,
    ensures
        0 <= semitone_of(a)->0 <= 12,
        semitone_of(a) == semitone_of(b) ==> a == b,
{
}

} // verus!
