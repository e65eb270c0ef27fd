use vstd::arithmetic::div_mod::{lemma_fundamental_div_mod, lemma_fundamental_div_mod_converse};
use vstd::prelude::*;

use crate::models::Note;

verus! {

/// The duration of one note, in seconds: `date_end - date_start`.
/// Negative when the note ends before it starts; such values propagate
/// unclamped through every aggregate.
pub open spec fn spec_note_duration(n: Note) -> int {
    n.date_end - n.date_start
}

/// The accumulated duration of a sequence of notes: the exact sum of the
/// individual durations, 0 for the empty sequence.
pub open spec fn spec_sum_durations(s: Seq<Note>) -> int
    decreases s.len(),
{
    if s.len() == 0 {
        0
    } else {
        spec_sum_durations(s.drop_last()) + spec_note_duration(s.last())
    }
}

/// Elapsed seconds of a single note; negative when it ends before it starts.
pub fn note_duration_seconds(n: &Note) -> (d: i128)
    ensures
        d == spec_note_duration(*n),
{
    n.date_end as i128 - n.date_start as i128
}

/// Elapsed seconds accumulated over a task's notes: the exact sum of
/// `date_end - date_start` over the sequence, 0 when there are none.
/// The length bound keeps the running sum within `i128`.
pub fn task_duration_seconds(notes: &Vec<Note>) -> (d: i128)
    requires
        notes@.len() <= 0x4000_0000_0000_0000,
    ensures
        d == spec_sum_durations(notes@),
{
    let mut acc: i128 = 0;
    let mut i: usize = 0;
    while i < notes.len()
        invariant
            i <= notes@.len(),
            notes@.len() <= 0x4000_0000_0000_0000,
            acc == spec_sum_durations(notes@.take(i as int)),
            -(i as int) * 0x1_0000_0000_0000_0000 <= acc <= (i as int) * 0x1_0000_0000_0000_0000,
        decreases notes@.len() - i,
    {
        let d = note_duration_seconds(&notes[i]);
        proof {
            assert(notes@.take(i + 1).drop_last() =~= notes@.take(i as int));
            assert(notes@.take(i + 1).last() == notes@[i as int]);
        }
        acc = acc + d;
        i = i + 1;
    }
    proof {
        assert(notes@.take(notes@.len() as int) =~= notes@);
    }
    acc
}

/// Converts a duration in seconds to a `(hours, minutes)` pair with floor
/// semantics: `hours` is the floor of `seconds / 3600`, `minutes` the floor
/// of the remaining seconds divided by 60. The sub-minute remainder is
/// truncated, never rounded; negative durations floor toward minus infinity.
pub fn humanize_duration(seconds: i128) -> (r: (i128, i128))
    ensures
        r.0 == seconds as int / 3600,
        r.1 == (seconds as int % 3600) / 60,
        0 <= r.1 < 60,
{
    let hours: i128;
    let rem: u128;
    if seconds >= 0 {
        let s = seconds as u128;
        hours = (s / 3600) as i128;
        rem = s % 3600;
        proof {
            lemma_fundamental_div_mod(s as int, 3600);
            lemma_fundamental_div_mod_converse(seconds as int, 3600, hours as int, rem as int);
        }
    } else {
        let n = (-(seconds + 1)) as u128;
        hours = -1 - (n / 3600) as i128;
        rem = 3599 - n % 3600;
        proof {
            lemma_fundamental_div_mod(n as int, 3600);
            lemma_fundamental_div_mod_converse(seconds as int, 3600, hours as int, rem as int);
        }
    }
    let minutes = (rem / 60) as i128;
    (hours, minutes)
}

} // verus!
