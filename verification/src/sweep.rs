//! How well decoding does on labelled ink.
use vstd::prelude::*;

use crate::beam::candidates_view;
use crate::decoder::{Candidate, CandidateView};
use crate::text::{chars_of, same_text};

verus! {

/// What became of one ink.
#[derive(Debug, Clone, Copy, PartialEq, Eq, Structural)]
pub enum Verdict {
    /// The truth came first.
    Correct,
    /// The truth was offered and ranked below something else.
    Ranked,
    /// The truth never appeared at all.
    Absent,
}

/// The verdict on candidates, best first. No candidate reads as the empty text.
pub open spec fn verdict_of(truth: Seq<char>, candidates: Seq<CandidateView>) -> Verdict {
    if (if candidates.len() > 0 {
        candidates[0].text
    } else {
        Seq::empty()
    }) == truth {
        Verdict::Correct
    } else if exists|i: int| 0 <= i < candidates.len() && (#[trigger] candidates[i]).text == truth {
        Verdict::Ranked
    } else {
        Verdict::Absent
    }
}

/// Judges candidates, best first.
pub fn judge(truth: &str, candidates: &[Candidate]) -> (r: Verdict)
    ensures
        r == verdict_of(truth@, candidates_view(candidates@)),
{
    let ghost all = candidates_view(candidates@);
    if candidates.len() == 0 {
        let letters: Vec<char> = chars_of(truth);
        if letters.len() == 0 {
            assert(truth@ =~= Seq::empty());
            return Verdict::Correct;
        }
        return Verdict::Absent;
    }
    assert(all[0].text == candidates@[0].text@);
    if same_text(candidates[0].text.as_str(), truth) {
        return Verdict::Correct;
    }
    let mut i: usize = 0;
    while i < candidates.len()
        invariant
            i <= candidates@.len(),
            all == candidates_view(candidates@),
            candidates@.len() > 0,
            all[0].text != truth@,
            forall|j: int| 0 <= j < i ==> (#[trigger] all[j]).text != truth@,
        decreases candidates@.len() - i,
    {
        assert(all[i as int].text == candidates@[i as int].text@);
        if same_text(candidates[i].text.as_str(), truth) {
            return Verdict::Ranked;
        }
        i += 1;
    }
    Verdict::Absent
}

/// How many inks came out how.
#[derive(Debug, Clone, Copy, PartialEq, Eq, Structural)]
pub struct Tally {
    pub correct: u64,
    /// Correct ones of a single character.
    pub singles: u64,
    pub ranked: u64,
    pub absent: u64,
}

impl Tally {
    /// How many inks were counted.
    pub open spec fn total(self) -> int {
        self.correct + self.ranked + self.absent
    }

    /// This tally with one more ink.
    pub open spec fn with(self, truth: Seq<char>, verdict: Verdict) -> Tally {
        match verdict {
            Verdict::Correct => Tally {
                correct: (self.correct + 1) as u64,
                singles: if truth.len() == 1 {
                    (self.singles + 1) as u64
                } else {
                    self.singles
                },
                ..self
            },
            Verdict::Ranked => Tally { ranked: (self.ranked + 1) as u64, ..self },
            Verdict::Absent => Tally { absent: (self.absent + 1) as u64, ..self },
        }
    }

    pub fn new() -> (r: Self)
        ensures
            r == (Tally { correct: 0, singles: 0, ranked: 0, absent: 0 }),
    {
        Tally { correct: 0, singles: 0, ranked: 0, absent: 0 }
    }

    /// Counts one ink by its candidates, best first.
    pub fn count(&mut self, truth: &str, candidates: &[Candidate])
        requires
            old(self).total() < u64::MAX,
            old(self).singles <= old(self).correct,
        ensures
            *final(self) == old(self).with(
                truth@,
                verdict_of(truth@, candidates_view(candidates@)),
            ),
            final(self).total() == old(self).total() + 1,
            final(self).singles <= final(self).correct,
    {
        match judge(truth, candidates) {
            Verdict::Correct => {
                self.correct = self.correct + 1;
                let letters: Vec<char> = chars_of(truth);
                if letters.len() == 1 {
                    self.singles = self.singles + 1;
                }
            },
            Verdict::Ranked => {
                self.ranked = self.ranked + 1;
            },
            Verdict::Absent => {
                self.absent = self.absent + 1;
            },
        }
    }
}

} // verus!
