//! The position tracker: the 1-indexed line and column of the next
//! character, maintained as text is consumed or produced.

use vstd::prelude::*;

use crate::err::{JsefErr, JsefErrType};

verus! {

/// Increment that stops at `usize::MAX` instead of wrapping, so that the
/// counter is total over arbitrarily long character sequences.
pub open spec fn sat_inc(x: int) -> int {
    if x < usize::MAX {
        x + 1
    } else {
        x
    }
}

/// One step of position tracking: a line feed moves to the start of the next
/// line, any other character advances the column.
pub open spec fn lc_step(line: int, col: int, c: char) -> (int, int) {
    if c == '\n' {
        (sat_inc(line), 1)
    } else {
        (line, sat_inc(col))
    }
}

/// The (line, column) reached from `(line, col)` after observing every
/// character of `s` in order.
pub open spec fn lc_after(line: int, col: int, s: Seq<char>) -> (int, int)
    decreases s.len(),
{
    if s.len() == 0 {
        (line, col)
    } else {
        let prev = lc_after(line, col, s.drop_last());
        lc_step(prev.0, prev.1, s.last())
    }
}

/// Maintains the current 1-indexed (line, column) as characters are consumed
/// by the parser or emitted by the composer; used only for error attribution.
#[derive(Debug, Clone, Copy)]
pub struct LineColCounter {
    pub line: usize,
    pub col: usize,
}

impl LineColCounter {
    pub open spec fn pos(self) -> (int, int) {
        (self.line as int, self.col as int)
    }

    pub fn new() -> (r: Self)
        ensures
            r.pos() == (1int, 1int),
    {
        LineColCounter { line: 1, col: 1 }
    }

    /// Attaches the current position to an error kind.
    pub fn err(&self, err: JsefErrType) -> (r: JsefErr)
        ensures
            r == (JsefErr { err, line: self.line, col: self.col }),
    {
        JsefErr { err, line: self.line, col: self.col }
    }

    /// Observes one character.
    pub fn count(&mut self, c: char)
        ensures
            final(self).pos() == lc_step(old(self).line as int, old(self).col as int, c),
    {
        if c == '\n' {
            if self.line < usize::MAX {
                self.line = self.line + 1;
            }
            self.col = 1;
        } else {
            if self.col < usize::MAX {
                self.col = self.col + 1;
            }
        }
    }
}

impl LineColCounter {
    /// Observes every character of `chars`, in order.
    pub fn count_all(&mut self, chars: &Vec<char>)
        ensures
            (final(self).line as int, final(self).col as int) == lc_after(
                old(self).line as int,
                old(self).col as int,
                chars@,
            ),
    {
        let mut i: usize = 0;
        while i < chars.len()
            invariant
                i <= chars@.len(),
                (self.line as int, self.col as int) == lc_after(
                    old(self).line as int,
                    old(self).col as int,
                    chars@.take(i as int),
                ),
            decreases chars@.len() - i,
        {
            let c = chars[i];
            self.count(c);
            i = i + 1;
            proof {
                lemma_lc_after_push(
                    old(self).line as int,
                    old(self).col as int,
                    chars@.take(i - 1),
                    c,
                );
                assert(chars@.take(i - 1).push(c) =~= chars@.take(i as int));
            }
        }
        proof {
            assert(chars@.take(chars@.len() as int) =~= chars@);
        }
    }
}

/// Observing a sequence and then one more character is the same as observing
/// the extended sequence.
pub proof fn lemma_lc_after_push(line: int, col: int, s: Seq<char>, c: char)
    ensures
        lc_after(line, col, s.push(c)) == lc_step(
            lc_after(line, col, s).0,
            lc_after(line, col, s).1,
            c,
        ),
{
    assert(s.push(c).drop_last() =~= s);
    assert(s.push(c).last() == c);
}

} // verus!
