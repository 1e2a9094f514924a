//! Progress reporting for the long parallel stages: when a line is due, and
//! how a duration reads.

use vstd::prelude::*;

use crate::text;
use crate::text::{decimal_string, padded_string};

verus! {

/// Never print more often than this, however small the step: a fast stage
/// should not bury its own summary.
pub const MIN_INTERVAL_MS: u64 = 1000;

/// How far a stage has come.
#[derive(Debug, Clone, Copy, PartialEq, Eq, Structural)]
pub struct Progress {
    pub total: usize,
    pub done: usize,
    /// When a line was last printed, in milliseconds since the start.
    pub last_ms: u64,
    /// A line is due every this many items, so that a long run prints about a
    /// hundred of them rather than one per item.
    pub step: usize,
}

impl Progress {
    pub open spec fn wf(&self) -> bool {
        self.step >= 1
    }

    pub fn new(total: usize) -> (r: Progress)
        ensures
            r.wf(),
            r.total == total,
            r.done == 0,
            r.last_ms == 0,
            r.step == if total / 100 >= 1 {
                total / 100
            } else {
                1
            },
    {
        let hundredth: usize = total / 100;
        Progress {
            total,
            done: 0,
            last_ms: 0,
            step: if hundredth >= 1 {
                hundredth
            } else {
                1
            },
        }
    }

    /// A line is due after this item: always after the last, and otherwise at
    /// every step, but not too soon after the line before.
    pub open spec fn is_due(&self, elapsed_ms: u64) -> bool {
        let done = self.done + 1;
        done == self.total || (done % self.step as int == 0 && elapsed_ms - self.last_ms
            >= MIN_INTERVAL_MS)
    }

    /// Records one completed item, and tells whether a line is due.
    pub fn tick(&mut self, elapsed_ms: u64) -> (due: bool)
        requires
            old(self).wf(),
            old(self).done < usize::MAX,
        ensures
            final(self).wf(),
            final(self).total == old(self).total,
            final(self).step == old(self).step,
            final(self).done == old(self).done + 1,
            due == old(self).is_due(elapsed_ms),
            final(self).last_ms == if due {
                elapsed_ms
            } else {
                old(self).last_ms
            },
    {
        self.done = self.done + 1;
        let last = self.done == self.total;
        if !last {
            if self.done % self.step != 0 {
                return false;
            }
            if elapsed_ms < self.last_ms || elapsed_ms - self.last_ms < MIN_INTERVAL_MS {
                return false;
            }
        }
        self.last_ms = elapsed_ms;
        true
    }
}

/// The last item always prints a line.
pub proof fn the_last_item_is_always_reported(p: Progress, elapsed_ms: u64)
    requires
        p.done + 1 == p.total,
    ensures
        p.is_due(elapsed_ms),
{
}

/// How a duration reads: two units, never more.
pub open spec fn duration_text(seconds: Option<u64>, shown: Seq<char>) -> Seq<char> {
    match seconds {
        None => "?"@,
        Some(t) => if t < 60 {
            shown + "s"@
        } else if t < 3600 {
            text::decimal((t / 60) as nat) + "m"@ + text::padded((t % 60) as nat, 2) + "s"@
        } else {
            text::decimal((t / 3600) as nat) + "h"@ + text::padded(((t % 3600) / 60) as nat, 2)
                + "m"@
        },
    }
}

/// A duration: in whole seconds, or nothing where there is no telling; `shown`
/// is the duration in seconds with one decimal.
pub fn human_secs(seconds: Option<u64>, shown: &str) -> (r: String)
    ensures
        r@ == duration_text(seconds, shown@),
{
    match seconds {
        None => String::from_str("?"),
        Some(t) => {
            if t < 60 {
                let mut s = String::from_str(shown);
                s.append("s");
                s
            } else if t < 3600 {
                let mut s = decimal_string(t / 60);
                s.append("m");
                s.append(padded_string(t % 60, 2).as_str());
                s.append("s");
                s
            } else {
                let mut s = decimal_string(t / 3600);
                s.append("h");
                s.append(padded_string((t % 3600) / 60, 2).as_str());
                s.append("m");
                s
            }
        },
    }
}

/// A line that is not the last is due at whole steps alone, and never within a
/// second of the line before it.
pub proof fn lines_keep_their_distance(p: Progress, elapsed_ms: u64)
    requires
        p.wf(),
        p.done + 1 != p.total,
        p.is_due(elapsed_ms),
    ensures
        elapsed_ms >= p.last_ms + 1000,
        p.done + 1 == ((p.done + 1) / p.step as int) * p.step,
{
    let (done, step) = (p.done + 1, p.step as int);
    vstd::arithmetic::div_mod::lemma_fundamental_div_mod(done, step);
    assert(done == (done / step) * step) by (nonlinear_arith)
        requires
            done == step * (done / step) + done % step,
            done % step == 0,
    ;
}

/// At every whole step that a second has passed since the line before, a line
/// is due.
pub proof fn whole_steps_are_reported(p: Progress, elapsed_ms: u64, k: int)
    requires
        p.wf(),
        p.done + 1 == k * p.step,
        elapsed_ms >= p.last_ms + 1000,
    ensures
        p.is_due(elapsed_ms),
{
    vstd::arithmetic::div_mod::lemma_mod_multiples_basic(k, p.step as int);
}

proof fn lemma_parts(h: int, m: int, s: int)
    requires
        0 <= h,
        0 <= m < 60,
        0 <= s < 60,
    ensures
        (60 * m + s) / 60 == m,
        (60 * m + s) % 60 == s,
        (3600 * h + 60 * m + s) / 3600 == h,
        ((3600 * h + 60 * m + s) % 3600) / 60 == m,
{
    assert((3600 * h + 60 * m + s) % 3600 == 60 * m + s);
}

/// Minutes and seconds, or hours and minutes, are those of the duration.
pub proof fn durations_read_as_they_are(t: u64, h: int, m: int, s: int, shown: Seq<char>)
    requires
        0 <= h,
        0 <= m < 60,
        0 <= s < 60,
        t == 3600 * h + 60 * m + s,
    ensures
        duration_text(None, shown) == "?"@,
        h == 0 && m == 0 ==> duration_text(Some(t), shown) == shown + "s"@,
        h == 0 && m >= 1 ==> duration_text(Some(t), shown) == text::decimal(m as nat) + "m"@
            + text::padded(s as nat, 2) + "s"@,
        h >= 1 ==> duration_text(Some(t), shown) == text::decimal(h as nat) + "h"@ + text::padded(
            m as nat,
            2,
        ) + "m"@,
{
    lemma_parts(h, m, s);
}

} // verus!
