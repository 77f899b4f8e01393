//! Indexing the chunks of a log one after another, and what is said of it.

use crate::grain::{Page, HEADER_LEN};
use crate::text::{decimal, number_text, text};
use vstd::prelude::*;
use vstd::string::StringExecFns;

verus! {

/// How far the building of an index has come: of `total` chunks `done` are
/// indexed, which hold `tokens` tokens between them, and the index is `len`
/// bytes long.
#[derive(Debug, Clone, Copy, PartialEq, Eq, Structural)]
pub struct Building {
    pub total: usize,
    pub done: usize,
    pub tokens: u64,
    pub len: u64,
}

/// Whether it is time to say how far the building has come: at every tenth of
/// the chunks but the last, where there are ten or more.
pub open spec fn progress_due(done: nat, total: nat) -> bool {
    total >= 10 && done < total && done % (total / 10) == 0
}

/// What is said then.
pub open spec fn progress_said(done: nat, total: nat) -> Seq<char> {
    "timberfs: reindex "@ + decimal(done * 100 / total) + "% ("@ + decimal(done) + " of "@
        + decimal(total) + " chunks)"@
}

/// An average over the chunks: over one, where there are none.
pub open spec fn per_chunk(n: nat, total: nat) -> nat {
    n / (if total == 0 {
        1
    } else {
        total
    })
}

fn average(n: u64, total: usize) -> (r: u64)
    ensures
        r == per_chunk(n as nat, total as nat),
{
    if total == 0 {
        n
    } else {
        n / (total as u64)
    }
}

fn percent(done: usize, total: usize) -> (r: u64)
    requires
        done <= total,
        0 < total,
    ensures
        r == done * 100 / total as int,
{
    let n: u128 = (done as u128) * 100;
    let r: u128 = n / (total as u128);
    assert(r <= 100) by (nonlinear_arith)
        requires
            r == n / total as u128,
            n == done * 100,
            done <= total,
            0 < total,
    ;
    r as u64
}

impl Building {
    pub fn new(total: usize) -> (r: Building)
        ensures
            r == (Building { total, done: 0, tokens: 0, len: HEADER_LEN as u64 }),
    {
        Building { total, done: 0, tokens: 0, len: HEADER_LEN as u64 }
    }

    /// Counts the next chunk's page, whose record goes to the end of the index.
    pub fn take(&mut self, page: &Page) -> (r: Option<String>)
        requires
            old(self).done < old(self).total,
            old(self).tokens + page.tokens <= u64::MAX,
            old(self).len + page.record@.len() <= u64::MAX,
        ensures
            *final(self) == (Building {
                total: old(self).total,
                done: (old(self).done + 1) as usize,
                tokens: (old(self).tokens + page.tokens) as u64,
                len: (old(self).len + page.record@.len()) as u64,
            }),
            match r {
                Some(s) => progress_due(final(self).done as nat, final(self).total as nat) && s@
                    == progress_said(final(self).done as nat, final(self).total as nat),
                None => !progress_due(final(self).done as nat, final(self).total as nat),
            },
    {
        self.done = self.done + 1;
        self.tokens = self.tokens + page.tokens as u64;
        self.len = self.len + page.record.len() as u64;
        if self.total >= 10 && self.done < self.total && self.done % (self.total / 10) == 0 {
            Some(
                text("timberfs: reindex ").concat(
                    number_text(percent(self.done, self.total)).as_str(),
                ).concat("% (").concat(number_text(self.done as u64).as_str()).concat(
                    " of ",
                ).concat(number_text(self.total as u64).as_str()).concat(" chunks)"),
            )
        } else {
            None
        }
    }

    /// What is said of an index that was built.
    pub fn summary(&self) -> (r: String)
        ensures
            r@ == "timberfs: indexed "@ + decimal(self.total as nat) + " chunk(s), "@ + decimal(
                self.tokens as nat,
            ) + " distinct tokens ("@ + decimal(
                per_chunk(self.tokens as nat, self.total as nat),
            ) + " avg/chunk), grain is "@ + decimal(self.len as nat) + " bytes ("@ + decimal(
                per_chunk(self.len as nat, self.total as nat),
            ) + " bytes/chunk avg)"@,
    {
        text("timberfs: indexed ").concat(number_text(self.total as u64).as_str()).concat(
            " chunk(s), ",
        ).concat(number_text(self.tokens).as_str()).concat(" distinct tokens (").concat(
            number_text(average(self.tokens, self.total)).as_str(),
        ).concat(" avg/chunk), grain is ").concat(number_text(self.len).as_str()).concat(
            " bytes (",
        ).concat(number_text(average(self.len, self.total)).as_str()).concat(
            " bytes/chunk avg)",
        )
    }

    /// What is said of an index that was brought up to its log, of whose chunks
    /// `covered` had been indexed before.
    pub fn extended(&self, covered: usize) -> (r: String)
        requires
            covered <= self.done,
        ensures
            r@ == "timberfs: grain extended: "@ + decimal((self.done - covered) as nat)
                + " new chunk(s) indexed ("@ + decimal(self.tokens as nat) + " tokens), "@
                + decimal(self.done as nat) + " total"@,
    {
        let new: usize = self.done - covered;
        text("timberfs: grain extended: ").concat(number_text(new as u64).as_str()).concat(
            " new chunk(s) indexed (",
        ).concat(number_text(self.tokens).as_str()).concat(" tokens), ").concat(
            number_text(self.done as u64).as_str(),
        ).concat(" total")
    }

    /// An index that already covers the first `covered` of the chunks, and is
    /// `len` bytes long.
    pub fn resumed(total: usize, covered: usize, len: usize) -> (r: Building)
        requires
            covered <= total,
        ensures
            r == (Building { total, done: covered, tokens: 0, len: len as u64 }),
    {
        Building { total, done: covered, tokens: 0, len: len as u64 }
    }
}

} // verus!
