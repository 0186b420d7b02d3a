//! A progress line: how many steps of how many are done, and what is being
//! done. The line is drawn over itself; this module says what to draw.

use crate::text::{decimal, decimal_text, push_decimal};
use vstd::prelude::*;
use vstd::string::StringExecFns;
use vstd::string::StringSliceAdditionalSpecFns;

verus! {

/// `n` blanks.
pub open spec fn blanks(n: int) -> Seq<char> {
    Seq::new(
        if n < 0 {
            0
        } else {
            n as nat
        },
        |i: int| ' ',
    )
}

/// `s` behind as many blanks as bring it to `width` characters; `s` itself
/// where it is that long.
pub open spec fn pad_left(s: Seq<char>, width: int) -> Seq<char> {
    blanks(width - s.len()) + s
}

/// `s` followed by as many blanks as bring it to `width` characters.
pub open spec fn pad_right(s: Seq<char>, width: int) -> Seq<char> {
    s + blanks(width - s.len())
}

/// How many of a hundred `i` of `n` are; a hundred where `n` is zero.
pub open spec fn percent(i: int, n: int) -> int {
    if n == 0 {
        100
    } else {
        i * 100 / n
    }
}

/// The number of bytes of a text in UTF-8, as a `usize` holds it.
pub open spec fn byte_len(s: Seq<char>) -> int {
    (vstd::utf8::encode_utf8(s).len() as usize) as int
}

/// The line for step `i` of `n`: the step, right-aligned to the width of `n`;
/// a slash and `n`; the percentage in parentheses, right-aligned to five
/// characters; and the message.
pub open spec fn line_text(i: int, n: int, width_n: int, msg: Seq<char>) -> Seq<char> {
    pad_left(decimal_text(i as nat), width_n) + "/"@ + decimal_text(n as nat) + " "@ + pad_left(
        "("@ + decimal_text(percent(i, n) as nat) + "%)"@,
        5,
    ) + " "@ + msg
}

/// Appends `n` blanks to `out`.
pub fn push_blanks(out: &mut String, n: usize)
    ensures
        final(out)@ == old(out)@ + blanks(n as int),
{
    let ghost start = out@;
    let mut i: usize = 0;
    assert(out@ =~= start + blanks(0));
    while i < n
        invariant
            0 <= i <= n,
            out@ == start + blanks(i as int),
        decreases n - i,
    {
        out.append(" ");
        proof {
            reveal_strlit(" ");
            assert(start + blanks(i as int) + " "@ =~= start + blanks(i + 1));
        }
        i += 1;
    }
}

/// `s`, right-aligned to `width` characters.
pub fn padded_left(s: &str, width: usize) -> (r: String)
    ensures
        r@ == pad_left(s@, width as int),
{
    let mut out = String::new();
    let len = s.unicode_len();
    if len < width {
        push_blanks(&mut out, width - len);
    }
    out.append(s);
    assert(out@ =~= pad_left(s@, width as int));
    out
}

/// `s`, left-aligned to `width` characters.
pub fn padded_right(s: &str, width: usize) -> (r: String)
    ensures
        r@ == pad_right(s@, width as int),
{
    let mut out = String::from_str(s);
    let len = s.unicode_len();
    if len < width {
        push_blanks(&mut out, width - len);
    }
    assert(out@ =~= pad_right(s@, width as int));
    out
}

/// The state of a progress line.
#[derive(Debug)]
pub struct Progress {
    n: usize,
    i: usize,
    width_n: usize,
    width_prev: usize,
    newline_needed: bool,
    finished: bool,
}

impl Progress {
    /// The number of steps in all.
    pub closed spec fn total(&self) -> int {
        self.n as int
    }

    /// The number of steps that are done.
    pub closed spec fn done(&self) -> int {
        self.i as int
    }

    /// The width that the step is aligned to: that of the total.
    pub closed spec fn step_width(&self) -> int {
        self.width_n as int
    }

    /// The number of bytes of the line that was drawn last.
    pub closed spec fn drawn_width(&self) -> int {
        self.width_prev as int
    }

    /// Whether a line is on the screen that a newline has to end.
    pub closed spec fn line_open(&self) -> bool {
        self.newline_needed
    }

    /// Whether the last line has been drawn.
    pub closed spec fn is_finished(&self) -> bool {
        self.finished
    }

    /// No more steps are done than there are.
    pub open spec fn wf(&self) -> bool {
        0 <= self.done() <= self.total()
    }

    /// What is drawn for the message `msg`: the line, then blanks over what is
    /// left of a longer line drawn before, then a carriage return.
    pub open spec fn drawn(&self, msg: Seq<char>) -> Seq<char> {
        let line = line_text(self.done(), self.total(), self.step_width(), msg);
        line + blanks(self.drawn_width() - byte_len(line)) + "\r"@
    }

    /// A progress line for `n` steps, none of them done.
    pub fn new(n: usize) -> (r: Progress)
        ensures
            r.wf(),
            r.total() == n,
            r.done() == 0,
            r.step_width() == decimal_text(n as nat).len(),
            r.drawn_width() == 0,
            !r.line_open(),
            !r.is_finished(),
    {
        let width_n = decimal(n as u64).as_str().unicode_len();
        Progress { n, i: 0, width_n, width_prev: 0, newline_needed: false, finished: false }
    }

    /// What to draw for `msg`. A message other than the empty one needs a step
    /// that is not done yet.
    fn draw(&mut self, msg: &str) -> (r: String)
        requires
            old(self).wf(),
        ensures
            r@ == old(self).drawn(msg@),
            final(self).total() == old(self).total(),
            final(self).done() == old(self).done(),
            final(self).step_width() == old(self).step_width(),
            final(self).is_finished() == old(self).is_finished(),
            final(self).line_open(),
            final(self).drawn_width() == byte_len(
                line_text(old(self).done(), old(self).total(), old(self).step_width(), msg@),
            ),
    {
        let ghost before = *self;
        let percent: u64 = if self.n == 0 {
            100
        } else {
            let scaled: u128 = (self.i as u128) * 100 / (self.n as u128);
            assert(scaled <= 100) by (nonlinear_arith)
                requires
                    scaled == (self.i as int) * 100 / (self.n as int),
                    0 <= self.i <= self.n,
                    self.n > 0,
            ;
            scaled as u64
        };
        assert(percent as int == crate::progress::percent(self.i as int, self.n as int));
        let mut shown = String::from_str("(");
        push_decimal(&mut shown, percent);
        shown.append("%)");
        let mut line = padded_left(decimal(self.i as u64).as_str(), self.width_n);
        line.append("/");
        push_decimal(&mut line, self.n as u64);
        line.append(" ");
        line.append(padded_left(shown.as_str(), 5).as_str());
        line.append(" ");
        line.append(msg);
        assert(line@ =~= line_text(self.i as int, self.n as int, self.width_n as int, msg@));
        let width = line.as_str().len();
        let mut out = line;
        if width < self.width_prev {
            push_blanks(&mut out, self.width_prev - width);
        }
        out.append("\r");
        self.width_prev = width;
        self.newline_needed = true;
        assert(out@ =~= before.drawn(msg@));
        out
    }

    /// Draws the line with `msg` and counts one step as done. There has to be a
    /// step left.
    pub fn advance(&mut self, msg: &str) -> (r: String)
        requires
            old(self).wf(),
            old(self).done() < old(self).total(),
        ensures
            final(self).wf(),
            r@ == old(self).drawn(msg@),
            final(self).done() == old(self).done() + 1,
            final(self).total() == old(self).total(),
            final(self).step_width() == old(self).step_width(),
            final(self).is_finished() == old(self).is_finished(),
            final(self).line_open(),
            final(self).drawn_width() == byte_len(
                line_text(old(self).done(), old(self).total(), old(self).step_width(), msg@),
            ),
    {
        let text = self.draw(msg);
        self.i += 1;
        text
    }

    /// Draws the last line, without message, ends it with a newline, and marks
    /// the progress as finished.
    pub fn finish(&mut self) -> (r: String)
        requires
            old(self).wf(),
        ensures
            final(self).wf(),
            r@ == old(self).drawn(Seq::<char>::empty()) + "\n"@,
            final(self).is_finished(),
            !final(self).line_open(),
            final(self).done() == old(self).done(),
            final(self).total() == old(self).total(),
    {
        let mut text = self.draw("");
        proof {
            reveal_strlit("");
            assert(""@ =~= Seq::<char>::empty());
        }
        text.append("\n");
        self.newline_needed = false;
        self.finished = true;
        text
    }

    /// Whether a newline is to be written to end the line on the screen; after
    /// the call none is owed any more.
    pub fn newline(&mut self) -> (r: bool)
        ensures
            r == old(self).line_open(),
            !final(self).line_open(),
            final(self).done() == old(self).done(),
            final(self).total() == old(self).total(),
            final(self).step_width() == old(self).step_width(),
            final(self).drawn_width() == old(self).drawn_width(),
            final(self).is_finished() == old(self).is_finished(),
    {
        let needed = self.newline_needed;
        self.newline_needed = false;
        needed
    }
}

} // verus!
