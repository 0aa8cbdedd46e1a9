//! The text sink that rendering writes to. It keeps whitespace pending:
//! spaces, line breaks and indentation take effect only before the next
//! non-empty write, so whitespace at the end of a stream leaves no trace.

use vstd::prelude::*;
use vstd::string::StringExecFns;
use crate::js::push_char;

verus! {

/// How one level of indentation is written.
#[derive(Debug, Clone, Copy, PartialEq, Eq)]
pub enum Indentation {
    /// The given number of spaces per level.
    Space(usize),
    /// One tab per level.
    Tab,
}

/// Which line break is owed before the next write.
#[derive(Debug, Clone, Copy, PartialEq, Eq)]
pub enum LineState {
    /// Nothing has been written yet: no break is owed, whatever was asked.
    Initial,
    /// No break is owed.
    NoBreak,
    /// One line break is owed.
    Push,
    /// Two line breaks are owed: an empty line.
    Line,
}

/// The view of a sink: the finished lines, the line being written, what is
/// owed before the next write, and the indentation settings.
pub struct Out {
    pub done: Seq<Seq<char>>,
    pub cur: Seq<char>,
    pub line: LineState,
    pub spaces: nat,
    pub indent: int,
    /// Characters per indentation level, and whether they are tabs.
    pub width: nat,
    pub tab: bool,
}

/// `k` copies of `c`.
pub open spec fn rep(c: char, k: int) -> Seq<char> {
    Seq::new(k as nat, |_i: int| c)
}

/// The text that indents a line by `level` levels.
pub open spec fn indent_text(o: Out, level: int) -> Seq<char> {
    if o.tab {
        rep('\t', level)
    } else {
        rep(' ', level * o.width)
    }
}

/// The printed indentation: the stored level, clamped at zero.
pub open spec fn effective_indent(o: Out) -> int {
    if o.indent > 0 {
        o.indent
    } else {
        0
    }
}

/// Pay what is owed before a write: the line breaks, then the indentation of
/// the new line (also on the first line), then the pending spaces.
pub open spec fn flush(o: Out) -> Out {
    let lead = indent_text(o, effective_indent(o));
    let tail = rep(' ', o.spaces as int);
    match o.line {
        LineState::NoBreak => Out { cur: o.cur + tail, spaces: 0, ..o },
        LineState::Initial => Out { cur: o.cur + lead + tail, line: LineState::NoBreak, spaces: 0, ..o },
        LineState::Push => Out {
            done: o.done.push(o.cur),
            cur: lead + tail,
            line: LineState::NoBreak,
            spaces: 0,
            ..o
        },
        LineState::Line => Out {
            done: o.done.push(o.cur).push(Seq::empty()),
            cur: lead + tail,
            line: LineState::NoBreak,
            spaces: 0,
            ..o
        },
    }
}

/// Write a text: an empty one changes nothing, any other pays what is owed
/// first.
pub open spec fn write_out(o: Out, t: Seq<char>) -> Out {
    if t.len() == 0 {
        o
    } else {
        let f = flush(o);
        Out { cur: f.cur + t, ..f }
    }
}

/// Ask for a line break: nothing before the first write, and nothing more
/// where an empty line is owed. Pending spaces are dropped.
pub open spec fn push_out(o: Out) -> Out {
    match o.line {
        LineState::Initial => o,
        LineState::Line => o,
        _ => Out { line: LineState::Push, spaces: 0, ..o },
    }
}

/// Ask for an empty line: nothing before the first write. Pending spaces are
/// dropped.
pub open spec fn line_out(o: Out) -> Out {
    match o.line {
        LineState::Initial => o,
        _ => Out { line: LineState::Line, spaces: 0, ..o },
    }
}

/// Ask for one more space.
pub open spec fn space_out(o: Out) -> Out {
    Out { spaces: o.spaces + 1, ..o }
}

/// Change the indentation: a line break, then the sum of the deltas, kept
/// unclamped.
pub open spec fn indentation_out(o: Out, n: int) -> Out {
    let p = push_out(o);
    Out { indent: p.indent + n, ..p }
}

/// The sink's lines, the one being written last.
pub open spec fn lines_of(o: Out) -> Seq<Seq<char>> {
    o.done.push(o.cur)
}

/// Lines joined by newlines.
pub open spec fn join_lines(ls: Seq<Seq<char>>) -> Seq<char>
    decreases ls.len(),
{
    if ls.len() == 0 {
        Seq::empty()
    } else if ls.len() == 1 {
        ls[0]
    } else {
        join_lines(ls.drop_last()) + seq!['\n'] + ls.last()
    }
}

/// A fresh sink with the given indentation.
pub open spec fn fresh(ind: Indentation) -> Out {
    Out {
        done: Seq::empty(),
        cur: Seq::empty(),
        line: LineState::Initial,
        spaces: 0,
        indent: 0,
        width: match ind {
            Indentation::Space(n) => n as nat,
            Indentation::Tab => 1,
        },
        tab: ind is Tab,
    }
}

/// The largest magnitude the stored indentation may reach.
pub open spec fn indent_bound() -> int {
    0x1_0000_0000_0000_0000_0000_0000_0000
}

/// The sink can take `n` more layout directives without its counters
/// overflowing.
pub open spec fn room(o: Out, n: int) -> bool {
    &&& o.spaces + n <= usize::MAX
    &&& -indent_bound() <= o.indent - 32768 * n
    &&& o.indent + 32768 * n <= indent_bound()
}

/// A text sink that collects lines.
pub struct Formatter {
    done: Vec<String>,
    cur: String,
    line: LineState,
    spaces: usize,
    indent: i128,
    width: usize,
    tab: bool,
}

impl View for Formatter {
    type V = Out;

    closed spec fn view(&self) -> Out {
        Out {
            done: self.done@.map_values(|s: String| s@),
            cur: self.cur@,
            line: self.line,
            spaces: self.spaces as nat,
            indent: self.indent as int,
            width: self.width as nat,
            tab: self.tab,
        }
    }
}

/// Append `k` copies of `c`.
fn push_rep(s: &mut String, c: char, k: usize)
    ensures
        final(s)@ == old(s)@ + rep(c, k as int),
{
    let mut i: usize = 0;
    while i < k
        invariant
            i <= k,
            s@ == old(s)@ + rep(c, i as int),
        decreases k - i,
    {
        push_char(s, c);
        i = i + 1;
        assert(s@ =~= old(s)@ + rep(c, i as int));
    }
}

impl Formatter {
    /// A fresh sink that indents as `ind` says.
    pub fn new(ind: Indentation) -> (r: Self)
        ensures
            r@ == fresh(ind),
    {
        let (width, tab) = match ind {
            Indentation::Space(n) => (n, false),
            Indentation::Tab => (1, true),
        };
        let r = Formatter {
            done: Vec::new(),
            cur: String::new(),
            line: LineState::Initial,
            spaces: 0,
            indent: 0,
            width,
            tab,
        };
        assert(r@.done =~= Seq::<Seq<char>>::empty());
        r
    }

    fn write_indent(&mut self)
        requires
            -indent_bound() <= old(self)@.indent <= indent_bound(),
        ensures
            final(self)@ == (Out { cur: old(self)@.cur + indent_text(old(self)@, effective_indent(old(self)@)), ..old(self)@ }),
    {
        let level: i128 = if self.indent > 0 { self.indent } else { 0 };
        let ghost w = self.width as int;
        let mut k: i128 = 0;
        while k < level
            invariant
                0 <= k <= level,
                level == effective_indent(old(self)@),
                w == self.width as int,
                w == old(self)@.width,
                self@ == (Out { cur: old(self)@.cur + indent_text(old(self)@, k as int), ..old(self)@ }),
            decreases level - k,
        {
            if self.tab {
                push_char(&mut self.cur, '\t');
                assert(self@.cur =~= old(self)@.cur + rep('\t', k + 1));
            } else {
                let ghost before = self@.cur;
                push_rep(&mut self.cur, ' ', self.width);
                assert((k + 1) * w == k * w + w) by (nonlinear_arith);
                assert(k * w >= 0) by (nonlinear_arith)
                    requires
                        k >= 0,
                        w >= 0,
                ;
                assert(w == old(self)@.width);
                assert(before == old(self)@.cur + rep(' ', k * w));
                assert(self@.cur =~= old(self)@.cur + rep(' ', (k + 1) * w));
            }
            k = k + 1;
        }
    }

    fn flush(&mut self)
        requires
            -indent_bound() <= old(self)@.indent <= indent_bound(),
        ensures
            final(self)@ == flush(old(self)@),
    {
        let ghost o = self@;
        match self.line {
            LineState::NoBreak => {},
            LineState::Initial => {
                self.write_indent();
            },
            LineState::Push => {
                let c = self.cur.clone();
                self.done.push(c);
                self.cur = String::new();
                self.write_indent();
            },
            LineState::Line => {
                let c = self.cur.clone();
                self.done.push(c);
                self.done.push(String::new());
                self.cur = String::new();
                self.write_indent();
            },
        }
        let k = self.spaces;
        push_rep(&mut self.cur, ' ', k);
        self.spaces = 0;
        self.line = LineState::NoBreak;
        assert(self@.done =~= flush(o).done);
        assert(self@.cur =~= flush(o).cur);
    }

    /// Write a text, paying what is owed first if it is not empty.
    pub fn write_str(&mut self, t: &str)
        requires
            -indent_bound() <= old(self)@.indent <= indent_bound(),
        ensures
            final(self)@ == write_out(old(self)@, t@),
    {
        if t.unicode_len() > 0 {
            self.flush();
            self.cur.append(t);
        }
    }

    /// Ask for a line break.
    pub fn push(&mut self)
        ensures
            final(self)@ == push_out(old(self)@),
    {
        match self.line {
            LineState::Initial | LineState::Line => {},
            _ => {
                self.line = LineState::Push;
                self.spaces = 0;
            },
        }
    }

    /// Ask for an empty line.
    pub fn line(&mut self)
        ensures
            final(self)@ == line_out(old(self)@),
    {
        match self.line {
            LineState::Initial => {},
            _ => {
                self.line = LineState::Line;
                self.spaces = 0;
            },
        }
    }

    /// Ask for one more space.
    pub fn space(&mut self)
        requires
            old(self)@.spaces < usize::MAX,
        ensures
            final(self)@ == space_out(old(self)@),
    {
        self.spaces = self.spaces + 1;
    }

    /// Change the indentation by `n`, with a line break.
    pub fn indentation(&mut self, n: i16)
        requires
            -indent_bound() <= old(self)@.indent + n <= indent_bound(),
        ensures
            final(self)@ == indentation_out(old(self)@, n as int),
    {
        self.push();
        self.indent = self.indent + n as i128;
    }

    /// The lines written, the one being written last.
    pub fn into_vec(self) -> (r: Vec<String>)
        ensures
            r@.map_values(|s: String| s@) == lines_of(self@),
    {
        let mut v = self.done;
        v.push(self.cur);
        assert(v@.map_values(|s: String| s@) =~= lines_of(self@));
        v
    }

    /// The text written, lines joined by newlines.
    pub fn into_string(self) -> (r: String)
        ensures
            r@ == join_lines(lines_of(self@)),
    {
        let lines = self.into_vec();
        let ghost ls = lines@.map_values(|s: String| s@);
        let mut r = String::new();
        let mut i: usize = 0;
        while i < lines.len()
            invariant
                i <= lines@.len(),
                ls == lines@.map_values(|s: String| s@),
                r@ == join_lines(ls.take(i as int)),
            decreases lines@.len() - i,
        {
            if i > 0 {
                r.append("\n");
            }
            r.append(lines[i].as_str());
            proof {
                reveal_strlit("\n");
                assert(ls.take(i + 1).drop_last() =~= ls.take(i as int));
                if i == 0 {
                    assert(r@ =~= join_lines(ls.take(1)));
                } else {
                    assert(r@ =~= join_lines(ls.take(i + 1)));
                }
            }
            i = i + 1;
        }
        assert(ls.take(lines@.len() as int) =~= ls);
        r
    }
}

} // verus!

verus! {

/// Why rendering failed.
#[derive(Debug, Clone, PartialEq, Eq)]
pub enum Error {
    /// A quote or an interpolation out of place in the token stream.
    Format,
    /// Two default imports of one module under different names.
    DefaultConflict { module: String, first: String, second: String },
}

} // verus!
