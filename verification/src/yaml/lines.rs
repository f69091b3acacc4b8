//! Cutting a text into the lines of a document.

use crate::text::slice_chars;
use crate::yaml::syntax::{
    first_line, indent_len, lemma_line_len, line_len, next_lines, scan_lines, trimmed_len, Line,
};
use vstd::prelude::*;

verus! {

/// A line as it was cut from a text: its indentation, its text behind the
/// indentation, and the number of characters that were left at the first
/// character of that text.
#[derive(Debug, PartialEq, Eq)]
pub struct LineBuf {
    pub indent: usize,
    pub content: Vec<char>,
    pub left: usize,
}

impl View for LineBuf {
    type V = (Line, nat);

    open spec fn view(&self) -> (Line, nat) {
        (Line { indent: self.indent as nat, content: self.content@ }, self.left as nat)
    }
}

/// The models of a list of lines, in order.
pub open spec fn line_views(lines: Seq<LineBuf>) -> Seq<(Line, nat)> {
    Seq::new(lines.len(), |i: int| lines[i]@)
}

/// Whether every line, with its indentation, is at most `len` long.
pub open spec fn within(lines: Seq<LineBuf>, len: nat) -> bool {
    forall|i: int|
        0 <= i < lines.len() ==> (#[trigger] lines[i]).indent + lines[i].content.len() <= len
}

/// The end of the line that starts at `pos`.
fn scan_line(buf: &Vec<char>, pos: usize) -> (end: usize)
    requires
        pos <= buf.len(),
    ensures
        pos <= end <= buf.len(),
        end - pos == line_len(buf@.skip(pos as int)),
{
    let mut i = pos;
    while i < buf.len() && buf[i] != '\n'
        invariant
            pos <= i <= buf.len(),
            line_len(buf@.skip(pos as int)) == (i - pos) + line_len(buf@.skip(i as int)),
        decreases buf.len() - i,
    {
        proof {
            assert(buf@.skip(i as int).skip(1) =~= buf@.skip(i + 1));
        }
        i += 1;
    }
    i
}

/// The end of `buf[start..end]` without the blanks at its end.
fn trim_end(buf: &Vec<char>, start: usize, end: usize) -> (r: usize)
    requires
        start <= end <= buf.len(),
    ensures
        start <= r <= end,
        r - start == trimmed_len(buf@.subrange(start as int, end as int)),
{
    let mut i = end;
    while i > start && (buf[i - 1] == ' ' || buf[i - 1] == '\r' || buf[i - 1] == '\t')
        invariant
            start <= i <= end <= buf.len(),
            trimmed_len(buf@.subrange(start as int, end as int)) == trimmed_len(
                buf@.subrange(start as int, i as int),
            ),
        decreases i,
    {
        proof {
            assert(buf@.subrange(start as int, i as int).drop_last() =~= buf@.subrange(
                start as int,
                i - 1,
            ));
        }
        i -= 1;
    }
    proof {
        let s = buf@.subrange(start as int, i as int);
        if i > start {
            assert(s.last() == buf@[i - 1]);
        }
    }
    i
}

/// The end of the blanks that `buf[start..end]` starts with.
pub fn scan_indent(buf: &Vec<char>, start: usize, end: usize) -> (r: usize)
    requires
        start <= end <= buf.len(),
    ensures
        start <= r <= end,
        r - start == indent_len(buf@.subrange(start as int, end as int)),
{
    let mut i = start;
    while i < end && buf[i] == ' '
        invariant
            start <= i <= end <= buf.len(),
            indent_len(buf@.subrange(start as int, end as int)) == (i - start) + indent_len(
                buf@.subrange(i as int, end as int),
            ),
        decreases end - i,
    {
        proof {
            assert(buf@.subrange(i as int, end as int).skip(1) =~= buf@.subrange(
                i + 1,
                end as int,
            ));
        }
        i += 1;
    }
    i
}

/// Cuts a text into its lines.
pub fn split_lines(buf: &Vec<char>) -> (lines: Vec<LineBuf>)
    ensures
        line_views(lines@) == scan_lines(buf@),
        within(lines@, buf@.len()),
{
    let mut lines: Vec<LineBuf> = Vec::new();
    let mut i: usize = 0;
    proof {
        assert(buf@.skip(0) =~= buf@);
        assert(line_views(lines@) + scan_lines(buf@) =~= scan_lines(buf@));
    }
    while i < buf.len()
        invariant
            i <= buf.len(),
            line_views(lines@) + scan_lines(buf@.skip(i as int)) == scan_lines(buf@),
            within(lines@, buf@.len()),
        decreases buf.len() - i,
    {
        let ghost s = buf@.skip(i as int);
        let ghost done = line_views(lines@);
        let end = scan_line(buf, i);
        let stop = trim_end(buf, i, end);
        let start = scan_indent(buf, i, stop);
        let next = if end < buf.len() {
            end + 1
        } else {
            end
        };
        proof {
            lemma_line_len(s);
            assert(s.take(end - i) =~= buf@.subrange(i as int, end as int));
            assert(s.take(end - i).take(stop - i) =~= buf@.subrange(i as int, stop as int));
            assert(first_line(s) == buf@.subrange(i as int, stop as int));
            assert(first_line(s).skip(start - i) =~= buf@.subrange(start as int, stop as int));
            if end < buf.len() {
                assert(s.skip(end - i + 1) =~= buf@.skip(next as int));
            } else {
                assert(buf@.skip(next as int) =~= Seq::<char>::empty());
            }
            assert(next_lines(s) == buf@.skip(next as int));
        }
        if start < stop && buf[start] != '#' {
            let content = slice_chars(buf, start, stop);
            let line = LineBuf { indent: start - i, content, left: buf.len() - start };
            let ghost view = line@;
            lines.push(line);
            proof {
                assert(line_views(lines@) =~= done.push(view));
                assert(done.push(view) + scan_lines(buf@.skip(next as int)) =~= done + (seq![view]
                    + scan_lines(buf@.skip(next as int))));
            }
        }
        i = next;
    }
    proof {
        assert(line_views(lines@) + Seq::<(Line, nat)>::empty() =~= line_views(lines@));
    }
    lines
}

} // verus!
