//! Path expressions: dotted object keys, bracketed indices and the
//! wildcard `[*]`, as in `users[*].name`.

use crate::text::{
    chars_of, decimal_value, digits_len, lemma_digits_len, read_decimal, scan_digits, slice_string,
};
use vstd::prelude::*;

verus! {

/// One step of a path.
#[derive(Debug, PartialEq, Eq)]
pub enum Segment {
    /// The entry of an object under this key.
    Key(String),
    /// The item of an array at this position.
    Index(u64),
    /// Every item of an array.
    Wildcard,
}

/// The mathematical model of a [`Segment`].
pub enum SegmentView {
    Key(Seq<char>),
    Index(nat),
    Wildcard,
}

impl View for Segment {
    type V = SegmentView;

    open spec fn view(&self) -> SegmentView {
        match self {
            Segment::Key(k) => SegmentView::Key(k@),
            Segment::Index(i) => SegmentView::Index(*i as nat),
            Segment::Wildcard => SegmentView::Wildcard,
        }
    }
}

/// The models of a list of segments, in order.
pub open spec fn segment_views(segments: Seq<Segment>) -> Seq<SegmentView> {
    Seq::new(segments.len(), |i: int| segments[i]@)
}

/// What is wrong with a path expression.
#[derive(Debug, Clone, Copy, PartialEq, Eq, Structural)]
pub enum PathFault {
    /// The expression is empty.
    Empty,
    /// A key is missing: a dot at the start, at the end, or after a dot.
    EmptyKey,
    /// An opening bracket has no closing one after its index.
    UnclosedBracket,
    /// A bracket holds neither digits nor `*`.
    InvalidIndex,
    /// An index does not fit 64 bits.
    IndexTooLarge,
    /// A segment is followed by something other than `.` or `[`.
    UnexpectedChar,
}

/// A syntax error in a path expression, at a character position.
#[derive(Debug, Clone, Copy, PartialEq, Eq, Structural)]
pub struct PathError {
    pub position: usize,
    pub fault: PathFault,
}

/// A fault and the number of characters that were left when it was met.
pub type Failure = (PathFault, nat);

/// The error that a failure stands for in an expression of `len`
/// characters.
pub open spec fn path_error(len: nat, failure: Failure) -> PathError {
    PathError { position: (len - failure.1) as usize, fault: failure.0 }
}

/// Whether `c` may stand in a key.
pub open spec fn is_key_char(c: char) -> bool {
    c != '.' && c != '[' && c != ']'
}

/// How many key characters `s` starts with.
pub open spec fn key_len(s: Seq<char>) -> nat
    decreases s.len(),
{
    if s.len() > 0 && is_key_char(s[0]) {
        1 + key_len(s.skip(1))
    } else {
        0
    }
}

/// A key is never longer than the text.
pub proof fn lemma_key_len(s: Seq<char>)
    ensures
        key_len(s) <= s.len(),
    decreases s.len(),
{
    if s.len() > 0 && is_key_char(s[0]) {
        lemma_key_len(s.skip(1));
    }
}

/// Reads what follows an opening bracket: the segment, and how many
/// characters it takes with its closing bracket.
pub open spec fn parse_bracket(s: Seq<char>) -> Result<(SegmentView, nat), Failure> {
    if s.len() >= 1 && s[0] == '*' {
        if s.len() >= 2 && s[1] == ']' {
            Ok((SegmentView::Wildcard, 2))
        } else {
            Err((PathFault::UnclosedBracket, (s.len() - 1) as nat))
        }
    } else {
        let n = digits_len(s);
        if n == 0 {
            Err((PathFault::InvalidIndex, s.len()))
        } else if !(n < s.len() && s[n as int] == ']') {
            Err((PathFault::UnclosedBracket, (s.len() - n) as nat))
        } else if decimal_value(s.take(n as int)) > u64::MAX {
            Err((PathFault::IndexTooLarge, s.len()))
        } else {
            Ok((SegmentView::Index(decimal_value(s.take(n as int))), n + 1))
        }
    }
}

/// Reads the segments of `s`; `first` says that none was read before, so
/// that a key needs no dot in front of it.
pub open spec fn parse_segments(s: Seq<char>, first: bool) -> Result<Seq<SegmentView>, Failure>
    decreases s.len(),
{
    if s.len() == 0 {
        Ok(Seq::empty())
    } else if s[0] == '[' {
        match parse_bracket(s.skip(1)) {
            Err(e) => Err(e),
            Ok((segment, n)) => {
                proof {
                    lemma_digits_len(s.skip(1));
                }
                match parse_segments(s.skip(1 + n as int), false) {
                    Err(e) => Err(e),
                    Ok(rest) => Ok(seq![segment] + rest),
                }
            },
        }
    } else if !first && s[0] != '.' {
        Err((PathFault::UnexpectedChar, s.len()))
    } else {
        let t = if first {
            s
        } else {
            s.skip(1)
        };
        let k = key_len(t);
        if k == 0 {
            Err((PathFault::EmptyKey, t.len()))
        } else {
            proof {
                lemma_key_len(t);
            }
            match parse_segments(t.skip(k as int), false) {
                Err(e) => Err(e),
                Ok(rest) => Ok(seq![SegmentView::Key(t.take(k as int))] + rest),
            }
        }
    }
}

/// The segments that a path expression denotes, or its first fault.
pub open spec fn parse_path(s: Seq<char>) -> Result<Seq<SegmentView>, Failure> {
    if s.len() == 0 {
        Err((PathFault::Empty, 0))
    } else {
        parse_segments(s, true)
    }
}

/// The end of the run of key characters that starts at `pos`.
fn scan_key(buf: &Vec<char>, pos: usize) -> (end: usize)
    requires
        pos <= buf.len(),
    ensures
        pos <= end <= buf.len(),
        end - pos == key_len(buf@.skip(pos as int)),
{
    let mut i = pos;
    while i < buf.len() && buf[i] != '.' && buf[i] != '[' && buf[i] != ']'
        invariant
            pos <= i <= buf.len(),
            key_len(buf@.skip(pos as int)) == (i - pos) + key_len(buf@.skip(i as int)),
        decreases buf.len() - i,
    {
        proof {
            assert(buf@.skip(i as int).skip(1) =~= buf@.skip(i + 1));
        }
        i += 1;
    }
    i
}

/// Reads what follows an opening bracket, from `pos` on.
fn read_bracket(buf: &Vec<char>, pos: usize) -> (r: Result<(Segment, usize), PathError>)
    requires
        pos <= buf.len(),
    ensures
        match parse_bracket(buf@.skip(pos as int)) {
            Ok((segment, n)) => r matches Ok((s, end)) && s@ == segment && end == pos + n && end
                <= buf.len(),
            Err((fault, left)) => left <= buf.len() && r == Err::<(Segment, usize), PathError>(
                PathError { position: (buf.len() - left) as usize, fault },
            ),
        },
{
    let ghost s = buf@.skip(pos as int);
    if pos < buf.len() && buf[pos] == '*' {
        if pos + 1 < buf.len() && buf[pos + 1] == ']' {
            Ok((Segment::Wildcard, pos + 2))
        } else {
            Err(PathError { position: pos + 1, fault: PathFault::UnclosedBracket })
        }
    } else {
        let end = scan_digits(buf, pos);
        proof {
            lemma_digits_len(s);
            assert(s.take(end - pos) =~= buf@.subrange(pos as int, end as int));
        }
        if end == pos {
            Err(PathError { position: pos, fault: PathFault::InvalidIndex })
        } else if !(end < buf.len() && buf[end] == ']') {
            Err(PathError { position: end, fault: PathFault::UnclosedBracket })
        } else {
            match read_decimal(buf, pos, end) {
                Some(v) => Ok((Segment::Index(v), end + 1)),
                None => Err(PathError { position: pos, fault: PathFault::IndexTooLarge }),
            }
        }
    }
}

/// Reads the segments from `pos` on and appends them to `out`.
fn read_segments(buf: &Vec<char>, pos: usize, first: bool, out: &mut Vec<Segment>) -> (r: Result<
    (),
    PathError,
>)
    requires
        pos <= buf.len(),
    ensures
        match parse_segments(buf@.skip(pos as int), first) {
            Ok(segments) => r is Ok && segment_views(final(out)@) == segment_views(old(out)@)
                + segments,
            Err((fault, left)) => left <= buf.len() && r == Err::<(), PathError>(
                PathError { position: (buf.len() - left) as usize, fault },
            ),
        },
    decreases buf.len() - pos,
{
    let ghost s = buf@.skip(pos as int);
    if pos == buf.len() {
        assert(segment_views(out@) =~= segment_views(old(out)@) + Seq::<SegmentView>::empty());
        Ok(())
    } else if buf[pos] == '[' {
        proof {
            assert(s.skip(1) =~= buf@.skip(pos + 1));
        }
        match read_bracket(buf, pos + 1) {
            Err(e) => Err(e),
            Ok((segment, end)) => {
                let ghost segment_view = segment@;
                let ghost n = end - pos - 1;
                proof {
                    assert(s.skip(1 + n) =~= buf@.skip(end as int));
                }
                out.push(segment);
                let ghost mid = out@;
                let r = read_segments(buf, end, false, out);
                proof {
                    if let Ok(rest) = parse_segments(buf@.skip(end as int), false) {
                        assert(segment_views(mid) =~= segment_views(old(out)@) + seq![segment_view]);
                        assert(segment_views(out@) =~= segment_views(old(out)@) + (seq![
                            segment_view,
                        ] + rest));
                    }
                }
                r
            },
        }
    } else if !first && buf[pos] != '.' {
        Err(PathError { position: pos, fault: PathFault::UnexpectedChar })
    } else {
        let start = if first {
            pos
        } else {
            pos + 1
        };
        let ghost t = buf@.skip(start as int);
        proof {
            assert(s.skip(1) =~= buf@.skip(pos + 1));
        }
        let end = scan_key(buf, start);
        if end == start {
            Err(PathError { position: start, fault: PathFault::EmptyKey })
        } else {
            let key = slice_string(buf, start, end);
            proof {
                assert(t.take(end - start) =~= buf@.subrange(start as int, end as int));
                assert(t.skip(end - start) =~= buf@.skip(end as int));
            }
            out.push(Segment::Key(key));
            let ghost mid = out@;
            let r = read_segments(buf, end, false, out);
            proof {
                if let Ok(rest) = parse_segments(buf@.skip(end as int), false) {
                    let head = SegmentView::Key(t.take(end - start));
                    assert(segment_views(mid) =~= segment_views(old(out)@) + seq![head]);
                    assert(segment_views(out@) =~= segment_views(old(out)@) + (seq![head] + rest));
                }
            }
            r
        }
    }
}

/// Reads a path expression.
pub fn read_path(expression: &str) -> (r: Result<Vec<Segment>, PathError>)
    ensures
        match parse_path(expression@) {
            Ok(segments) => r matches Ok(path) && segment_views(path@) == segments,
            Err((fault, left)) => left <= expression@.len() && r == Err::<Vec<Segment>, PathError>(
                PathError { position: (expression@.len() - left) as usize, fault },
            ),
        },
{
    let buf = chars_of(expression);
    if buf.len() == 0 {
        return Err(PathError { position: 0, fault: PathFault::Empty });
    }
    let mut out: Vec<Segment> = Vec::new();
    assert(buf@.skip(0) =~= buf@);
    match read_segments(&buf, 0, true, &mut out) {
        Ok(()) => {
            proof {
                let segments = parse_segments(buf@, true)->Ok_0;
                assert(segment_views(out@) =~= segments);
            }
            Ok(out)
        },
        Err(e) => Err(e),
    }
}

} // verus!
