//! Source text and locations within it.
use std::sync::Arc;

use vstd::prelude::*;
use vstd::utf8::encode_utf8;

use crate::strings::{lines_from, lines_of, split_lines};
use crate::text::{byte_offset, chars_of, char_width, decimal, lemma_byte_offset_bound, lemma_byte_offset_step, usize_to_string};

verus! {

/// Shares a source text (std's `Arc::clone`); the clone refers to the same text.
#[verifier::external_body]
pub(crate) fn arc_clone(a: &Arc<String>) -> (r: Arc<String>)
    ensures
        r == *a,
{
    Arc::clone(a)
}

/// The text of a module, shared by every location that points into it.
#[derive(Debug, PartialEq)]
pub struct SourceCode(pub Arc<String>);

impl Clone for SourceCode {
    fn clone(&self) -> (r: SourceCode)
        ensures
            r == *self,
    {
        SourceCode(arc_clone(&self.0))
    }
}

/// A 0-based line and a byte column within that line.
#[derive(Debug, Clone, Copy, PartialEq, Eq, Structural)]
pub struct Position {
    pub line: usize,
    pub column: usize,
}

/// A position bound to the source it points into.
#[derive(Debug, PartialEq)]
pub struct SourceLocation {
    source: SourceCode,
    position: Position,
}

impl Clone for SourceLocation {
    fn clone(&self) -> (r: SourceLocation)
        ensures
            r == *self,
    {
        SourceLocation { source: self.source.clone(), position: self.position }
    }
}

/// Model of a location: the text it points into and the position.
pub struct LocationModel {
    pub text: Seq<char>,
    pub position: Position,
}

impl View for SourceLocation {
    type V = LocationModel;

    closed spec fn view(&self) -> LocationModel {
        LocationModel { text: (*self.source.0)@, position: self.position }
    }
}

impl View for SourceCode {
    type V = Seq<char>;

    open spec fn view(&self) -> Seq<char> {
        (*self.0)@
    }
}

pub open spec fn loc(text: Seq<char>, line: int, column: int) -> LocationModel {
    LocationModel { text, position: Position { line: line as usize, column: column as usize } }
}

impl SourceCode {
    /// Converts a 0-based line/column pair into a location bound to this source.
    pub fn location(&self, line: usize, column: usize) -> (r: SourceLocation)
        ensures
            r@ == loc(self@, line as int, column as int),
    {
        SourceLocation { source: self.clone(), position: Position { line, column } }
    }

    /// Converts a `Position` into a location bound to this source.
    pub fn position(&self, position: Position) -> (r: SourceLocation)
        ensures
            r@ == (LocationModel { text: self@, position }),
    {
        SourceLocation { source: self.clone(), position }
    }
}

impl SourceLocation {
    /// Constructs a source location from a source buffer and a position.
    pub fn new(source: SourceCode, position: Position) -> (r: Self)
        ensures
            r@ == (LocationModel { text: source@, position }),
    {
        Self { source, position }
    }

    /// The position this location points at.
    pub fn pos(&self) -> (r: Position)
        ensures
            r == self@.position,
    {
        self.position
    }
}

impl Default for SourceLocation {
    /// A location at the start of an empty source.
    fn default() -> (r: SourceLocation)
        ensures
            r@ == loc(Seq::empty(), 0, 0),
    {
        SourceLocation {
            source: SourceCode(Arc::new(String::new())),
            position: Position { line: 0, column: 0 },
        }
    }
}


/// Index of the character of `line` at which byte `column` starts, searching from
/// character `k` (none when `column` falls inside a character or past the end).
pub open spec fn char_at_byte(line: Seq<char>, column: int, k: int) -> Option<int>
    decreases line.len() - k,
{
    if k < 0 || k > line.len() {
        None
    } else if byte_offset(line, k) == column {
        Some(k)
    } else if k == line.len() || byte_offset(line, k) > column {
        None
    } else {
        char_at_byte(line, column, k + 1)
    }
}

/// How a location is shown: its line with a mark at the column, or "unknown location".
pub open spec fn describe_spec(l: LocationModel) -> Seq<char> {
    let ls = lines_of(l.text);
    let n = l.position.line as int;
    if n < ls.len() {
        match char_at_byte(ls[n], l.position.column as int, 0) {
            Some(k) => "line "@ + decimal(n as nat) + ": "@ + ls[n].take(k) + "\u{21aa}"@
                + ls[n].skip(k),
            None => "unknown location"@,
        }
    } else {
        "unknown location"@
    }
}

impl SourceLocation {
    /// The location as shown in messages: `line N: <text before>↪<text after>`, or
    /// "unknown location" when the position is not in the source.
    pub fn describe(&self) -> (r: String)
        ensures
            r@ == describe_spec(self@),
    {
        let text = self.source.0.as_str();
        let nbytes = text.as_bytes().len();
        let chars = chars_of(text);
        let lines = split_lines(&chars);
        let n = self.position.line;
        let column = self.position.column;
        if n >= lines.len() {
            return "unknown location".to_string();
        }
        let line = &lines[n];
        proof {
            crate::intermediate::parser::lemma_lines_fit(chars@, 0);
            assert(lines@[n as int]@ == lines_from(chars@, 0)[n as int]);
            crate::intermediate::parser::lemma_fits_byte_offset(line@);
        }
        let mut k: usize = 0;
        let mut off: usize = 0;
        proof {
            assert(line@.take(0) =~= Seq::<char>::empty());
        }
        while k < line.len() && off < column
            invariant
                k <= line@.len(),
                off == byte_offset(line@, k as int),
                byte_offset(line@, line@.len() as int) <= usize::MAX,
                char_at_byte(line@, column as int, 0) == char_at_byte(line@, column as int, k as int),
            decreases line@.len() - k,
        {
            proof {
                lemma_byte_offset_step(line@, k as int);
                lemma_byte_offset_bound(line@, k as int + 1);
                assert(line@.take(line@.len() as int) =~= line@);
            }
            off = off + char_width(line[k]);
            k = k + 1;
        }
        if off != column {
            return "unknown location".to_string();
        }
        let mut r = "line ".to_string();
        r.append(usize_to_string(n).as_str());
        r.append(": ");
        let mut i: usize = 0;
        let ghost prefix = r@;
        while i < k
            invariant
                i <= k <= line@.len(),
                r@ == prefix + line@.take(i as int),
            decreases k - i,
        {
            crate::text::push_char(&mut r, line[i]);
            i = i + 1;
            assert(r@ =~= prefix + line@.take(i as int));
        }
        r.append("\u{21aa}");
        let ghost prefix2 = r@;
        let mut i: usize = k;
        while i < line.len()
            invariant
                k <= i <= line@.len(),
                r@ == prefix2 + line@.subrange(k as int, i as int),
            decreases line@.len() - i,
        {
            crate::text::push_char(&mut r, line[i]);
            i = i + 1;
            assert(r@ =~= prefix2 + line@.subrange(k as int, i as int));
        }
        assert(line@.subrange(k as int, line@.len() as int) =~= line@.skip(k as int));
        r
    }
}

} // verus!
