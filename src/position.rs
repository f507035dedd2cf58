use vstd::prelude::*;

verus! {

/// The line reached after walking `text` from a point on line `line`: one
/// more for every `'\n'`.
pub open spec fn line_after(line: int, text: Seq<char>) -> int
    decreases text.len(),
{
    if text.len() == 0 {
        line
    } else if text.last() == '\n' {
        line_after(line, text.drop_last()) + 1
    } else {
        line_after(line, text.drop_last())
    }
}

/// The column reached after walking `text` from column `column`: a newline
/// resets it to zero, any other character moves it on by one.
pub open spec fn column_after(column: int, text: Seq<char>) -> int
    decreases text.len(),
{
    if text.len() == 0 {
        column
    } else if text.last() == '\n' {
        0
    } else {
        column_after(column, text.drop_last()) + 1
    }
}

pub proof fn lemma_after_bounds(line: int, column: int, text: Seq<char>)
    requires
        column >= 0,
    ensures
        line <= line_after(line, text) <= line + text.len(),
        0 <= column_after(column, text) <= column + text.len(),
    decreases text.len(),
{
    if text.len() > 0 {
        lemma_after_bounds(line, column, text.drop_last());
    }
}

pub proof fn lemma_after_concat(line: int, column: int, a: Seq<char>, b: Seq<char>)
    ensures
        line_after(line, a + b) == line_after(line_after(line, a), b),
        column_after(column, a + b) == column_after(column_after(column, a), b),
    decreases b.len(),
{
    if b.len() == 0 {
        assert(a + b =~= a);
    } else {
        assert((a + b).drop_last() =~= a + b.drop_last());
        lemma_after_concat(line, column, a, b.drop_last());
    }
}

/// One place in a source file.
#[derive(Clone, Copy, PartialEq, Eq, Structural, Debug)]
pub struct Point {
    /// 1-indexed line in a source file.
    pub line: usize,
    /// 1-indexed column in a source file.
    pub column: usize,
    /// 0-indexed character count from the start of a source file.
    pub offset: usize,
}

impl Point {
    /// Whether walking `text` from this point keeps every field within `usize`.
    pub open spec fn can_advance(self, text: Seq<char>) -> bool {
        &&& self.line + text.len() <= usize::MAX
        &&& self.column + text.len() <= usize::MAX
        &&& self.offset + text.len() <= usize::MAX
    }

    /// The point reached after walking `text` character by character.
    pub open spec fn advanced(self, text: Seq<char>) -> Point {
        Point {
            line: line_after(self.line as int, text) as usize,
            column: column_after(self.column as int, text) as usize,
            offset: (self.offset + text.len()) as usize,
        }
    }

    pub proof fn lemma_advanced_concat(self, a: Seq<char>, b: Seq<char>)
        requires
            self.can_advance(a + b),
        ensures
            self.can_advance(a),
            self.advanced(a).can_advance(b),
            self.advanced(a + b) == self.advanced(a).advanced(b),
    {
        lemma_after_bounds(self.line as int, self.column as int, a);
        lemma_after_bounds(self.line as int, self.column as int, a + b);
        lemma_after_concat(self.line as int, self.column as int, a, b);
        let pa = self.advanced(a);
        lemma_after_bounds(pa.line as int, pa.column as int, b);
    }

    pub fn new(line: usize, column: usize, offset: usize) -> (r: Point)
        ensures
            r == (Point { line, column, offset }),
    {
        Point { line, column, offset }
    }

    /// Moves over a single character.
    pub fn advance_char(&mut self, c: char)
        requires
            old(self).can_advance(seq![c]),
        ensures
            *final(self) == old(self).advanced(seq![c]),
    {
        proof {
            assert(seq![c].drop_last() =~= Seq::<char>::empty());
            reveal_with_fuel(line_after, 2);
            reveal_with_fuel(column_after, 2);
        }
        if c == '\n' {
            self.line = self.line + 1;
            self.column = 0;
            self.offset = self.offset + 1;
        } else {
            self.column = self.column + 1;
            self.offset = self.offset + 1;
        }
    }

    /// Moves over `chars[from..to]`.
    pub fn advance_slice(&mut self, chars: &Vec<char>, from: usize, to: usize)
        requires
            from <= to <= chars@.len(),
            old(self).can_advance(chars@.subrange(from as int, to as int)),
        ensures
            *final(self) == old(self).advanced(chars@.subrange(from as int, to as int)),
    {
        let ghost start = *self;
        let mut i: usize = from;
        while i < to
            invariant
                from <= i <= to <= chars@.len(),
                start.can_advance(chars@.subrange(from as int, to as int)),
                *self == start.advanced(chars@.subrange(from as int, i as int)),
            decreases to - i,
        {
            let ghost done = chars@.subrange(from as int, i as int);
            proof {
                let rest = chars@.subrange(i as int, to as int);
                assert(done + rest =~= chars@.subrange(from as int, to as int));
                start.lemma_advanced_concat(done, rest);
                assert(rest =~= seq![chars@[i as int]] + rest.subrange(1, rest.len() as int));
                start.advanced(done).lemma_advanced_concat(seq![chars@[i as int]], rest.subrange(1, rest.len() as int));
                start.lemma_advanced_concat(done, seq![chars@[i as int]]);
                assert(done + seq![chars@[i as int]] =~= chars@.subrange(from as int, i + 1));
            }
            self.advance_char(chars[i]);
            i = i + 1;
        }
    }

    /// Walks `text` character by character: a newline moves to the next line
    /// and resets the column to zero; any other character moves the column on
    /// by one. The offset grows by one for every character.
    pub fn advance(&mut self, text: &str)
        requires
            old(self).can_advance(text@),
        ensures
            *final(self) == old(self).advanced(text@),
    {
        let ghost start = *self;
        let ghost all = text@;
        for c in it: text.chars()
            invariant
                it.seq() == all,
                start.can_advance(all),
                *self == start.advanced(all.take(it.index() as int)),
        {
            let ghost done = all.take(it.index() as int);
            proof {
                let rest = all.skip(it.index() as int);
                assert(done + rest =~= all);
                start.lemma_advanced_concat(done, rest);
                assert(rest =~= seq![c] + rest.skip(1));
                start.advanced(done).lemma_advanced_concat(seq![c], rest.skip(1));
                start.lemma_advanced_concat(done, seq![c]);
                assert(done + seq![c] =~= all.take(it.index() + 1));
            }
            self.advance_char(c);
        }
        proof {
            assert(all.take(all.len() as int) =~= all);
        }
    }
}

/// A half-open range `[start, end)` of a source file.
#[derive(Clone, Copy, PartialEq, Eq, Structural, Debug)]
pub struct Position {
    /// The place of the first character of the region.
    pub start: Point,
    /// The place of the first character after the region, whether it exists
    /// or not.
    pub end: Point,
}

impl Position {
    pub fn new(
        start_line: usize,
        start_column: usize,
        start_offset: usize,
        end_line: usize,
        end_column: usize,
        end_offset: usize,
    ) -> (r: Position)
        ensures
            r.start == (Point { line: start_line, column: start_column, offset: start_offset }),
            r.end == (Point { line: end_line, column: end_column, offset: end_offset }),
    {
        Position {
            start: Point::new(start_line, start_column, start_offset),
            end: Point::new(end_line, end_column, end_offset),
        }
    }

    /// An empty range at `point`.
    pub fn from_point(point: Point) -> (r: Position)
        ensures
            r.start == point,
            r.end == point,
    {
        Position { start: point, end: point }
    }

    pub fn from_points(start: Point, end: Point) -> (r: Position)
        ensures
            r.start == start,
            r.end == end,
    {
        Position { start, end }
    }

    pub fn advance_start(&mut self, text: &str)
        requires
            old(self).start.can_advance(text@),
        ensures
            final(self).start == old(self).start.advanced(text@),
            final(self).end == old(self).end,
    {
        self.start.advance(text);
    }

    pub fn advance_end(&mut self, text: &str)
        requires
            old(self).end.can_advance(text@),
        ensures
            final(self).start == old(self).start,
            final(self).end == old(self).end.advanced(text@),
    {
        self.end.advance(text);
    }
}

} // verus!
