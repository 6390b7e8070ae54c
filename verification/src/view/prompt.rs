//! Which part of a prompt the status line shows.

use crate::modes::command::Command;
use crate::modes::search::{PatternPiece, Search};
use vstd::prelude::*;

verus! {

/// The part of a prompt that is shown: the items from `start` up to, but
/// without, `end`.
#[derive(Debug, PartialEq, Eq, Clone, Copy, Structural)]
pub struct Window {
    pub start: usize,
    pub end: usize,
}

/// The columns that the label of the search prompt takes.
pub const SEARCH_LABEL: usize = 7;

/// The columns that the label of the command prompt takes.
pub const COMMAND_LABEL: usize = 1;

/// Where the window starts before it is made to fit: where it started
/// last, but not behind the last item nor behind the cursor.
pub open spec fn window_start(len: int, cursor: int, last: int) -> int {
    let start = if len <= last {
        if len > 1 {
            len - 1
        } else {
            0
        }
    } else {
        last
    };
    if cursor < start {
        cursor
    } else {
        start
    }
}

/// The columns that are left for the items: those of the line without
/// the label and, where the cursor stands behind the last item, without
/// the column of the cursor.
pub open spec fn room(max_width: int, label: int, cursor_behind: bool) -> int {
    let rest = max_width - label - if cursor_behind {
        1int
    } else {
        0int
    };
    if rest < 0 {
        0
    } else {
        rest
    }
}

/// The window of a line of characters, one column each: it starts where
/// it started last if the cursor is then in it, and else as far to the
/// right as the cursor asks.
pub open spec fn line_window(len: int, cursor: int, max_width: int, last: int) -> (int, int) {
    let at = if cursor < len {
        cursor
    } else {
        len
    };
    let width = room(max_width, COMMAND_LABEL as int, at == len);
    let first = window_start(len, at, last);
    let start = if at - first > width {
        at - width
    } else {
        first
    };
    (start, if len < start + width {
        len
    } else {
        start + width
    })
}

/// The window of a pattern in hex, three columns for each piece: the
/// piece of the cursor is the last one shown if the window has to move.
pub open spec fn hex_window(len: int, cursor: int, max_width: int, last: int) -> (int, int) {
    let at = if cursor < len {
        cursor
    } else {
        len
    };
    let width = room(max_width, SEARCH_LABEL as int, false) / 3;
    let first = window_start(len, at, last);
    let start = if width == 0 {
        at
    } else if at >= first + width {
        at + 1 - width
    } else {
        first
    };
    (start, if len < start + width {
        len
    } else {
        start + width
    })
}

/// The columns of a piece that is shown as text: one for a wildcard, a
/// blank and a character with a glyph, four for any other byte.
pub open spec fn piece_width(piece: PatternPiece) -> int {
    match piece {
        PatternPiece::Wildcard => 1,
        PatternPiece::Literal(byte) => if 0x20 <= byte <= 0x7e {
            1
        } else {
            4
        },
    }
}

/// The columns of the pieces from `from` up to, but without, `to`.
pub open spec fn widths(pieces: Seq<PatternPiece>, from: int, to: int) -> int
    decreases to - from,
{
    if to <= from {
        0
    } else {
        piece_width(pieces[from]) + widths(pieces, from + 1, to)
    }
}

/// How many pieces, from `from` on, have to go until `columns` columns
/// are free.
pub open spec fn dropped(pieces: Seq<PatternPiece>, from: int, columns: int) -> int
    decreases pieces.len() - from,
{
    if columns <= 0 || from >= pieces.len() {
        0
    } else {
        1 + dropped(pieces, from + 1, columns - piece_width(pieces[from]))
    }
}

/// How many pieces, from `from` on, fit into `columns` columns.
pub open spec fn fitting(pieces: Seq<PatternPiece>, from: int, columns: int) -> int
    decreases pieces.len() - from,
{
    if from >= pieces.len() || from < 0 || columns < piece_width(pieces[from]) {
        0
    } else {
        1 + fitting(pieces, from + 1, columns - piece_width(pieces[from]))
    }
}

/// The window of a pattern as text: pieces go from its start until those
/// up to the cursor fit, and it ends with the last piece that still fits.
pub open spec fn text_window(pieces: Seq<PatternPiece>, cursor: int, max_width: int, last: int) -> (
    int,
    int,
) {
    let len = pieces.len() as int;
    let at = if cursor < len {
        cursor
    } else {
        len
    };
    let width = room(max_width, SEARCH_LABEL as int, at == len);
    let first = window_start(len, at, last);
    let required = widths(pieces, first, at);
    let start = if required > width {
        first + dropped(pieces, first, required - width)
    } else {
        first
    };
    (start, start + fitting(pieces, start, width))
}

/// The columns of a run of pieces are those of the run without its last
/// piece and those of that piece.
pub proof fn lemma_widths_last(pieces: Seq<PatternPiece>, from: int, to: int)
    requires
        0 <= from < to <= pieces.len(),
    ensures
        widths(pieces, from, to) == widths(pieces, from, to - 1) + piece_width(pieces[to - 1]),
    decreases to - from,
{
    if from + 1 < to {
        lemma_widths_last(pieces, from + 1, to);
    } else {
        assert(widths(pieces, from + 1, to) == 0);
        assert(widths(pieces, from, to - 1) == 0);
    }
}

/// A run of pieces takes no column if it is empty, and at least one and
/// at most four for each piece.
pub proof fn lemma_widths_bounds(pieces: Seq<PatternPiece>, from: int, to: int)
    requires
        0 <= from <= to <= pieces.len(),
    ensures
        to - from <= widths(pieces, from, to) <= 4 * (to - from),
    decreases to - from,
{
    if from < to {
        lemma_widths_bounds(pieces, from + 1, to);
    }
}

/// Where a run of pieces takes at least `columns` columns, the pieces
/// that go are of the run, and what stays of it takes that much less.
pub proof fn lemma_dropped(pieces: Seq<PatternPiece>, from: int, to: int, columns: int)
    requires
        0 <= from <= to <= pieces.len(),
        widths(pieces, from, to) >= columns,
    ensures
        0 <= dropped(pieces, from, columns),
        from + dropped(pieces, from, columns) <= to,
        columns >= 0 ==> widths(pieces, from + dropped(pieces, from, columns), to) <= widths(
            pieces,
            from,
            to,
        ) - columns,
    decreases pieces.len() - from,
{
    if columns > 0 {
        assert(from < to);
        lemma_dropped(pieces, from + 1, to, columns - piece_width(pieces[from]));
        if columns - piece_width(pieces[from]) < 0 {
            assert(dropped(pieces, from + 1, columns - piece_width(pieces[from])) == 0);
            lemma_widths_bounds(pieces, from + 1, to);
        }
    }
}

/// A run of pieces that takes no more than `columns` columns fits, and
/// what fits takes no more than `columns` columns.
pub proof fn lemma_fitting(pieces: Seq<PatternPiece>, from: int, to: int, columns: int)
    requires
        0 <= from <= to <= pieces.len(),
        widths(pieces, from, to) <= columns,
    ensures
        to <= from + fitting(pieces, from, columns) <= pieces.len(),
        widths(pieces, from, from + fitting(pieces, from, columns)) <= columns,
    decreases pieces.len() - from,
{
    if from < to {
        lemma_fitting(pieces, from + 1, to, columns - piece_width(pieces[from]));
        lemma_widths_bounds(pieces, from + 1, to);
    } else if from < pieces.len() && columns >= piece_width(pieces[from]) {
        lemma_fitting(pieces, from + 1, from + 1, columns - piece_width(pieces[from]));
    } else {
        assert(fitting(pieces, from, columns) == 0);
    }
}

/// The columns of one piece.
fn width_of(piece: &PatternPiece) -> (r: usize)
    ensures
        r == piece_width(*piece),
{
    match piece {
        PatternPiece::Wildcard => 1,
        PatternPiece::Literal(byte) => if 0x20 <= *byte && *byte <= 0x7e {
            1
        } else {
            4
        },
    }
}

/// The columns that are left for the items.
fn room_for(max_width: usize, label: usize, cursor_behind: bool) -> (r: usize)
    ensures
        r == room(max_width as int, label as int, cursor_behind),
{
    let rest = max_width.saturating_sub(label);
    if cursor_behind {
        rest.saturating_sub(1)
    } else {
        rest
    }
}

/// Where the window starts before it is made to fit.
fn start_for(len: usize, cursor: usize, last: usize) -> (r: usize)
    ensures
        r == window_start(len as int, cursor as int, last as int),
{
    let start = if len <= last {
        if len > 1 {
            len - 1
        } else {
            0
        }
    } else {
        last
    };
    if cursor < start {
        cursor
    } else {
        start
    }
}

impl Command {
    /// The characters of the line that a status line of `max_width`
    /// columns shows, if it showed those from `last_start_col` on the last
    /// time: as many as fit, the cursor among them.
    pub fn window(&self, max_width: usize, last_start_col: usize) -> (r: Window)
        ensures
            (r.start as int, r.end as int) == line_window(
                self.command@.len() as int,
                self.cursor as int,
                max_width as int,
                last_start_col as int,
            ),
            r.start <= r.end <= self.command@.len(),
            r.start <= self.cursor,
            self.cursor <= self.command@.len() && max_width >= 2 ==> self.cursor <= r.end,
    {
        let len = self.command.len();
        let at = if self.cursor < len {
            self.cursor
        } else {
            len
        };
        let width = room_for(max_width, COMMAND_LABEL, at == len);
        let first = start_for(len, at, last_start_col);
        let start = if at - first > width {
            at - width
        } else {
            first
        };
        let end = if len - start < width {
            len
        } else {
            start + width
        };
        Window { start, end }
    }
}

impl Search {
    /// The pieces of the pattern that a status line of `max_width` columns
    /// shows, if it showed those from `last_start_col` on the last time:
    /// as many as fit, in hex or as text, the cursor among them.
    pub fn window(&self, max_width: usize, last_start_col: usize) -> (r: Window)
        ensures
            (r.start as int, r.end as int) == if self.hex {
                hex_window(
                    self.pattern.pieces@.len() as int,
                    self.cursor as int,
                    max_width as int,
                    last_start_col as int,
                )
            } else {
                text_window(
                    self.pattern.pieces@,
                    self.cursor as int,
                    max_width as int,
                    last_start_col as int,
                )
            },
            r.start <= r.end <= self.pattern.pieces@.len(),
            r.start <= self.cursor,
            !self.hex ==> widths(self.pattern.pieces@, r.start as int, r.end as int) <= room(
                max_width as int,
                SEARCH_LABEL as int,
                self.cursor >= self.pattern.pieces@.len(),
            ),
            self.cursor <= self.pattern.pieces@.len() && (!self.hex || max_width >= SEARCH_LABEL
                + 3) ==> self.cursor <= r.end,
    {
        let pieces = &self.pattern.pieces;
        let len = pieces.len();
        let at = if self.cursor < len {
            self.cursor
        } else {
            len
        };
        let first = start_for(len, at, last_start_col);
        if self.hex {
            let width = room_for(max_width, SEARCH_LABEL, false) / 3;
            let start = if width == 0 {
                at
            } else if at - first >= width {
                at - (width - 1)
            } else {
                first
            };
            let end = if len - start < width {
                len
            } else {
                start + width
            };
            return Window { start, end };
        }
        let width = room_for(max_width, SEARCH_LABEL, at == len);
        // The columns that the pieces up to the cursor take.
        let mut i: usize = first;
        let mut required: u128 = 0;
        while i < at
            invariant
                first <= i <= at <= len,
                len == pieces@.len(),
                required == widths(pieces@, first as int, i as int),
                required <= 4 * (i - first),
            decreases at - i,
        {
            let w = width_of(&pieces[i]);
            proof {
                lemma_widths_last(pieces@, first as int, i + 1);
            }
            required = required + w as u128;
            i += 1;
        }
        let mut start: usize = first;
        if required > width as u128 {
            let ghost columns = required - width;
            let mut remaining: u128 = required - width as u128;
            let ghost mut rest: int = columns;
            proof {
                lemma_dropped(pieces@, first as int, at as int, columns);
            }
            while start < len && remaining > 0
                invariant
                    first <= start <= len,
                    len == pieces@.len(),
                    remaining == if rest < 0 {
                        0
                    } else {
                        rest
                    },
                    first + dropped(pieces@, first as int, columns) == start + dropped(
                        pieces@,
                        start as int,
                        rest,
                    ),
                decreases len - start,
            {
                let w = width_of(&pieces[start]);
                remaining = if remaining < w as u128 {
                    0
                } else {
                    remaining - w as u128
                };
                proof {
                    rest = rest - w;
                }
                start += 1;
            }
        }
        proof {
            lemma_widths_bounds(pieces@, start as int, at as int);
            lemma_fitting(pieces@, start as int, at as int, width as int);
        }
        let mut end: usize = start;
        let mut left: usize = width;
        while end < len && width_of(&pieces[end]) <= left
            invariant
                start <= end <= len,
                len == pieces@.len(),
                left <= width,
                start + fitting(pieces@, start as int, width as int) == end + fitting(
                    pieces@,
                    end as int,
                    left as int,
                ),
            decreases len - end,
        {
            left = left - width_of(&pieces[end]);
            end += 1;
        }
        Window { start, end }
    }
}

} // verus!
