//! The logical editing state above the engine: the document together with a
//! screen cursor, and the mapping from that cursor to a document offset.
//! Terminal rendering and key decoding live with the caller; only the
//! document and cursor arithmetic is kept here.

use vstd::prelude::*;
use crate::piece_table::PieceTable;
use crate::lines::cursor_offset;
use crate::lines::line_len;
use crate::lines::lemma_first_nl;

verus! {

/// A direction in which the caller may move the cursor.
pub enum Direction {
    Up,
    Down,
    Left,
    Right,
}

/// A cursor position on screen: column `x` within the visible line `y`.
#[derive(Clone, Copy, PartialEq, Eq, Structural, Debug)]
pub struct CursorPosition {
    pub x: u16,
    pub y: u16,
}

/// The document under edit together with the logical cursor: the screen
/// cursor position and the index of the first visible line. Rendering,
/// key decoding and file handling belong to the caller, which reads the
/// document back through the engine after every change.
pub struct Editor {
    pub contents: PieceTable,
    pub cursor_pos: CursorPosition,
    pub window_offset: u16,
}

impl Editor {
    /// The document offset under the cursor: column `x` of the document
    /// line the cursor rests on, counting from the first visible line.
    /// `None` when the cursor addresses no character — a column past the end
    /// of its line, a line past the end of the document, or the position
    /// just past the final character.
    pub fn get_position(&self) -> (r: Option<usize>)
        requires
            self.contents.wf(),
        ensures
            ({
                let c = cursor_offset(
                    self.contents.doc(),
                    self.cursor_pos.x as int,
                    self.cursor_pos.y as int + self.window_offset as int,
                );
                match r {
                    Some(p) => c == Some(p as int),
                    None => c is None,
                }
            }),
    {
        let chars = self.contents.doc_chars();
        let col = self.cursor_pos.x as usize;
        let row = self.cursor_pos.y as usize + self.window_offset as usize;
        match crate::lines::line_start_at(&chars, row) {
            None => None,
            Some(s) => {
                let e = crate::lines::scan_newline(&chars, s);
                proof {
                    lemma_first_nl(chars@.subrange(s as int, chars@.len() as int));
                    assert(line_len(chars@, row as int) == e - s);
                }
                if col <= e - s && s + col < chars.len() {
                    Some(s + col)
                } else {
                    None
                }
            },
        }
    }

    /// Step the document back to the previous snapshot, if there is one; the
    /// cursor and window are left as they are.
    pub fn undo(&mut self)
        requires
            old(self).contents.wf(),
        ensures
            final(self).contents.wf(),
            final(self).cursor_pos == old(self).cursor_pos,
            final(self).window_offset == old(self).window_offset,
            old(self).contents.history_at() == 0 ==> final(self).contents == old(self).contents,
            old(self).contents.history_at() > 0 ==> {
                &&& final(self).contents.history() == old(self).contents.history()
                &&& final(self).contents.history_at() == old(self).contents.history_at() - 1
                &&& final(self).contents.doc() == old(self).contents.history()[old(self).contents.history_at() - 1]
            },
    {
        self.contents.undo();
    }

    /// Step the document forward to the next snapshot, if `undo` left one;
    /// the cursor and window are left as they are.
    pub fn redo(&mut self)
        requires
            old(self).contents.wf(),
        ensures
            final(self).contents.wf(),
            final(self).cursor_pos == old(self).cursor_pos,
            final(self).window_offset == old(self).window_offset,
            old(self).contents.history_at() == old(self).contents.history().len() - 1
                ==> final(self).contents == old(self).contents,
            old(self).contents.history_at() < old(self).contents.history().len() - 1 ==> {
                &&& final(self).contents.history() == old(self).contents.history()
                &&& final(self).contents.history_at() == old(self).contents.history_at() + 1
                &&& final(self).contents.doc() == old(self).contents.history()[old(self).contents.history_at() + 1]
            },
    {
        self.contents.redo();
    }
}

} // verus!
