//! The line being edited at the prompt: its text and a cursor, counted in
//! characters, with insertion, deletion and cursor movement. The cursor
//! ranges from the first character to just past the last one; states with
//! the cursor beyond the line are tolerated and drained back.

use crate::text::{chars_of, string_of};
use vstd::prelude::*;

verus! {


/// What inserting a character does to a line and cursor.
pub open spec fn inserted(line: Seq<char>, cursor: int, ch: char) -> (Seq<char>, int) {
    if cursor > line.len() {
        (line.push(ch), line.len() + 2int)
    } else {
        (line.take(cursor).push(ch).add(line.skip(cursor)), cursor + 1)
    }
}

/// What a backspace does to a line and cursor.
pub open spec fn backspaced(line: Seq<char>, cursor: int) -> (Seq<char>, int) {
    if cursor == 0 {
        (line, cursor)
    } else if cursor > line.len() {
        (
            if line.len() > 0 {
                line.drop_last()
            } else {
                line
            },
            cursor - 1,
        )
    } else {
        (line.take(cursor - 1).add(line.skip(cursor)), cursor - 1)
    }
}

/// What the delete key does to a line and cursor.
pub open spec fn deleted(line: Seq<char>, cursor: int) -> (Seq<char>, int) {
    if cursor == line.len() {
        (line, cursor)
    } else if cursor > line.len() {
        (
            if line.len() > 0 {
                line.drop_last()
            } else {
                line
            },
            cursor,
        )
    } else {
        (line.take(cursor).add(line.skip(cursor + 1)), cursor)
    }
}

/// A line of input and the cursor position inside it.
#[derive(Clone)]
pub struct InputLine {
    cursor: usize,
    line: String,
}

impl InputLine {
    /// The characters of the line.
    pub closed spec fn line_m(self) -> Seq<char> {
        self.line@
    }

    /// The cursor position, in characters.
    pub closed spec fn cursor_m(self) -> int {
        self.cursor as int
    }

    /// An empty line with the cursor at its start.
    pub fn new_empty() -> (r: Self)
        ensures
            r.line_m() == Seq::<char>::empty(),
            r.cursor_m() == 0,
    {
        InputLine { cursor: 0, line: String::new() }
    }

    /// Wraps a line, placing the cursor after its last character.
    pub fn from_string(line: String) -> (r: Self)
        ensures
            r.line_m() == line@,
            r.cursor_m() == line@.len(),
    {
        let cursor = line.as_str().unicode_len();
        InputLine { cursor, line }
    }

    /// Gives the line text up.
    pub fn into_string(self) -> (r: String)
        ensures
            r@ == self.line_m(),
    {
        self.line
    }

    /// The line text.
    pub fn as_str(&self) -> (r: &str)
        ensures
            r@ == self.line_m(),
    {
        self.line.as_str()
    }

    /// The length of the line, in characters.
    pub fn len(&self) -> (r: usize)
        ensures
            r == self.line_m().len(),
    {
        self.line.as_str().unicode_len()
    }

    /// The cursor position.
    pub fn cursor(&self) -> (r: usize)
        ensures
            r == self.cursor_m(),
    {
        self.cursor
    }

    /// Inserts a character at the cursor and moves the cursor past it. A
    /// cursor beyond the line appends at the end instead and lands one
    /// past the new end.
    pub fn insert(&mut self, ch: char)
        requires
            old(self).line_m().len() + 2 <= usize::MAX,
        ensures
            (final(self).line_m(), final(self).cursor_m()) == inserted(
                old(self).line_m(),
                old(self).cursor_m(),
                ch,
            ),
    {
        let n = self.line.as_str().unicode_len();
        if self.cursor > n {
            let mut cs = chars_of(self.line.as_str());
            cs.push(ch);
            self.line = string_of(&cs);
            self.cursor = n + 1 + 1;
            proof {
                assert(self.line@ =~= old(self).line_m().push(ch));
            }
        } else {
            let cs = chars_of(self.line.as_str());
            let mut out: Vec<char> = Vec::new();
            let mut i: usize = 0;
            while i < self.cursor
                invariant
                    self.cursor <= n,
                    n == cs@.len(),
                    cs@ == old(self).line_m(),
                    i <= self.cursor,
                    out@ == cs@.take(i as int),
                    self.cursor == old(self).cursor_m(),
                decreases self.cursor - i,
            {
                out.push(cs[i]);
                i = i + 1;
                proof {
                    assert(out@ =~= cs@.take(i as int));
                }
            }
            out.push(ch);
            proof {
                assert(out@ =~= cs@.take(self.cursor as int).push(ch).add(
                    cs@.subrange(self.cursor as int, self.cursor as int),
                ));
            }
            let mut k: usize = self.cursor;
            while k < n
                invariant
                    self.cursor <= k <= n,
                    n == cs@.len(),
                    cs@ == old(self).line_m(),
                    self.cursor == old(self).cursor_m(),
                    out@ == cs@.take(self.cursor as int).push(ch).add(
                        cs@.subrange(self.cursor as int, k as int),
                    ),
                decreases n - k,
            {
                out.push(cs[k]);
                k = k + 1;
                proof {
                    assert(out@ =~= cs@.take(self.cursor as int).push(ch).add(
                        cs@.subrange(self.cursor as int, k as int),
                    ));
                }
            }
            proof {
                assert(out@ =~= cs@.take(self.cursor as int).push(ch).add(
                    cs@.skip(self.cursor as int),
                ));
            }
            self.line = string_of(&out);
            self.cursor = self.cursor + 1;
        }
    }

    /// Moves the cursor one character left, stopping at the start.
    pub fn cursor_left(&mut self)
        ensures
            final(self).line_m() == old(self).line_m(),
            final(self).cursor_m() == (if old(self).cursor_m() > 0 {
                old(self).cursor_m() - 1
            } else {
                0
            }),
    {
        if self.cursor > 0 {
            self.cursor = self.cursor - 1;
        }
    }

    /// Moves the cursor one character right, stopping one past the last
    /// character.
    pub fn cursor_right(&mut self)
        ensures
            final(self).line_m() == old(self).line_m(),
            final(self).cursor_m() == (if old(self).cursor_m() + 1 < old(self).line_m().len() {
                old(self).cursor_m() + 1
            } else {
                old(self).line_m().len() as int
            }),
    {
        let n = self.line.as_str().unicode_len();
        let next = if self.cursor < usize::MAX {
            self.cursor + 1
        } else {
            self.cursor
        };
        self.cursor = if n < next {
            n
        } else {
            next
        };
    }

    /// Deletes the character before the cursor, if the cursor is past the
    /// start, and moves the cursor one left. A cursor beyond the line
    /// drops the last character instead.
    pub fn backspace(&mut self)
        ensures
            (final(self).line_m(), final(self).cursor_m()) == backspaced(
                old(self).line_m(),
                old(self).cursor_m(),
            ),
    {
        if self.cursor == 0 {
            return ;
        }
        let n = self.line.as_str().unicode_len();
        if self.cursor > n {
            if n > 0 {
                let cs = chars_of(self.line.as_str());
                let shorter = copy_range(&cs, 0, n - 1);
                self.line = string_of(&shorter);
                proof {
                    assert(old(self).line_m().subrange(0, old(self).line_m().len() - 1) =~= old(
                        self,
                    ).line_m().drop_last());
                }
            }
        } else {
            let cs = chars_of(self.line.as_str());
            let mut out = copy_range(&cs, 0, self.cursor - 1);
            let mut tail = copy_range(&cs, self.cursor, n);
            out.append(&mut tail);
            self.line = string_of(&out);
            proof {
                assert(out@ =~= old(self).line_m().take(old(self).cursor_m() - 1).add(
                    old(self).line_m().skip(old(self).cursor_m()),
                ));
            }
        }
        self.cursor = self.cursor - 1;
    }

    /// Deletes the character at the cursor, leaving the cursor in place. A
    /// cursor beyond the line drops the last character; at the very end of
    /// the line nothing changes.
    pub fn delete_key(&mut self)
        ensures
            (final(self).line_m(), final(self).cursor_m()) == deleted(
                old(self).line_m(),
                old(self).cursor_m(),
            ),
    {
        let n = self.line.as_str().unicode_len();
        if self.cursor == n {
            return ;
        }
        if self.cursor > n {
            if n > 0 {
                let cs = chars_of(self.line.as_str());
                let shorter = copy_range(&cs, 0, n - 1);
                self.line = string_of(&shorter);
                proof {
                    assert(old(self).line_m().subrange(0, old(self).line_m().len() - 1) =~= old(
                        self,
                    ).line_m().drop_last());
                }
            }
        } else {
            let cs = chars_of(self.line.as_str());
            let mut out = copy_range(&cs, 0, self.cursor);
            let mut tail = copy_range(&cs, self.cursor + 1, n);
            out.append(&mut tail);
            self.line = string_of(&out);
            proof {
                assert(out@ =~= old(self).line_m().take(old(self).cursor_m()).add(
                    old(self).line_m().skip(old(self).cursor_m() + 1),
                ));
            }
        }
    }
}

/// The characters of a vector between two positions, as a new vector.
fn copy_range(cs: &Vec<char>, from: usize, to: usize) -> (r: Vec<char>)
    requires
        from <= to <= cs@.len(),
    ensures
        r@ == cs@.subrange(from as int, to as int),
{
    let mut out: Vec<char> = Vec::new();
    let mut i: usize = from;
    while i < to
        invariant
            from <= i <= to <= cs@.len(),
            out@ == cs@.subrange(from as int, i as int),
        decreases to - i,
    {
        out.push(cs[i]);
        i = i + 1;
        proof {
            assert(out@ =~= cs@.subrange(from as int, i as int));
        }
    }
    out
}

} // verus!
