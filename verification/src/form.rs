//! The state of the add-connection form: three text fields — name,
//! host, user — with one focused field and a cursor position per field,
//! counted in characters.

use vstd::prelude::*;
use vstd::string::*;
use crate::text::{push_char, strings_view, substr_copy};

verus! {

/// The editable state behind the add-connection form.
pub struct AddConnectionForm {
    fields: Vec<String>,
    current_field: usize,
    cursor_positions: Vec<usize>,
}

impl View for AddConnectionForm {
    type V = (Seq<Seq<char>>, int, Seq<int>);

    closed spec fn view(&self) -> (Seq<Seq<char>>, int, Seq<int>) {
        (
            strings_view(self.fields@),
            self.current_field as int,
            Seq::new(self.cursor_positions@.len(), |i: int| self.cursor_positions@[i] as int),
        )
    }
}

impl AddConnectionForm {
    /// Three fields, a focused field in range, and every cursor inside
    /// its field.
    pub open spec fn wf(&self) -> bool {
        &&& self@.0.len() == 3
        &&& self@.2.len() == 3
        &&& 0 <= self@.1 < 3
        &&& forall|i: int| 0 <= i < 3 ==> 0 <= #[trigger] self@.2[i] <= self@.0[i].len()
    }

    /// A fresh form: empty fields, focus on the first field.
    pub fn new() -> (r: AddConnectionForm)
        ensures
            r@.0 =~= seq![Seq::<char>::empty(), Seq::<char>::empty(), Seq::<char>::empty()],
            r@.1 == 0,
            r@.2 =~= seq![0int, 0int, 0int],
            r.wf(),
    {
        let mut fields: Vec<String> = Vec::new();
        fields.push(String::new());
        fields.push(String::new());
        fields.push(String::new());
        let mut cursors: Vec<usize> = Vec::new();
        cursors.push(0);
        cursors.push(0);
        cursors.push(0);
        let r = AddConnectionForm { fields, current_field: 0, cursor_positions: cursors };
        proof {
            assert(r@.0 =~= seq![Seq::<char>::empty(), Seq::<char>::empty(), Seq::<char>::empty()]);
            assert(r@.2 =~= seq![0int, 0int, 0int]);
        }
        r
    }

    /// The text of field `i`.
    pub fn field(&self, i: usize) -> (r: &String)
        requires
            self.wf(),
            i < 3,
        ensures
            r@ == self@.0[i as int],
    {
        &self.fields[i]
    }

    /// The index of the focused field.
    pub fn focused(&self) -> (r: usize)
        ensures
            r as int == self@.1,
    {
        self.current_field
    }

    /// The cursor position of field `i`.
    pub fn cursor_at(&self, i: usize) -> (r: usize)
        requires
            self.wf(),
            i < 3,
        ensures
            r as int == self@.2[i as int],
    {
        self.cursor_positions[i]
    }

    /// Move the focus to the next field, wrapping around.
    pub fn next_field(&mut self)
        requires
            old(self).wf(),
        ensures
            final(self)@.0 == old(self)@.0,
            final(self)@.2 == old(self)@.2,
            final(self)@.1 == (old(self)@.1 + 1) % 3,
            final(self).wf(),
    {
        self.current_field = (self.current_field + 1) % self.fields.len();
    }

    /// Move the focus to the previous field, wrapping around.
    pub fn prev_field(&mut self)
        requires
            old(self).wf(),
        ensures
            final(self)@.0 == old(self)@.0,
            final(self)@.2 == old(self)@.2,
            final(self)@.1 == (old(self)@.1 + 2) % 3,
            final(self).wf(),
    {
        self.current_field = (self.current_field + self.fields.len() - 1) % self.fields.len();
    }

    /// Move the cursor of the focused field one step left, stopping at
    /// the start of the field.
    pub fn move_cursor_left(&mut self)
        requires
            old(self).wf(),
        ensures
            final(self)@.0 == old(self)@.0,
            final(self)@.1 == old(self)@.1,
            final(self)@.2 =~= old(self)@.2.update(
                old(self)@.1,
                if old(self)@.2[old(self)@.1] > 0 {
                    old(self)@.2[old(self)@.1] - 1
                } else {
                    0int
                },
            ),
            final(self).wf(),
    {
        let cur = self.current_field;
        let c = self.cursor_positions[cur];
        if c > 0 {
            self.cursor_positions.set(cur, c - 1);
        } else {
            self.cursor_positions.set(cur, 0);
        }
        proof {
            assert(self@.0 =~= old(self)@.0);
            assert(self@.2 =~= old(self)@.2.update(
                old(self)@.1,
                if old(self)@.2[old(self)@.1] > 0 {
                    old(self)@.2[old(self)@.1] - 1
                } else {
                    0int
                },
            ));
        }
    }

    /// Move the cursor of the focused field one step right, stopping at
    /// the end of the field.
    pub fn move_cursor_right(&mut self)
        requires
            old(self).wf(),
        ensures
            final(self)@.0 == old(self)@.0,
            final(self)@.1 == old(self)@.1,
            final(self)@.2 =~= old(self)@.2.update(
                old(self)@.1,
                if old(self)@.2[old(self)@.1] + 1 <= old(self)@.0[old(self)@.1].len() {
                    old(self)@.2[old(self)@.1] + 1
                } else {
                    old(self)@.0[old(self)@.1].len() as int
                },
            ),
            final(self).wf(),
    {
        let cur = self.current_field;
        let c = self.cursor_positions[cur];
        let len = self.fields[cur].as_str().unicode_len();
        proof {
            assert(self@.0[cur as int] == self.fields@[cur as int]@);
        }
        if c < len {
            self.cursor_positions.set(cur, c + 1);
        } else {
            self.cursor_positions.set(cur, len);
        }
        proof {
            assert(self@.0 =~= old(self)@.0);
            assert(self@.2 =~= old(self)@.2.update(
                old(self)@.1,
                if old(self)@.2[old(self)@.1] + 1 <= old(self)@.0[old(self)@.1].len() {
                    old(self)@.2[old(self)@.1] + 1
                } else {
                    old(self)@.0[old(self)@.1].len() as int
                },
            ));
        }
    }

    /// Insert a character at the cursor of the focused field and move
    /// the cursor past it.
    pub fn enter_char(&mut self, c: char)
        requires
            old(self).wf(),
        ensures
            final(self)@.1 == old(self)@.1,
            final(self)@.0 =~= old(self)@.0.update(
                old(self)@.1,
                old(self)@.0[old(self)@.1].insert(old(self)@.2[old(self)@.1], c),
            ),
            final(self)@.2 =~= old(self)@.2.update(old(self)@.1, old(self)@.2[old(self)@.1] + 1),
            final(self).wf(),
    {
        let cur = self.current_field;
        let cpos = self.cursor_positions[cur];
        let field = &self.fields[cur];
        let n = field.as_str().unicode_len();
        proof {
            assert(self@.0[cur as int] == field@);
            assert(self@.2[cur as int] == cpos as int);
        }
        let mut rebuilt = substr_copy(field.as_str(), 0, cpos);
        push_char(&mut rebuilt, c);
        let tail = field.as_str().substring_char(cpos, n);
        rebuilt.append(tail);
        proof {
            assert(rebuilt@ =~= old(self)@.0[cur as int].insert(cpos as int, c));
        }
        let newlen = rebuilt.as_str().unicode_len();
        proof {
            assert(newlen as int == field@.len() + 1);
        }
        self.fields.set(cur, rebuilt);
        self.cursor_positions.set(cur, cpos + 1);
        proof {
            assert(self@.0 =~= old(self)@.0.update(
                cur as int,
                old(self)@.0[cur as int].insert(cpos as int, c),
            ));
            assert(self@.2 =~= old(self)@.2.update(cur as int, cpos as int + 1));
        }
    }

    /// Delete the character before the cursor of the focused field, if
    /// any, and move the cursor back over it.
    pub fn delete_char(&mut self)
        requires
            old(self).wf(),
        ensures
            final(self)@.1 == old(self)@.1,
            old(self)@.2[old(self)@.1] > 0 ==> {
                &&& final(self)@.0 =~= old(self)@.0.update(
                    old(self)@.1,
                    old(self)@.0[old(self)@.1].remove(old(self)@.2[old(self)@.1] - 1),
                )
                &&& final(self)@.2 =~= old(self)@.2.update(
                    old(self)@.1,
                    old(self)@.2[old(self)@.1] - 1,
                )
            },
            old(self)@.2[old(self)@.1] == 0 ==> final(self)@ == old(self)@,
            final(self).wf(),
    {
        let cur = self.current_field;
        let cpos = self.cursor_positions[cur];
        if cpos > 0 {
            let field = &self.fields[cur];
            let n = field.as_str().unicode_len();
            proof {
                assert(self@.0[cur as int] == field@);
                assert(self@.2[cur as int] == cpos as int);
            }
            let mut rebuilt = substr_copy(field.as_str(), 0, cpos - 1);
            let tail = field.as_str().substring_char(cpos, n);
            rebuilt.append(tail);
            proof {
                assert(rebuilt@ =~= old(self)@.0[cur as int].remove(cpos as int - 1));
            }
            self.fields.set(cur, rebuilt);
            self.cursor_positions.set(cur, cpos - 1);
            proof {
                assert(self@.0 =~= old(self)@.0.update(
                    cur as int,
                    old(self)@.0[cur as int].remove(cpos as int - 1),
                ));
                assert(self@.2 =~= old(self)@.2.update(cur as int, cpos as int - 1));
            }
        }
    }
}

} // verus!
