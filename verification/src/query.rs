//! The query buffer: the text being composed, as typed ("visible") and as it
//! will be submitted ("real").
//!
//! The two sequences move in lock-step for every insertion and deletion; the
//! only divergence is a line break appended to the visible text when the user
//! continues a statement on the next line, so the visible text is always the
//! real text followed by zero or more line breaks.

use vstd::prelude::*;

use crate::text::{chars_to_string, str_to_chars};

verus! {

/// The fixed prompt written before the visible text on every redraw.
pub fn prompt() -> (r: &'static str)
    ensures
        r@ == prompt_text(),
{
    "oxisql>"
}

/// The characters of the fixed prompt.
pub open spec fn prompt_text() -> Seq<char> {
    "oxisql>"@
}

/// The text being composed: the characters shown to the user and the
/// characters that will be submitted.
pub struct Query {
    /// The text as drawn on the prompt line.
    pub visible_query: Vec<char>,
    /// The text that is submitted when the statement is complete.
    pub real_query: Vec<char>,
}

impl Query {
    /// The visible text is the real text followed by zero or more line
    /// breaks.
    pub open spec fn wf(self) -> bool {
        &&& self.visible_query@.len() >= self.real_query@.len()
        &&& self.visible_query@.take(self.real_query@.len() as int) == self.real_query@
        &&& forall|i: int|
            self.real_query@.len() <= i < self.visible_query@.len()
                ==> self.visible_query@[i] == '\n'
    }

    /// An empty buffer.
    pub fn new() -> (q: Query)
        ensures
            q.wf(),
            q.visible_query@ =~= Seq::<char>::empty(),
            q.real_query@ =~= Seq::<char>::empty(),
    {
        let q = Query { visible_query: Vec::new(), real_query: Vec::new() };
        proof {
            assert(q.visible_query@.take(0) =~= q.real_query@);
        }
        q
    }

    /// Inserts `c` at `cursor_position` into both sequences. The caller is
    /// responsible for advancing its cursor afterwards.
    pub fn handle_char(&mut self, cursor_position: usize, c: char)
        requires
            old(self).wf(),
            cursor_position <= old(self).real_query@.len(),
        ensures
            final(self).wf(),
            final(self).visible_query@ == old(self).visible_query@.insert(cursor_position as int, c),
            final(self).real_query@ == old(self).real_query@.insert(cursor_position as int, c),
    {
        self.visible_query.insert(cursor_position, c);
        self.real_query.insert(cursor_position, c);
        proof {
            let p = cursor_position as int;
            let rl = old(self).real_query@.len() as int;
            assert(self.visible_query@.take(rl + 1)
                =~= old(self).visible_query@.take(rl).insert(p, c));
        }
    }

    /// Appends a line break to the visible text only: the submitted text is
    /// unchanged.
    pub fn handle_enter(&mut self)
        requires
            old(self).wf(),
        ensures
            final(self).wf(),
            final(self).visible_query@ == old(self).visible_query@.push('\n'),
            final(self).real_query@ == old(self).real_query@,
    {
        self.visible_query.push('\n');
        proof {
            let rl = self.real_query@.len() as int;
            assert(self.visible_query@.take(rl) =~= old(self).visible_query@.take(rl));
        }
    }

    /// Removes the character at `cursor_position` from both sequences; a
    /// no-op when the buffer is empty. The caller decrements its cursor
    /// beforehand for backspace semantics.
    pub fn handle_backspace(&mut self, cursor_position: usize)
        requires
            old(self).wf(),
            old(self).visible_query@.len() == 0 || cursor_position < old(self).real_query@.len(),
        ensures
            final(self).wf(),
            old(self).visible_query@.len() == 0 ==> *final(self) == *old(self),
            old(self).visible_query@.len() > 0 ==> {
                &&& final(self).visible_query@ == old(self).visible_query@.remove(
                    cursor_position as int,
                )
                &&& final(self).real_query@ == old(self).real_query@.remove(cursor_position as int)
            },
    {
        if self.visible_query.is_empty() {
            return ;
        }
        self.visible_query.remove(cursor_position);
        self.real_query.remove(cursor_position);
        proof {
            let p = cursor_position as int;
            let rl = old(self).real_query@.len() as int;
            assert(self.visible_query@.take(rl - 1)
                =~= old(self).visible_query@.take(rl).remove(p));
        }
    }

    /// Replaces both sequences with the given text.
    pub fn set_query(&mut self, query: String)
        ensures
            final(self).wf(),
            final(self).visible_query@ == query@,
            final(self).real_query@ == query@,
    {
        let chars = str_to_chars(query.as_str());
        let chars2 = str_to_chars(query.as_str());
        self.visible_query = chars;
        self.real_query = chars2;
        proof {
            assert(self.visible_query@.take(query@.len() as int) =~= query@);
        }
    }

    /// Empties both sequences.
    pub fn clear(&mut self)
        ensures
            final(self).wf(),
            final(self).visible_query@ =~= Seq::<char>::empty(),
            final(self).real_query@ =~= Seq::<char>::empty(),
    {
        self.visible_query.clear();
        self.real_query.clear();
        proof {
            assert(self.visible_query@.take(0) =~= self.real_query@);
        }
    }

    /// The length of the visible text, in characters.
    pub fn len(&self) -> (n: usize)
        ensures
            n == self.visible_query@.len(),
    {
        self.visible_query.len()
    }

    /// The characters of the visible text.
    pub fn chars(&self) -> (r: Vec<char>)
        ensures
            r@ == self.visible_query@,
    {
        let mut r: Vec<char> = Vec::new();
        let mut i: usize = 0;
        while i < self.visible_query.len()
            invariant
                i <= self.visible_query@.len(),
                r@ == self.visible_query@.take(i as int),
            decreases self.visible_query@.len() - i,
        {
            r.push(self.visible_query[i]);
            proof {
                let v = self.visible_query@;
                assert(v.take(i + 1 as int) =~= v.take(i as int).push(v[i as int]));
            }
            i = i + 1;
        }
        proof {
            let v = self.visible_query@;
            assert(v.take(v.len() as int) =~= v);
        }
        r
    }

    /// The submitted text as an owned string.
    pub fn as_str(&self) -> (r: String)
        ensures
            r@ == self.real_query@,
    {
        chars_to_string(&self.real_query)
    }

    /// The visible text as an owned string, as it is drawn after the prompt.
    pub fn visible_text(&self) -> (r: String)
        ensures
            r@ == self.visible_query@,
    {
        chars_to_string(&self.visible_query)
    }
}

} // verus!
