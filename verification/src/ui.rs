//! The editor session: a state machine that consumes one key event at a
//! time, edits the query buffer, drives history recall and symbol
//! completion, and describes the single prompt line to redraw after every
//! key.

use vstd::prelude::*;

use crate::completion::{
    complete_symbol, complete_symbol_rel, history_next, history_next_rel, history_previous,
    history_previous_rel, CompletionState,
};
use crate::query::{prompt, prompt_text, Query};
use crate::trie::{is_recall_list, Trie};

verus! {

/// One key event, as the terminal reports it.
pub enum Key {
    /// A character key; the end-of-input control character is among them.
    Char(char),
    Backspace,
    Enter,
    ArrowUp,
    ArrowDown,
    ArrowLeft,
    ArrowRight,
    Tab,
    /// Any other key: logged by the caller and ignored here.
    Unknown,
}

/// What one consumed key means for the input loop.
#[derive(PartialEq, Eq, Structural)]
pub enum Step {
    /// Keep reading keys.
    Pending,
    /// The statement is complete: submit the buffer's real text.
    Submitted,
    /// End of input on an empty buffer: the session is over.
    Terminated,
}

/// The end-of-input control character: pressed on an empty buffer it ends
/// the session.
pub open spec fn end_of_input() -> char {
    '\u{4}'
}

/// One editing session: the two tries the editor consults. The history trie
/// persists across sessions; the symbol trie is rebuilt each run.
pub struct Session {
    pub commands_trie: Trie,
    pub symbols_trie: Trie,
}

/// The editing state of one input request.
pub struct InputState {
    pub query: Query,
    pub cursor: usize,
    pub completion: CompletionState,
}

impl InputState {
    /// The cursor stays inside the submitted text, and the completion state
    /// inside its match lists.
    pub open spec fn wf(self) -> bool {
        &&& self.query.wf()
        &&& self.cursor <= self.query.real_query@.len()
        &&& self.completion.wf()
    }

    /// An empty buffer with the cursor at its start and no completion
    /// context.
    pub fn new() -> (st: InputState)
        ensures
            st.wf(),
            st.query.real_query@ =~= Seq::<char>::empty(),
            st.query.visible_query@ =~= Seq::<char>::empty(),
            st.cursor == 0,
            st.completion.command_offset == 0,
            st.completion.commands@.len() == 0,
    {
        InputState { query: Query::new(), cursor: 0, completion: CompletionState::new() }
    }
}

impl Session {
    /// Both tries are well formed.
    pub open spec fn wf(self) -> bool {
        self.commands_trie.wf() && self.symbols_trie.wf()
    }

    /// A session over the given history and symbol tries.
    pub fn new(commands_trie: Trie, symbols_trie: Trie) -> (s: Session)
        requires
            commands_trie.wf(),
            symbols_trie.wf(),
        ensures
            s.wf(),
            s.commands_trie == commands_trie,
            s.symbols_trie == symbols_trie,
    {
        Session { commands_trie, symbols_trie }
    }

    /// Consumes one key event. Character keys edit the buffer at the cursor
    /// and re-filter the history matches; the arrows move the cursor or walk
    /// the history; the completion key resolves the token under the cursor;
    /// the submit key ends the request once the text ends with the statement
    /// terminator; the end-of-input character on an empty buffer ends the
    /// session. Unknown keys change nothing.
    pub fn step(&self, st: &mut InputState, key: Key) -> (r: Step)
        requires
            self.wf(),
            old(st).wf(),
        ensures
            final(st).wf(),
            match key {
                Key::Char(c) => {
                    if c == end_of_input() {
                        &&& *final(st) == *old(st)
                        &&& r == (if old(st).query.visible_query@.len() == 0 {
                            Step::Terminated
                        } else {
                            Step::Pending
                        })
                    } else {
                        &&& r == Step::Pending
                        &&& final(st).query.real_query@ == old(st).query.real_query@.insert(
                            old(st).cursor as int,
                            c,
                        )
                        &&& final(st).query.visible_query@ == old(st).query.visible_query@.insert(
                            old(st).cursor as int,
                            c,
                        )
                        &&& final(st).cursor == old(st).cursor + 1
                        &&& final(st).completion.command_offset == 0
                        &&& is_recall_list(
                            self.commands_trie,
                            final(st).query.real_query@,
                            final(st).completion.commands@,
                        )
                        &&& final(st).completion.symbol_matches == old(st).completion.symbol_matches
                        &&& final(st).completion.match_index == old(st).completion.match_index
                        &&& final(st).completion.last_matched_word == old(st).completion.last_matched_word
                    }
                },
                Key::Backspace => {
                    &&& r == Step::Pending
                    &&& (old(st).cursor == 0 ==> final(st).query == old(st).query
                        && final(st).cursor == 0)
                    &&& (old(st).cursor > 0 ==> {
                        &&& final(st).query.real_query@ == old(st).query.real_query@.remove(
                            old(st).cursor - 1,
                        )
                        &&& final(st).query.visible_query@ == old(st).query.visible_query@.remove(
                            old(st).cursor - 1,
                        )
                        &&& final(st).cursor == old(st).cursor - 1
                    })
                    &&& is_recall_list(
                        self.commands_trie,
                        final(st).query.real_query@,
                        final(st).completion.commands@,
                    )
                    &&& final(st).completion.command_offset == (if old(st).completion.command_offset
                        <= final(st).completion.commands@.len() {
                        old(st).completion.command_offset as int
                    } else {
                        final(st).completion.commands@.len() as int
                    })
                    &&& final(st).completion.symbol_matches == old(st).completion.symbol_matches
                    &&& final(st).completion.match_index == old(st).completion.match_index
                    &&& final(st).completion.last_matched_word == old(st).completion.last_matched_word
                },
                Key::Enter => {
                    let text = old(st).query.real_query@;
                    if text.len() > 0 && text.last() == ';' {
                        r == Step::Submitted && *final(st) == *old(st)
                    } else {
                        &&& r == Step::Pending
                        &&& final(st).query.visible_query@ == old(st).query.visible_query@.push(
                            '\n',
                        )
                        &&& final(st).query.real_query@ == old(st).query.real_query@
                        &&& final(st).cursor == old(st).cursor
                        &&& final(st).completion == old(st).completion
                    }
                },
                Key::ArrowLeft => {
                    &&& r == Step::Pending
                    &&& final(st).cursor == (if old(st).cursor > 0 {
                        old(st).cursor - 1
                    } else {
                        0
                    })
                    &&& final(st).query == old(st).query
                    &&& final(st).completion == old(st).completion
                },
                Key::ArrowRight => {
                    &&& r == Step::Pending
                    &&& final(st).cursor == (if old(st).cursor < old(st).query.real_query@.len() {
                        old(st).cursor + 1
                    } else {
                        old(st).query.real_query@.len() as int
                    })
                    &&& final(st).query == old(st).query
                    &&& final(st).completion == old(st).completion
                },
                Key::ArrowUp => {
                    &&& r == Step::Pending
                    &&& history_previous_rel(
                        self.commands_trie,
                        old(st).completion,
                        old(st).query,
                        old(st).cursor,
                        final(st).completion,
                        final(st).query,
                        final(st).cursor,
                    )
                },
                Key::ArrowDown => {
                    &&& r == Step::Pending
                    &&& history_next_rel(
                        self.commands_trie,
                        old(st).completion,
                        old(st).query,
                        old(st).cursor,
                        final(st).completion,
                        final(st).query,
                        final(st).cursor,
                    )
                },
                Key::Tab => {
                    &&& r == Step::Pending
                    &&& complete_symbol_rel(
                        self.symbols_trie,
                        old(st).completion,
                        old(st).query,
                        old(st).cursor,
                        final(st).completion,
                        final(st).query,
                        final(st).cursor,
                    )
                },
                Key::Unknown => r == Step::Pending && *final(st) == *old(st),
            },
    {
        match key {
            Key::Char(c) => {
                if c == '\u{4}' {
                    if st.query.len() == 0 {
                        return Step::Terminated;
                    }
                    return Step::Pending;
                }
                st.query.handle_char(st.cursor, c);
                proof {
                    assert(vstd::std_specs::vec::spec_vec_len(&st.query.real_query)
                        == st.query.real_query@.len());
                }
                st.cursor = st.cursor + 1;
                let text = st.query.as_str();
                st.completion.commands = self.commands_trie.search_all(text.as_str());
                st.completion.command_offset = 0;
                Step::Pending
            },
            Key::Backspace => {
                if st.cursor > 0 {
                    st.cursor = st.cursor - 1;
                    st.query.handle_backspace(st.cursor);
                }
                let text = st.query.as_str();
                st.completion.commands = self.commands_trie.search_all(text.as_str());
                if st.completion.command_offset > st.completion.commands.len() {
                    st.completion.command_offset = st.completion.commands.len();
                }
                Step::Pending
            },
            Key::Enter => {
                let n = st.query.real_query.len();
                if n > 0 && st.query.real_query[n - 1] == ';' {
                    return Step::Submitted;
                }
                st.query.handle_enter();
                Step::Pending
            },
            Key::ArrowLeft => {
                if st.cursor > 0 {
                    st.cursor = st.cursor - 1;
                }
                Step::Pending
            },
            Key::ArrowRight => {
                if st.cursor < st.query.real_query.len() {
                    st.cursor = st.cursor + 1;
                }
                Step::Pending
            },
            Key::ArrowUp => {
                let mut cursor = st.cursor;
                history_previous(
                    &self.commands_trie,
                    &mut st.completion,
                    &mut st.query,
                    &mut cursor,
                );
                st.cursor = cursor;
                Step::Pending
            },
            Key::ArrowDown => {
                let mut cursor = st.cursor;
                history_next(&self.commands_trie, &mut st.completion, &mut st.query, &mut cursor);
                st.cursor = cursor;
                Step::Pending
            },
            Key::Tab => {
                let mut cursor = st.cursor;
                complete_symbol(&self.symbols_trie, &mut st.completion, &mut st.query, &mut cursor);
                st.cursor = cursor;
                Step::Pending
            },
            Key::Unknown => Step::Pending,
        }
    }
}

/// The single prompt line as drawn: its characters and the column the
/// terminal cursor rests in.
pub struct TerminalLine {
    pub content: Vec<char>,
    pub cursor_col: usize,
}

impl TerminalLine {
    /// An empty line with the cursor at its start.
    pub fn new() -> (line: TerminalLine)
        ensures
            line.content@ =~= Seq::<char>::empty(),
            line.cursor_col == 0,
    {
        TerminalLine { content: Vec::new(), cursor_col: 0 }
    }
}

/// What the prompt line shows after a redraw: the fixed prompt, then the
/// visible text, with the cursor `cursor` columns into the text.
pub open spec fn rendered(q: Query, cursor: usize, line: TerminalLine) -> bool {
    &&& line.content@ == prompt_text() + q.visible_query@
    &&& line.cursor_col == prompt_text().len() + cursor
}

/// Clears the prompt line and draws it afresh from the state alone: the
/// prompt, the visible text, and the cursor position.
pub fn redraw(line: &mut TerminalLine, q: &Query, cursor: usize)
    requires
        cursor <= q.visible_query@.len(),
        q.visible_query@.len() + prompt_text().len() < usize::MAX,
    ensures
        rendered(*q, cursor, *final(line)),
{
    line.content.clear();
    let p = prompt();
    let plen = p.unicode_len();
    let mut i: usize = 0;
    while i < plen
        invariant
            plen == prompt_text().len(),
            p@ == prompt_text(),
            i <= plen,
            line.content@ == prompt_text().take(i as int),
        decreases plen - i,
    {
        line.content.push(p.get_char(i));
        proof {
            assert(prompt_text().take(i + 1 as int) =~= prompt_text().take(i as int).push(
                prompt_text()[i as int],
            ));
        }
        i = i + 1;
    }
    proof {
        assert(prompt_text().take(plen as int) =~= prompt_text());
    }
    let mut k: usize = 0;
    while k < q.visible_query.len()
        invariant
            plen == prompt_text().len(),
            k <= q.visible_query@.len(),
            q.visible_query@.len() + plen < usize::MAX,
            line.content@ == prompt_text() + q.visible_query@.take(k as int),
        decreases q.visible_query@.len() - k,
    {
        line.content.push(q.visible_query[k]);
        proof {
            assert(q.visible_query@.take(k + 1 as int) =~= q.visible_query@.take(k as int).push(
                q.visible_query@[k as int],
            ));
            assert((prompt_text() + q.visible_query@.take(k as int)).push(
                q.visible_query@[k as int],
            ) =~= prompt_text() + q.visible_query@.take(k + 1 as int));
        }
        k = k + 1;
    }
    proof {
        assert(q.visible_query@.take(q.visible_query@.len() as int) =~= q.visible_query@);
    }
    line.cursor_col = plen + cursor;
}

/// Redrawing is idempotent: with no key event in between, a second redraw of
/// the same state leaves the line's content and cursor column exactly as the
/// first left them.
pub proof fn lemma_redraw_idempotent(
    q: Query,
    cursor: usize,
    first: TerminalLine,
    second: TerminalLine,
)
    requires
        rendered(q, cursor, first),
        rendered(q, cursor, second),
    ensures
        first.content@ == second.content@,
        first.cursor_col == second.cursor_col,
{
}

} // verus!
