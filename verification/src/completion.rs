//! The completion engine: chronological history recall over the command
//! trie, and symbol tab-completion over the schema trie, with cycling on
//! repeated invocation.

use vstd::prelude::*;

use crate::query::Query;
use crate::text::{chars_to_string, str_to_chars};
use crate::trie::{is_recall_list, Trie};

verus! {

/// The ephemeral completion state of one input request.
pub struct CompletionState {
    /// How far back the user has walked into the history matches; `0` means
    /// no history selection is active.
    pub command_offset: usize,
    /// The history matches the offset walks over.
    pub commands: Vec<String>,
    /// The symbol matches the cycling index walks over.
    pub symbol_matches: Vec<String>,
    /// Which of `symbol_matches` the next completion press inserts.
    pub match_index: usize,
    /// The token a repeated completion press is recognised by: the
    /// replacement just inserted, so that an immediately repeated press —
    /// whose extracted token is that replacement — cycles onward, while any
    /// other edit changes the token and resets cycling.
    pub last_matched_word: String,
}

impl CompletionState {
    /// The offset stays within the match list, and the cycling index within
    /// the symbol matches.
    pub open spec fn wf(self) -> bool {
        &&& self.command_offset <= self.commands@.len()
        &&& (self.symbol_matches@.len() == 0 ==> self.match_index == 0)
        &&& (self.symbol_matches@.len() > 0 ==> self.match_index < self.symbol_matches@.len())
    }

    /// Fresh state: no selection, no matches, no token to repeat.
    pub fn new() -> (st: CompletionState)
        ensures
            st.wf(),
            st.command_offset == 0,
            st.commands@.len() == 0,
            st.symbol_matches@.len() == 0,
            st.match_index == 0,
            st.last_matched_word@ =~= Seq::<char>::empty(),
    {
        let st = CompletionState {
            command_offset: 0,
            commands: Vec::new(),
            symbol_matches: Vec::new(),
            match_index: 0,
            last_matched_word: String::new(),
        };
        st
    }
}

/// The contiguous run of non-space characters of `text` that ends at
/// `cursor`: the token under the cursor.
pub open spec fn current_word(text: Seq<char>, cursor: int) -> Seq<char>
    decreases cursor,
{
    if cursor <= 0 || cursor > text.len() {
        Seq::<char>::empty()
    } else if text[cursor - 1] == ' ' {
        Seq::<char>::empty()
    } else {
        current_word(text, cursor - 1).push(text[cursor - 1])
    }
}

/// The token under the cursor is the text between the last space and the
/// cursor.
pub(crate) proof fn lemma_current_word(text: Seq<char>, start: int, cursor: int)
    requires
        0 <= start <= cursor <= text.len(),
        forall|x: int| start <= x < cursor ==> text[x] != ' ',
        start == 0 || text[start - 1] == ' ',
    ensures
        current_word(text, cursor) == text.subrange(start, cursor),
        current_word(text, cursor).len() == cursor - start,
    decreases cursor - start,
{
    if cursor == start {
        assert(current_word(text, cursor) =~= text.subrange(start, cursor));
    } else {
        lemma_current_word(text, start, cursor - 1);
        assert(current_word(text, cursor) =~= text.subrange(start, cursor)) by {
            assert(text.subrange(start, cursor - 1).push(text[cursor - 1]) =~= text.subrange(
                start,
                cursor,
            ));
        }
    }
}

/// How one backward history step relates the state before it to the state
/// after it.
pub open spec fn history_previous_rel(
    history: Trie,
    st0: CompletionState,
    q0: Query,
    c0: usize,
    st1: CompletionState,
    q1: Query,
    c1: usize,
) -> bool {
    &&& st1.symbol_matches == st0.symbol_matches
    &&& st1.match_index == st0.match_index
    &&& st1.last_matched_word == st0.last_matched_word
    &&& (st0.command_offset == 0 ==> is_recall_list(history, q0.real_query@, st1.commands@))
    &&& (st0.command_offset > 0 ==> st1.commands == st0.commands)
    &&& (st1.commands@.len() == 0 ==> {
        &&& st1.command_offset == st0.command_offset
        &&& q1 == q0
        &&& c1 == c0
    })
    &&& (st1.commands@.len() > 0 ==> {
        let n = st1.commands@.len();
        let off = if st0.command_offset == n {
            st0.command_offset as int
        } else {
            st0.command_offset + 1
        };
        let selected = st1.commands@[n - off]@;
        &&& st1.command_offset == off
        &&& (selected.len() > 0 ==> {
            &&& q1.real_query@ == selected
            &&& q1.visible_query@ == selected
            &&& c1 == selected.len()
        })
        &&& (selected.len() == 0 ==> q1 == q0 && c1 == c0)
    })
}

/// History recall one step backward: on the first step the matches are
/// recomputed against what is typed; each further step selects the next
/// older match, stopping at the oldest. A non-empty selection replaces the
/// buffer and puts the cursor at its end; with no matches the key is
/// ignored.
pub fn history_previous(
    history: &Trie,
    st: &mut CompletionState,
    query: &mut Query,
    cursor: &mut usize,
)
    requires
        history.wf(),
        old(st).wf(),
        old(query).wf(),
        *old(cursor) <= old(query).real_query@.len(),
    ensures
        final(st).wf(),
        final(query).wf(),
        *final(cursor) <= final(query).real_query@.len(),
        history_previous_rel(
            *history,
            *old(st),
            *old(query),
            *old(cursor),
            *final(st),
            *final(query),
            *final(cursor),
        ),
{
    if st.command_offset == 0 {
        let text = query.as_str();
        st.commands = history.search_all(text.as_str());
    }
    if st.commands.len() == 0 {
        return ;
    }
    if st.command_offset != st.commands.len() {
        st.command_offset = st.command_offset + 1;
    }
    let selected = st.commands[st.commands.len() - st.command_offset].clone();
    let len = selected.as_str().unicode_len();
    if len > 0 {
        *cursor = len;
        query.set_query(selected);
    }
}

/// How one forward history step relates the state before it to the state
/// after it.
pub open spec fn history_next_rel(
    history: Trie,
    st0: CompletionState,
    q0: Query,
    c0: usize,
    st1: CompletionState,
    q1: Query,
    c1: usize,
) -> bool {
    &&& st1.symbol_matches == st0.symbol_matches
    &&& st1.match_index == st0.match_index
    &&& st1.last_matched_word == st0.last_matched_word
    &&& (st0.commands@.len() == 0 ==> {
        &&& st1 == st0
        &&& q1 == q0
        &&& c1 == c0
    })
    &&& (st0.commands@.len() > 0 ==> {
        let off = if st0.command_offset >= 1 {
            st0.command_offset - 1
        } else {
            0
        };
        &&& st1.command_offset == off
        &&& (off == 0 ==> {
            &&& q1.real_query@ =~= Seq::<char>::empty()
            &&& q1.visible_query@ =~= Seq::<char>::empty()
            &&& c1 == 0
            &&& is_recall_list(history, Seq::<char>::empty(), st1.commands@)
        })
        &&& (off > 0 ==> {
            let selected = st0.commands@[st0.commands@.len() - off]@;
            &&& st1.commands == st0.commands
            &&& (selected.len() > 0 ==> {
                &&& q1.real_query@ == selected
                &&& q1.visible_query@ == selected
                &&& c1 == selected.len()
            })
            &&& (selected.len() == 0 ==> q1 == q0 && c1 == c0)
        })
    })
}

/// History recall one step forward: walking past the newest match clears the
/// buffer and recomputes the matches against the now-empty text; otherwise
/// the next newer match is selected. With no matches the key is ignored.
pub fn history_next(history: &Trie, st: &mut CompletionState, query: &mut Query, cursor: &mut usize)
    requires
        history.wf(),
        old(st).wf(),
        old(query).wf(),
        *old(cursor) <= old(query).real_query@.len(),
    ensures
        final(st).wf(),
        final(query).wf(),
        *final(cursor) <= final(query).real_query@.len(),
        history_next_rel(
            *history,
            *old(st),
            *old(query),
            *old(cursor),
            *final(st),
            *final(query),
            *final(cursor),
        ),
{
    if st.commands.len() == 0 {
        return ;
    }
    if st.command_offset >= 1 {
        st.command_offset = st.command_offset - 1;
    }
    if st.command_offset == 0 {
        query.clear();
        *cursor = 0;
        st.commands = history.search_all("");
        proof {
            reveal_strlit("");
            assert(""@ =~= Seq::<char>::empty());
        }
        return ;
    }
    let selected = st.commands[st.commands.len() - st.command_offset].clone();
    let len = selected.as_str().unicode_len();
    if len > 0 {
        *cursor = len;
        query.set_query(selected);
    }
}

/// How one completion press relates the state before it to the state after
/// it.
pub open spec fn complete_symbol_rel(
    symbols: Trie,
    st0: CompletionState,
    q0: Query,
    c0: usize,
    st1: CompletionState,
    q1: Query,
    c1: usize,
) -> bool {
    let text = q0.real_query@;
    let cur = c0 as int;
    let w = current_word(text, cur);
    let start = cur - w.len();
    let none_match = forall|v: Seq<char>| !(#[trigger] symbols.contains_word(v) && w.is_prefix_of(v));
    &&& st1.commands == st0.commands
    &&& st1.command_offset == st0.command_offset
    &&& (none_match ==> {
        &&& q1 == q0
        &&& c1 == c0
        &&& st1.symbol_matches == st0.symbol_matches
        &&& st1.match_index == st0.match_index
        &&& st1.last_matched_word@ == w
    })
    &&& (!none_match ==> {
        let repeat = w == st0.last_matched_word@ && st0.symbol_matches@.len() > 0;
        let idx = if repeat {
            ((st0.match_index + 1) % st0.symbol_matches@.len() as int) as int
        } else {
            0int
        };
        let chosen = st1.symbol_matches@[idx]@;
        &&& (repeat ==> st1.symbol_matches == st0.symbol_matches)
        &&& (!repeat ==> is_recall_list(symbols, w, st1.symbol_matches@))
        &&& st1.match_index == idx
        &&& st1.last_matched_word@ == chosen
        &&& q1.real_query@ == text.take(start) + chosen + text.skip(cur)
        &&& q1.visible_query@ == q1.real_query@
        &&& c1 == start + chosen.len()
    })
}

/// Symbol tab-completion: the token under the cursor is matched against the
/// symbol trie. The first press on a token inserts the oldest match;
/// repeating the press — recognised because the token under the cursor is
/// then the match just inserted — cycles through the matches in order. A
/// token without matches is only recorded, so the press is a no-op.
pub fn complete_symbol(
    symbols: &Trie,
    st: &mut CompletionState,
    query: &mut Query,
    cursor: &mut usize,
)
    requires
        symbols.wf(),
        old(st).wf(),
        old(query).wf(),
        *old(cursor) <= old(query).real_query@.len(),
    ensures
        final(st).wf(),
        final(query).wf(),
        *final(cursor) <= final(query).real_query@.len(),
        complete_symbol_rel(
            *symbols,
            *old(st),
            *old(query),
            *old(cursor),
            *final(st),
            *final(query),
            *final(cursor),
        ),
{
    let ghost text = query.real_query@;
    let ghost cur = *cursor as int;
    // extract the token under the cursor
    let mut start: usize = *cursor;
    while start > 0 && query.real_query[start - 1] != ' '
        invariant
            query.wf(),
            *cursor <= query.real_query@.len(),
            text == query.real_query@,
            cur == *cursor as int,
            0 <= start <= *cursor,
            forall|x: int| start <= x < cur ==> text[x] != ' ',
        decreases start,
    {
        start = start - 1;
    }
    proof {
        lemma_current_word(text, start as int, cur);
    }
    let mut word_chars: Vec<char> = Vec::new();
    let mut x: usize = start;
    while x < *cursor
        invariant
            query.wf(),
            *cursor <= query.real_query@.len(),
            text == query.real_query@,
            cur == *cursor as int,
            start <= x <= *cursor,
            word_chars@ == text.subrange(start as int, x as int),
        decreases *cursor - x,
    {
        word_chars.push(query.real_query[x]);
        proof {
            assert(text.subrange(start as int, x + 1 as int) =~= text.subrange(
                start as int,
                x as int,
            ).push(text[x as int]));
        }
        x = x + 1;
    }
    let word = chars_to_string(&word_chars);
    let matches = symbols.search_all(word.as_str());
    if matches.len() == 0 {
        proof {
            assert forall|v: Seq<char>|
                !(#[trigger] symbols.contains_word(v) && word@.is_prefix_of(v)) by {
                if symbols.contains_word(v) && word@.is_prefix_of(v) {
                    assert(crate::trie::result_has(matches@, v));
                }
            }
        }
        st.last_matched_word = word;
        return ;
    }
    proof {
        assert(symbols.contains_word(matches@[0]@) && word@.is_prefix_of(matches@[0]@));
    }
    if word == st.last_matched_word && st.symbol_matches.len() > 0 {
        st.match_index = (st.match_index + 1) % st.symbol_matches.len();
    } else {
        st.symbol_matches = matches;
        st.match_index = 0;
    }
    let chosen = st.symbol_matches[st.match_index].clone();
    // splice the replacement over the token
    let mut new_text: Vec<char> = Vec::new();
    let mut i: usize = 0;
    while i < start
        invariant
            query.wf(),
            start <= *cursor <= query.real_query@.len(),
            text == query.real_query@,
            i <= start,
            new_text@ == text.take(i as int),
        decreases start - i,
    {
        new_text.push(query.real_query[i]);
        proof {
            assert(text.take(i + 1 as int) =~= text.take(i as int).push(text[i as int]));
        }
        i = i + 1;
    }
    let chosen_chars = str_to_chars(chosen.as_str());
    let mut k: usize = 0;
    while k < chosen_chars.len()
        invariant
            k <= chosen_chars@.len(),
            chosen_chars@ == chosen@,
            new_text@ == text.take(start as int) + chosen@.take(k as int),
        decreases chosen_chars@.len() - k,
    {
        new_text.push(chosen_chars[k]);
        proof {
            assert(chosen@.take(k + 1 as int) =~= chosen@.take(k as int).push(chosen@[k as int]));
            assert((text.take(start as int) + chosen@.take(k as int)).push(chosen@[k as int])
                =~= text.take(start as int) + chosen@.take(k + 1 as int));
        }
        k = k + 1;
    }
    let new_cursor = new_text.len();
    let mut t: usize = *cursor;
    proof {
        assert(chosen@.take(chosen@.len() as int) =~= chosen@);
        assert(new_text@ == text.take(start as int) + chosen@);
        assert(text.skip(cur).len() == text.len() - cur);
    }
    while t < query.real_query.len()
        invariant
            query.wf(),
            0 <= cur <= query.real_query@.len(),
            text == query.real_query@,
            cur <= t <= text.len(),
            new_text@ == text.take(start as int) + chosen@ + text.subrange(cur, t as int),
        decreases query.real_query@.len() - t,
    {
        new_text.push(query.real_query[t]);
        proof {
            assert(text.subrange(cur, t + 1 as int) =~= text.subrange(cur, t as int).push(
                text[t as int],
            ));
            assert((text.take(start as int) + chosen@ + text.subrange(cur, t as int)).push(
                text[t as int],
            ) =~= text.take(start as int) + chosen@ + text.subrange(cur, t + 1 as int));
        }
        t = t + 1;
    }
    proof {
        assert(text.subrange(cur, text.len() as int) =~= text.skip(cur));
        assert(new_text@ == text.take(start as int) + chosen@ + text.skip(cur));
        assert(text.take(start as int) + chosen@ + text.skip(cur) =~= text.take(start as int) + (
        chosen@ + text.skip(cur)));
    }
    let replacement = chars_to_string(&new_text);
    query.set_query(replacement);
    *cursor = new_cursor;
    st.last_matched_word = chosen;
}

} // verus!
