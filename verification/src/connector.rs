//! The shapes a dispatched statement's outcome takes, and the decisions the
//! surrounding program makes about a statement's text: which execution path
//! a statement takes, how a fetched cell is displayed, and which submitted
//! commands the shell itself handles.

use vstd::prelude::*;

use crate::text::{chars_to_string, str_to_chars};

verus! {

/// A result set: column headers, and one row of cells per fetched row, each
/// row in header order.
pub struct MySqlOutputTable {
    pub headers: Vec<String>,
    pub values: Vec<Vec<String>>,
}

impl MySqlOutputTable {
    /// Every row has one cell per header.
    pub open spec fn wf(self) -> bool {
        forall|r: int|
            0 <= r < self.values@.len() ==> (#[trigger] self.values@[r])@.len()
                == self.headers@.len()
    }

    /// An empty result set.
    pub fn new() -> (t: MySqlOutputTable)
        ensures
            t.wf(),
            t.headers@.len() == 0,
            t.values@.len() == 0,
    {
        MySqlOutputTable { headers: Vec::new(), values: Vec::new() }
    }
}

/// The outcome of a mutating statement.
pub struct MySqlRowsAffected {
    pub affected_rows: u64,
}

/// What a dispatched statement produced: a result set, or a row count.
pub enum MySqlResult {
    Table(MySqlOutputTable),
    RowsAffected(MySqlRowsAffected),
}

/// Whitespace, as it separates the leading keyword of a statement.
pub open spec fn is_space_char(c: char) -> bool {
    c == ' ' || c == '\t' || c == '\n' || c == '\r'
}

/// The text with its leading whitespace removed.
pub open spec fn skip_spaces(s: Seq<char>) -> Seq<char>
    decreases s.len(),
{
    if s.len() == 0 {
        s
    } else if is_space_char(s[0]) {
        skip_spaces(s.drop_first())
    } else {
        s
    }
}

/// The leading run of non-whitespace characters.
pub open spec fn take_word(s: Seq<char>) -> Seq<char>
    decreases s.len(),
{
    if s.len() == 0 || is_space_char(s[0]) {
        Seq::<char>::empty()
    } else {
        seq![s[0]] + take_word(s.drop_first())
    }
}

/// The first whitespace-delimited word of the text.
pub open spec fn first_word(s: Seq<char>) -> Seq<char> {
    take_word(skip_spaces(s))
}

/// The ASCII upper-case counterpart of a character; anything but a lower
/// case ASCII letter is left alone.
pub open spec fn ascii_upper(c: char) -> char {
    if c == 'a' {
        'A'
    } else if c == 'b' {
        'B'
    } else if c == 'c' {
        'C'
    } else if c == 'd' {
        'D'
    } else if c == 'e' {
        'E'
    } else if c == 'f' {
        'F'
    } else if c == 'g' {
        'G'
    } else if c == 'h' {
        'H'
    } else if c == 'i' {
        'I'
    } else if c == 'j' {
        'J'
    } else if c == 'k' {
        'K'
    } else if c == 'l' {
        'L'
    } else if c == 'm' {
        'M'
    } else if c == 'n' {
        'N'
    } else if c == 'o' {
        'O'
    } else if c == 'p' {
        'P'
    } else if c == 'q' {
        'Q'
    } else if c == 'r' {
        'R'
    } else if c == 's' {
        'S'
    } else if c == 't' {
        'T'
    } else if c == 'u' {
        'U'
    } else if c == 'v' {
        'V'
    } else if c == 'w' {
        'W'
    } else if c == 'x' {
        'X'
    } else if c == 'y' {
        'Y'
    } else if c == 'z' {
        'Z'
    } else {
        c
    }
}

/// The text with each character ASCII-upper-cased.
pub open spec fn upper_word(s: Seq<char>) -> Seq<char> {
    s.map_values(|c: char| ascii_upper(c))
}

/// Whether a statement takes the execute path — its leading keyword, upper
/// cased, is one of the mutating verbs — rather than the fetch path.
pub open spec fn is_mutation(s: Seq<char>) -> bool {
    let w = upper_word(first_word(s));
    w == "INSERT"@ || w == "UPDATE"@ || w == "DELETE"@ || w == "REPLACE"@
}

/// The leading word is the text up to the first whitespace character.
pub(crate) proof fn lemma_take_word(s: Seq<char>, j: int)
    requires
        0 <= j <= s.len(),
        forall|x: int| 0 <= x < j ==> !is_space_char(#[trigger] s[x]),
        j == s.len() || is_space_char(s[j]),
    ensures
        take_word(s) == s.take(j),
    decreases j,
{
    if j == 0 {
        assert(take_word(s) =~= s.take(0));
    } else {
        assert(!is_space_char(s[0]));
        lemma_take_word(s.drop_first(), j - 1);
        assert(s.drop_first().take(j - 1) =~= s.take(j).drop_first());
        assert(take_word(s) =~= s.take(j)) by {
            assert(seq![s[0]] + take_word(s.drop_first()) =~= s.take(j));
        }
    }
}

/// Decides which execution path a statement takes: `true` exactly for the
/// mutating verbs, whatever their case and leading whitespace.
pub fn is_mutation_statement(query: &str) -> (b: bool)
    ensures
        b == is_mutation(query@),
{
    let ghost sv = query@;
    let chars = str_to_chars(query);
    let n = chars.len();
    proof {
        assert(sv.skip(0) =~= sv);
    }
    let mut i: usize = 0;
    while i < n && (chars[i] == ' ' || chars[i] == '\t' || chars[i] == '\n' || chars[i] == '\r')
        invariant
            n == sv.len(),
            chars@ == sv,
            i <= n,
            skip_spaces(sv) == skip_spaces(sv.skip(i as int)),
        decreases n - i,
    {
        proof {
            assert(sv.skip(i as int)[0] == sv[i as int]);
            assert(sv.skip(i as int).drop_first() =~= sv.skip(i + 1 as int));
        }
        i = i + 1;
    }
    proof {
        if i < n {
            assert(!is_space_char(sv.skip(i as int)[0]));
        }
        assert(skip_spaces(sv) == sv.skip(i as int));
    }
    let mut j: usize = i;
    let mut word: Vec<char> = Vec::new();
    while j < n && chars[j] != ' ' && chars[j] != '\t' && chars[j] != '\n' && chars[j] != '\r'
        invariant
            n == sv.len(),
            chars@ == sv,
            i <= j <= n,
            forall|x: int| i <= x < j ==> !is_space_char(#[trigger] sv[x]),
            word@ == upper_word(sv.subrange(i as int, j as int)),
        decreases n - j,
    {
        let c = chars[j];
        let u: char = if c == 'a' {
            'A'
        } else if c == 'b' {
            'B'
        } else if c == 'c' {
            'C'
        } else if c == 'd' {
            'D'
        } else if c == 'e' {
            'E'
        } else if c == 'f' {
            'F'
        } else if c == 'g' {
            'G'
        } else if c == 'h' {
            'H'
        } else if c == 'i' {
            'I'
        } else if c == 'j' {
            'J'
        } else if c == 'k' {
            'K'
        } else if c == 'l' {
            'L'
        } else if c == 'm' {
            'M'
        } else if c == 'n' {
            'N'
        } else if c == 'o' {
            'O'
        } else if c == 'p' {
            'P'
        } else if c == 'q' {
            'Q'
        } else if c == 'r' {
            'R'
        } else if c == 's' {
            'S'
        } else if c == 't' {
            'T'
        } else if c == 'u' {
            'U'
        } else if c == 'v' {
            'V'
        } else if c == 'w' {
            'W'
        } else if c == 'x' {
            'X'
        } else if c == 'y' {
            'Y'
        } else if c == 'z' {
            'Z'
        } else {
            c
        };
        word.push(u);
        proof {
            assert(u == ascii_upper(sv[j as int]));
            assert(upper_word(sv.subrange(i as int, j + 1 as int)) =~= upper_word(
                sv.subrange(i as int, j as int),
            ).push(ascii_upper(sv[j as int]))) by {
                assert(sv.subrange(i as int, j + 1 as int) =~= sv.subrange(i as int, j as int).push(
                    sv[j as int],
                ));
            }
        }
        j = j + 1;
    }
    proof {
        lemma_take_word(sv.skip(i as int), j - i);
        assert(sv.skip(i as int).take(j - i) =~= sv.subrange(i as int, j as int));
        assert(word@ == upper_word(first_word(sv)));
    }
    let word_s = chars_to_string(&word);
    proof {
        reveal_strlit("INSERT");
        reveal_strlit("UPDATE");
        reveal_strlit("DELETE");
        reveal_strlit("REPLACE");
    }
    let b1 = word_s == String::from_str("INSERT");
    let b2 = word_s == String::from_str("UPDATE");
    let b3 = word_s == String::from_str("DELETE");
    let b4 = word_s == String::from_str("REPLACE");
    b1 || b2 || b3 || b4
}

/// A submitted command the shell itself answers, before anything reaches
/// the database.
#[derive(PartialEq, Eq, Structural)]
pub enum ShellCommand {
    /// Leave the shell.
    Exit,
    /// Clear the screen.
    Clear,
    /// Anything else: dispatch as a statement.
    Statement,
}

/// Recognises the literal control commands out of a submitted text: the two
/// exit forms, the screen clear, and everything else a statement.
pub fn classify_command(text: &str) -> (r: ShellCommand)
    ensures
        r == ShellCommand::Exit <==> (text@ == "exit;"@ || text@ == "quit;"@),
        r == ShellCommand::Clear <==> text@ == "clear;"@,
        r == ShellCommand::Statement <==> !(text@ == "exit;"@ || text@ == "quit;"@ || text@
            == "clear;"@),
{
    proof {
        reveal_strlit("exit;");
        reveal_strlit("quit;");
        reveal_strlit("clear;");
        assert("exit;"@.len() == 5);
        assert("quit;"@.len() == 5);
        assert("clear;"@.len() == 6);
        assert("exit;"@ != "clear;"@ && "quit;"@ != "clear;"@);
    }
    let owned = text.to_owned();
    if owned == String::from_str("exit;") || owned == String::from_str("quit;") {
        ShellCommand::Exit
    } else if owned == String::from_str("clear;") {
        ShellCommand::Clear
    } else {
        ShellCommand::Statement
    }
}

/// The display text of one fetched cell: the value's text, or `NULL` when
/// the column held no value.
pub fn cell_display(value: Option<String>) -> (r: String)
    ensures
        r@ == (match value {
            Some(v) => v@,
            None => "NULL"@,
        }),
{
    match value {
        Some(v) => v,
        None => {
            proof {
                reveal_strlit("NULL");
            }
            String::from_str("NULL")
        },
    }
}

} // verus!
