use vstd::prelude::*;

use crate::scan::{chars_of, string_from_chars};

verus! {

/// What the incomplete-input heuristic tracks while reading a text.
pub struct OpenState {
    pub parens: nat,
    pub braces: nat,
    pub brackets: nat,
    pub in_string: bool,
    pub in_comment: bool,
    /// Inside a string, right after a backslash that starts an escape.
    pub escaped: bool,
}

pub open spec fn open_state_initial() -> OpenState {
    OpenState { parens: 0, braces: 0, brackets: 0, in_string: false, in_comment: false, escaped: false }
}

pub open spec fn dec(n: nat) -> nat {
    if n == 0 { 0 } else { (n - 1) as nat }
}

/// Read the character at `i`: the index after it (two characters for `//`)
/// and the new state.
pub open spec fn open_step(s: Seq<char>, i: int, st: OpenState) -> (int, OpenState) {
    let c = s[i];
    if st.in_comment {
        (i + 1, if c == '\n' { OpenState { in_comment: false, ..st } } else { st })
    } else if st.in_string {
        if st.escaped {
            (i + 1, OpenState { escaped: false, ..st })
        } else if c == '\\' {
            (i + 1, OpenState { escaped: true, ..st })
        } else {
            (i + 1, OpenState { in_string: c != '"', ..st })
        }
    } else if c == '"' {
        (i + 1, OpenState { in_string: true, escaped: false, ..st })
    } else if c == '/' && i + 1 < s.len() && s[i + 1] == '/' {
        (i + 2, OpenState { in_comment: true, ..st })
    } else if c == '(' {
        (i + 1, OpenState { parens: st.parens + 1, ..st })
    } else if c == ')' {
        (i + 1, OpenState { parens: dec(st.parens), ..st })
    } else if c == '{' {
        (i + 1, OpenState { braces: st.braces + 1, ..st })
    } else if c == '}' {
        (i + 1, OpenState { braces: dec(st.braces), ..st })
    } else if c == '[' {
        (i + 1, OpenState { brackets: st.brackets + 1, ..st })
    } else if c == ']' {
        (i + 1, OpenState { brackets: dec(st.brackets), ..st })
    } else {
        (i + 1, st)
    }
}

/// The state after reading `s` from index `i` on.
pub open spec fn open_run(s: Seq<char>, i: int, st: OpenState) -> OpenState
    decreases s.len() - i,
{
    if i < 0 || i >= s.len() {
        st
    } else {
        let (j, st2) = open_step(s, i, st);
        if j <= i {
            st
        } else {
            open_run(s, j, st2)
        }
    }
}

/// A text looks unfinished when it ends inside a string or with an
/// unclosed `(`, `{` or `[` (outside strings and `//` comments).
pub open spec fn looks_incomplete(s: Seq<char>) -> bool {
    let st = open_run(s, 0, open_state_initial());
    st.in_string || st.parens > 0 || st.braces > 0 || st.brackets > 0
}

/// Heuristic that decides whether `source` looks like the user has not
/// finished typing yet: used by the REPL to read another line instead of
/// compiling.  It tracks double-quoted strings (a backslash escapes the
/// character after it, so an escaped backslash ends the escape),
/// `//` line comments and the pairs `()`, `{}`, `[]`.
pub fn is_incomplete(source: &str) -> (b: bool)
    ensures
        b == looks_incomplete(source@),
{
    let chars = chars_of(source);
    let mut parens: usize = 0;
    let mut braces: usize = 0;
    let mut brackets: usize = 0;
    let mut in_string = false;
    let mut in_line_comment = false;
    let mut escaped = false;
    let mut i: usize = 0;
    let ghost s = chars@;
    while i < chars.len()
        invariant
            s == chars@,
            s == source@,
            i <= s.len(),
            parens <= i,
            braces <= i,
            brackets <= i,
            open_run(s, i as int, OpenState {
                parens: parens as nat,
                braces: braces as nat,
                brackets: brackets as nat,
                in_string,
                in_comment: in_line_comment,
                escaped,
            }) == open_run(s, 0, open_state_initial()),
        decreases s.len() - i,
    {
        let c = chars[i];
        if in_line_comment {
            if c == '\n' {
                in_line_comment = false;
            }
            i = i + 1;
        } else if in_string {
            if escaped {
                escaped = false;
            } else if c == '\\' {
                escaped = true;
            } else if c == '"' {
                in_string = false;
            }
            i = i + 1;
        } else {
            if c == '"' {
                in_string = true;
                escaped = false;
                i = i + 1;
            } else if c == '/' && i + 1 < chars.len() && chars[i + 1] == '/' {
                in_line_comment = true;
                i = i + 2;
            } else {
                if c == '(' {
                    parens = parens + 1;
                } else if c == ')' {
                    parens = if parens > 0 { parens - 1 } else { 0 };
                } else if c == '{' {
                    braces = braces + 1;
                } else if c == '}' {
                    braces = if braces > 0 { braces - 1 } else { 0 };
                } else if c == '[' {
                    brackets = brackets + 1;
                } else if c == ']' {
                    brackets = if brackets > 0 { brackets - 1 } else { 0 };
                }
                i = i + 1;
            }
        }
    }
    in_string || parens > 0 || braces > 0 || brackets > 0
}

/// Unicode white space (the `White_Space` property).
pub open spec fn is_white_space(c: char) -> bool {
    ||| '\t' <= c <= '\r'
    ||| c == ' '
    ||| c == '\u{85}'
    ||| c == '\u{a0}'
    ||| c == '\u{1680}'
    ||| '\u{2000}' <= c <= '\u{200a}'
    ||| c == '\u{2028}'
    ||| c == '\u{2029}'
    ||| c == '\u{202f}'
    ||| c == '\u{205f}'
    ||| c == '\u{3000}'
}

pub(crate) fn white_space(c: char) -> (b: bool)
    ensures
        b == is_white_space(c),
{
    ('\t' <= c && c <= '\r') || c == ' ' || c == '\u{85}' || c == '\u{a0}' || c == '\u{1680}'
        || ('\u{2000}' <= c && c <= '\u{200a}') || c == '\u{2028}' || c == '\u{2029}' || c == '\u{202f}'
        || c == '\u{205f}' || c == '\u{3000}'
}

/// Index just past the last character of `s[..n]` that is not white space.
pub open spec fn trimmed_len(s: Seq<char>, n: int) -> int
    decreases n,
{
    if n <= 0 {
        0
    } else if is_white_space(s[n - 1]) {
        trimmed_len(s, n - 1)
    } else {
        n
    }
}

/// `s` without its trailing white space.
pub open spec fn trim_end_spec(s: Seq<char>) -> Seq<char> {
    s.subrange(0, trimmed_len(s, s.len() as int))
}

proof fn lemma_trimmed_len(s: Seq<char>, n: int)
    requires
        0 <= n <= s.len(),
    ensures
        0 <= trimmed_len(s, n) <= n,
    decreases n,
{
    if n > 0 && is_white_space(s[n - 1]) {
        lemma_trimmed_len(s, n - 1);
    }
}

/// `s` without its trailing white space.
pub fn trim_end(s: &Vec<char>) -> (r: Vec<char>)
    ensures
        r@ == trim_end_spec(s@),
{
    let mut n = s.len();
    proof {
        lemma_trimmed_len(s@, n as int);
    }
    while n > 0 && white_space(s[n - 1])
        invariant
            n <= s@.len(),
            trimmed_len(s@, n as int) == trimmed_len(s@, s@.len() as int),
        decreases n,
    {
        n = n - 1;
    }
    let mut out: Vec<char> = Vec::new();
    let mut i: usize = 0;
    while i < n
        invariant
            i <= n <= s@.len(),
            out@ == s@.subrange(0, i as int),
        decreases n - i,
    {
        out.push(s[i]);
        i = i + 1;
        proof {
            assert(out@ =~= s@.subrange(0, i as int));
        }
    }
    out
}

/// A complete input the prompt hands on: the text to run and the entry to
/// add to the history, if the text is not blank.
pub struct Submission {
    pub source: String,
    pub history_entry: Option<String>,
}

/// The input the interactive prompt has collected so far: lines are
/// gathered until the text no longer looks incomplete.
pub struct ReplBuffer {
    buffer: Vec<char>,
}

impl ReplBuffer {
    /// The text collected so far.
    pub closed spec fn text(&self) -> Seq<char> {
        self.buffer@
    }

    pub fn new() -> (r: Self)
        ensures
            r.text() == Seq::<char>::empty(),
    {
        ReplBuffer { buffer: Vec::new() }
    }

    /// Is nothing collected?
    pub fn is_empty(&self) -> (b: bool)
        ensures
            b == (self.text().len() == 0),
    {
        self.buffer.len() == 0
    }

    /// The prompt to show: a fresh one, or a continuation one while an
    /// input is being collected.
    pub fn prompt(&self) -> (p: &'static str)
        ensures
            p@ == (if self.text().len() == 0 { ">> "@ } else { ".. "@ }),
    {
        if self.buffer.len() == 0 {
            ">> "
        } else {
            ".. "
        }
    }

    /// Add a line read from the user.  Once the collected text no longer
    /// looks incomplete it is handed on, with its history entry (the text
    /// without trailing white space, unless that is empty), and the buffer
    /// starts over.
    pub fn push_line(&mut self, line: &str) -> (r: Option<Submission>)
        ensures
            ({
                let t = old(self).text() + line@ + seq!['\n'];
                if looks_incomplete(t) {
                    r is None && final(self).text() == t
                } else {
                    &&& r is Some
                    &&& r.unwrap().source@ == t
                    &&& (r.unwrap().history_entry matches Some(h) ==> h@ == trim_end_spec(t) && h@.len() > 0)
                    &&& (r.unwrap().history_entry is None ==> trim_end_spec(t).len() == 0)
                    &&& final(self).text() == Seq::<char>::empty()
                }
            }),
    {
        let cs = chars_of(line);
        let ghost start = self.buffer@;
        let mut i: usize = 0;
        while i < cs.len()
            invariant
                i <= cs@.len(),
                cs@ == line@,
                self.buffer@ == start + cs@.subrange(0, i as int),
            decreases cs@.len() - i,
        {
            self.buffer.push(cs[i]);
            i = i + 1;
            proof {
                assert(self.buffer@ =~= start + cs@.subrange(0, i as int));
            }
        }
        self.buffer.push('\n');
        proof {
            assert(cs@.subrange(0, cs@.len() as int) =~= cs@);
            assert(self.buffer@ =~= start + line@ + seq!['\n']);
        }
        let text = string_from_chars(self.buffer.clone());
        if is_incomplete(text.as_str()) {
            return None;
        }
        let trimmed = trim_end(&self.buffer);
        let history_entry = if trimmed.len() > 0 { Some(string_from_chars(trimmed)) } else { None };
        self.buffer = Vec::new();
        Some(Submission { source: text, history_entry })
    }

    /// Drop what was collected (the user interrupted the input).
    pub fn interrupt(&mut self)
        ensures
            final(self).text() == Seq::<char>::empty(),
    {
        self.buffer = Vec::new();
    }
}

} // verus!
