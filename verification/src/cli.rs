use vstd::prelude::*;

use crate::scan::{chars_of, string_from_chars};

verus! {

/// What the command line asks the interpreter to do.
#[derive(Debug, Clone)]
pub enum Action {
    /// Launch the interactive prompt.
    Repl,
    /// Execute a script file.
    RunFile(String),
    /// Execute code given on the command line.
    RunCommand(String),
    /// Execute code read from standard input.
    RunStdin,
    /// Print the help text.
    Help,
    /// Print the version.
    Version,
    /// An option that takes code was given last, without it.
    MissingArgument(String),
    /// An option that is not known.
    UnknownOption(String),
}

/// The plain-value model of an [`Action`].
pub enum ActionView {
    Repl,
    RunFile(Seq<char>),
    RunCommand(Seq<char>),
    RunStdin,
    Help,
    Version,
    MissingArgument(Seq<char>),
    UnknownOption(Seq<char>),
}

impl View for Action {
    type V = ActionView;

    open spec fn view(&self) -> ActionView {
        match self {
            Action::Repl => ActionView::Repl,
            Action::RunFile(s) => ActionView::RunFile(s@),
            Action::RunCommand(s) => ActionView::RunCommand(s@),
            Action::RunStdin => ActionView::RunStdin,
            Action::Help => ActionView::Help,
            Action::Version => ActionView::Version,
            Action::MissingArgument(s) => ActionView::MissingArgument(s@),
            Action::UnknownOption(s) => ActionView::UnknownOption(s@),
        }
    }
}

pub open spec fn has_prefix(s: Seq<char>, p: Seq<char>) -> bool {
    p.len() <= s.len() && s.subrange(0, p.len() as int) == p
}

pub open spec fn drop_prefix(s: Seq<char>, n: int) -> Seq<char> {
    s.subrange(n, s.len() as int)
}

pub open spec fn dash_c() -> Seq<char> {
    seq!['-', 'c']
}

pub open spec fn dash_e() -> Seq<char> {
    seq!['-', 'e']
}

pub open spec fn command_eq() -> Seq<char> {
    seq!['-', '-', 'c', 'o', 'm', 'm', 'a', 'n', 'd', '=']
}

pub open spec fn eval_eq() -> Seq<char> {
    seq!['-', '-', 'e', 'v', 'a', 'l', '=']
}

pub open spec fn is_help(a: Seq<char>) -> bool {
    a == seq!['-', 'h'] || a == seq!['-', '-', 'h', 'e', 'l', 'p']
}

pub open spec fn is_version(a: Seq<char>) -> bool {
    a == seq!['-', 'v'] || a == seq!['-', '-', 'v', 'e', 'r', 's', 'i', 'o', 'n']
}

/// An option whose code is the next argument.
pub open spec fn is_code_option(a: Seq<char>) -> bool {
    a == dash_c() || a == seq!['-', '-', 'c', 'o', 'm', 'm', 'a', 'n', 'd'] || a == dash_e()
        || a == seq!['-', '-', 'e', 'v', 'a', 'l']
}

/// The action the arguments from index `i` on ask for, given the code of
/// the last code option seen before `i`.
pub open spec fn action_from(args: Seq<Seq<char>>, i: int, code: Option<Seq<char>>) -> ActionView
    decreases args.len() - i,
{
    if i < 0 || i >= args.len() {
        match code {
            Some(c) => ActionView::RunCommand(c),
            None => ActionView::Repl,
        }
    } else {
        let a = args[i];
        if (has_prefix(a, dash_c()) || has_prefix(a, dash_e())) && a.len() > 2 {
            action_from(args, i + 1, Some(drop_prefix(a, 2)))
        } else if has_prefix(a, command_eq()) {
            action_from(args, i + 1, Some(drop_prefix(a, 10)))
        } else if has_prefix(a, eval_eq()) {
            action_from(args, i + 1, Some(drop_prefix(a, 7)))
        } else if is_help(a) {
            ActionView::Help
        } else if is_version(a) {
            ActionView::Version
        } else if is_code_option(a) {
            if i + 1 < args.len() {
                action_from(args, i + 2, Some(args[i + 1]))
            } else {
                ActionView::MissingArgument(a)
            }
        } else if a == seq!['-'] {
            ActionView::RunStdin
        } else if has_prefix(a, seq!['-']) {
            ActionView::UnknownOption(a)
        } else {
            ActionView::RunFile(a)
        }
    }
}

/// The characters of each argument.
pub open spec fn args_view(args: Seq<String>) -> Seq<Seq<char>> {
    args.map_values(|s: String| s@)
}

fn starts_with(s: &Vec<char>, p: &[char]) -> (b: bool)
    ensures
        b == has_prefix(s@, p@),
{
    if p.len() > s.len() {
        return false;
    }
    let mut i: usize = 0;
    while i < p.len()
        invariant
            p@.len() <= s@.len(),
            i <= p@.len(),
            forall|k: int| 0 <= k < i ==> s@[k] == p@[k],
        decreases p@.len() - i,
    {
        if s[i] != p[i] {
            proof {
                assert(s@.subrange(0, p@.len() as int)[i as int] != p@[i as int]);
            }
            return false;
        }
        i = i + 1;
    }
    proof {
        assert(s@.subrange(0, p@.len() as int) =~= p@);
    }
    true
}

fn equals(s: &Vec<char>, p: &[char]) -> (b: bool)
    ensures
        b == (s@ == p@),
{
    if s.len() != p.len() {
        return false;
    }
    let r = starts_with(s, p);
    proof {
        if r {
            assert(s@ =~= s@.subrange(0, p@.len() as int));
        } else {
            if s@ == p@ {
                assert(s@.subrange(0, p@.len() as int) =~= s@);
            }
        }
    }
    r
}

fn suffix_from(s: &Vec<char>, n: usize) -> (r: String)
    requires
        n <= s@.len(),
    ensures
        r@ == drop_prefix(s@, n as int),
{
    let mut out: Vec<char> = Vec::new();
    let mut i: usize = n;
    while i < s.len()
        invariant
            n <= i <= s@.len(),
            out@ == s@.subrange(n as int, i as int),
        decreases s@.len() - i,
    {
        out.push(s[i]);
        i = i + 1;
        proof {
            assert(out@ =~= s@.subrange(n as int, i as int));
        }
    }
    string_from_chars(out)
}

/// Read the command line (without the program name): which action it
/// asks for.  Options that take code may appear several times; the last
/// one wins.  The first argument that is not an option names the script.
pub fn parse_args(args: &Vec<String>) -> (a: Action)
    ensures
        a@ == action_from(args_view(args@), 0, None),
{
    let ghost v = args_view(args@);
    let mut code: Option<String> = None;
    let mut i: usize = 0;
    while i < args.len()
        invariant
            v == args_view(args@),
            i <= args@.len(),
            action_from(v, 0, None) == action_from(v, i as int, match code {
                Some(c) => Some(c@),
                None => None,
            }),
        decreases args@.len() - i,
    {
        let arg = &args[i];
        let a = chars_of(arg.as_str());
        proof {
            assert(v[i as int] == a@);
        }
        if (starts_with(&a, &['-', 'c']) || starts_with(&a, &['-', 'e'])) && a.len() > 2 {
            code = Some(suffix_from(&a, 2));
            i = i + 1;
            continue;
        }
        if starts_with(&a, &['-', '-', 'c', 'o', 'm', 'm', 'a', 'n', 'd', '=']) {
            code = Some(suffix_from(&a, 10));
            i = i + 1;
            continue;
        }
        if starts_with(&a, &['-', '-', 'e', 'v', 'a', 'l', '=']) {
            code = Some(suffix_from(&a, 7));
            i = i + 1;
            continue;
        }
        if equals(&a, &['-', 'h']) || equals(&a, &['-', '-', 'h', 'e', 'l', 'p']) {
            return Action::Help;
        }
        if equals(&a, &['-', 'v']) || equals(&a, &['-', '-', 'v', 'e', 'r', 's', 'i', 'o', 'n']) {
            return Action::Version;
        }
        if equals(&a, &['-', 'c']) || equals(&a, &['-', '-', 'c', 'o', 'm', 'm', 'a', 'n', 'd'])
            || equals(&a, &['-', 'e']) || equals(&a, &['-', '-', 'e', 'v', 'a', 'l']) {
            if i + 1 < args.len() {
                let next = args[i + 1].clone();
                proof {
                    assert(v[i + 1] == next@);
                }
                code = Some(next);
                i = i + 2;
                continue;
            } else {
                return Action::MissingArgument(arg.clone());
            }
        }
        proof {
            assert(!is_help(a@));
            assert(!is_version(a@));
            assert(!is_code_option(a@));
        }
        if a.len() == 1 && a[0] == '-' {
            proof {
                assert(a@ =~= seq!['-']);
            }
            return Action::RunStdin;
        }
        proof {
            if a@.len() == 1 {
                assert(seq!['-'][0] == '-');
            }
        }
        if a.len() >= 1 && a[0] == '-' {
            proof {
                assert(a@.subrange(0, 1) =~= seq!['-']);
            }
            return Action::UnknownOption(arg.clone());
        }
        proof {
            if a@.len() >= 1 {
                assert(a@.subrange(0, 1)[0] == a@[0]);
            }
        }
        return Action::RunFile(arg.clone());
    }
    match code {
        Some(c) => Action::RunCommand(c),
        None => Action::Repl,
    }
}

} // verus!
