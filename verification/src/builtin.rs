use vstd::prelude::*;

use crate::heap::{int_of, ObjectHeap};
use crate::object::{Object, ObjectHandle};
use crate::runtime::{RuntimeErrorKind, is_type_mismatch, type_name_of};
use crate::scan::{chars_of, string_from_chars};

verus! {

// ========================================================================== //
//                    Decimal text
// ========================================================================== //

/// The decimal digits of `n`, most significant first.
pub open spec fn decimal_chars(n: nat) -> Seq<char>
    decreases n,
{
    if n < 10 {
        seq![digit_char((n % 10) as nat)]
    } else {
        decimal_chars(n / 10) + seq![digit_char((n % 10) as nat)]
    }
}

pub open spec fn digit_char(d: nat) -> char {
    if d == 0 {
        '0'
    } else if d == 1 {
        '1'
    } else if d == 2 {
        '2'
    } else if d == 3 {
        '3'
    } else if d == 4 {
        '4'
    } else if d == 5 {
        '5'
    } else if d == 6 {
        '6'
    } else if d == 7 {
        '7'
    } else if d == 8 {
        '8'
    } else {
        '9'
    }
}

fn digit(d: usize) -> (c: char)
    requires
        d < 10,
    ensures
        c == digit_char(d as nat),
{
    if d == 0 {
        '0'
    } else if d == 1 {
        '1'
    } else if d == 2 {
        '2'
    } else if d == 3 {
        '3'
    } else if d == 4 {
        '4'
    } else if d == 5 {
        '5'
    } else if d == 6 {
        '6'
    } else if d == 7 {
        '7'
    } else if d == 8 {
        '8'
    } else {
        '9'
    }
}

fn decimal_vec(n: usize) -> (v: Vec<char>)
    ensures
        v@ == decimal_chars(n as nat),
    decreases n,
{
    if n < 10 {
        vec![digit(n)]
    } else {
        let mut v = decimal_vec(n / 10);
        v.push(digit(n % 10));
        v
    }
}

/// The decimal digits of a 64-bit number.
pub(crate) fn decimal_vec_u64(n: u64) -> (v: Vec<char>)
    ensures
        v@ == decimal_chars(n as nat),
    decreases n,
{
    if n < 10 {
        vec![digit(n as usize)]
    } else {
        let mut v = decimal_vec_u64(n / 10);
        v.push(digit((n % 10) as usize));
        v
    }
}

/// `n` written in decimal.
pub fn decimal_text(n: usize) -> (s: String)
    ensures
        s@ == decimal_chars(n as nat),
{
    string_from_chars(decimal_vec(n))
}

// ========================================================================== //
//                    format
// ========================================================================== //

/// Why a format string could not be filled in.
#[derive(Debug, Clone, Copy, PartialEq, Eq, Structural)]
pub enum FormatError {
    /// No format string was given.
    MissingFormatString,
    /// A placeholder had no value left; the placeholders counted so far
    /// and the number of values.
    NotEnoughArguments { placeholders: usize, given: usize },
    /// A `{` that starts neither `{{` nor `{}`.
    UnclosedBrace,
    /// A `}` that does not start `}}`.
    StrayBrace,
    /// Values were left over; the placeholders and the values.
    TooManyArguments { placeholders: usize, given: usize },
}

/// Put `prefix` before the text of a successful result.
pub open spec fn prepend(prefix: Seq<char>, r: Result<Seq<char>, FormatError>) -> Result<Seq<char>, FormatError> {
    match r {
        Ok(t) => Ok(prefix + t),
        Err(e) => Err(e),
    }
}

/// Fill in the format string `f` from index `i`, with the values from
/// index `k` on, `p` placeholders having been seen.
pub open spec fn format_from(f: Seq<char>, vals: Seq<Seq<char>>, i: int, k: nat, p: nat) -> Result<Seq<char>, FormatError>
    decreases f.len() - i,
{
    if i < 0 || i >= f.len() {
        if k < vals.len() {
            Err(FormatError::TooManyArguments { placeholders: p as usize, given: vals.len() as usize })
        } else {
            Ok(Seq::empty())
        }
    } else if f[i] == '{' {
        if i + 1 < f.len() && f[i + 1] == '{' {
            prepend(seq!['{'], format_from(f, vals, i + 2, k, p))
        } else if i + 1 < f.len() && f[i + 1] == '}' {
            if k >= vals.len() {
                Err(FormatError::NotEnoughArguments { placeholders: (p + 1) as usize, given: vals.len() as usize })
            } else {
                prepend(vals[k as int], format_from(f, vals, i + 2, k + 1, p + 1))
            }
        } else {
            Err(FormatError::UnclosedBrace)
        }
    } else if f[i] == '}' {
        if i + 1 < f.len() && f[i + 1] == '}' {
            prepend(seq!['}'], format_from(f, vals, i + 2, k, p))
        } else {
            Err(FormatError::StrayBrace)
        }
    } else {
        prepend(seq![f[i]], format_from(f, vals, i + 1, k, p))
    }
}

/// The text `format(args)` produces: the first argument is the format
/// string, the others are the values, already turned into text.
pub open spec fn format_spec(args: Seq<Seq<char>>) -> Result<Seq<char>, FormatError> {
    if args.len() == 0 {
        Err(FormatError::MissingFormatString)
    } else {
        format_from(args[0], args.subrange(1, args.len() as int), 0, 0, 0)
    }
}

/// Are the braces of `f` from index `i` on well formed: each `{` starts
/// `{{` or `{}`, each `}` that does not close `{}` starts `}}`?
pub open spec fn braces_ok(f: Seq<char>, i: int) -> bool
    decreases f.len() - i,
{
    if i < 0 || i >= f.len() {
        true
    } else if f[i] == '{' {
        if i + 1 < f.len() && (f[i + 1] == '{' || f[i + 1] == '}') {
            braces_ok(f, i + 2)
        } else {
            false
        }
    } else if f[i] == '}' {
        if i + 1 < f.len() && f[i + 1] == '}' {
            braces_ok(f, i + 2)
        } else {
            false
        }
    } else {
        braces_ok(f, i + 1)
    }
}

/// The number of `{}` placeholders of `f` from index `i` on.
pub open spec fn placeholders(f: Seq<char>, i: int) -> nat
    decreases f.len() - i,
{
    if i < 0 || i >= f.len() {
        0
    } else if f[i] == '{' && i + 1 < f.len() && f[i + 1] == '}' {
        1 + placeholders(f, i + 2)
    } else if (f[i] == '{' || f[i] == '}') && i + 1 < f.len() {
        placeholders(f, i + 2)
    } else {
        placeholders(f, i + 1)
    }
}

proof fn lemma_format_from_ok(f: Seq<char>, vals: Seq<Seq<char>>, i: int, k: nat, p: nat)
    requires
        0 <= i,
        k <= vals.len(),
    ensures
        format_from(f, vals, i, k, p) is Ok <==> braces_ok(f, i) && k + placeholders(f, i) == vals.len(),
    decreases f.len() - i,
{
    if i < f.len() {
        if f[i] == '{' {
            if i + 1 < f.len() && f[i + 1] == '{' {
                lemma_format_from_ok(f, vals, i + 2, k, p);
            } else if i + 1 < f.len() && f[i + 1] == '}' {
                if k < vals.len() {
                    lemma_format_from_ok(f, vals, i + 2, k + 1, p + 1);
                }
            }
        } else if f[i] == '}' {
            if i + 1 < f.len() && f[i + 1] == '}' {
                lemma_format_from_ok(f, vals, i + 2, k, p);
            }
        } else {
            lemma_format_from_ok(f, vals, i + 1, k, p);
        }
    }
}

/// `format` succeeds exactly when it is given a format string whose braces
/// are well formed and which has as many placeholders as there are values.
pub proof fn lemma_format_succeeds(args: Seq<Seq<char>>)
    ensures
        format_spec(args) is Ok <==> args.len() >= 1 && braces_ok(args[0], 0)
            && placeholders(args[0], 0) + 1 == args.len(),
{
    if args.len() >= 1 {
        lemma_format_from_ok(args[0], args.subrange(1, args.len() as int), 0, 0, 0);
    }
}

proof fn lemma_prepend_assoc(a: Seq<char>, b: Seq<char>, r: Result<Seq<char>, FormatError>)
    ensures
        prepend(a, prepend(b, r)) == prepend(a + b, r),
{
    match r {
        Ok(t) => {
            assert(a + (b + t) =~= (a + b) + t);
        },
        Err(_) => {},
    }
}

/// Fill in a format string.  `{}` takes the next value, `{{` and `}}`
/// stand for `{` and `}`; any other brace, a missing value or a value left
/// over is an error.  The first argument is the format string, the others
/// are the values' texts.
pub fn format_impl(args: &Vec<String>) -> (r: Result<String, FormatError>)
    requires
        args@.len() < usize::MAX,
    ensures
        match format_spec(args@.map_values(|s: String| s@)) {
            Ok(t) => r matches Ok(s) && s@ == t,
            Err(e) => r == Err::<String, FormatError>(e),
        },
{
    let ghost all = args@.map_values(|s: String| s@);
    if args.len() == 0 {
        return Err(FormatError::MissingFormatString);
    }
    let f = chars_of(args[0].as_str());
    let n_vals = args.len() - 1;
    let ghost vals = all.subrange(1, all.len() as int);
    proof {
        assert(all[0] == f@);
    }
    let mut out: Vec<char> = Vec::new();
    let mut i: usize = 0;
    let mut k: usize = 0;
    let mut p: usize = 0;
    proof {
        assert(prepend(out@, format_from(f@, vals, 0, 0, 0)) == format_from(f@, vals, 0, 0, 0)) by {
            match format_from(f@, vals, 0, 0, 0) {
                Ok(t) => {
                    assert(out@ + t =~= t);
                },
                Err(_) => {},
            }
        }
    }
    while i < f.len()
        invariant
            all == args@.map_values(|s: String| s@),
            vals == all.subrange(1, all.len() as int),
            n_vals == vals.len(),
            n_vals + 1 == args@.len(),
            f@ == all[0],
            i <= f@.len(),
            k <= n_vals,
            p <= i,
            format_spec(all) == prepend(out@, format_from(f@, vals, i as int, k as nat, p as nat)),
        decreases f@.len() - i,
    {
        let c = f[i];
        if c == '{' {
            if i + 1 < f.len() && f[i + 1] == '{' {
                proof {
                    assert(format_from(f@, vals, i as int, k as nat, p as nat)
                        == prepend(seq!['{'], format_from(f@, vals, i + 2, k as nat, p as nat)));
                    lemma_prepend_assoc(out@, seq!['{'], format_from(f@, vals, i + 2, k as nat, p as nat));
                }
                let ghost before = out@;
                out.push('{');
                proof {
                    assert(out@ =~= before + seq!['{']);
                }
                i = i + 2;
            } else if i + 1 < f.len() && f[i + 1] == '}' {
                if k >= n_vals {
                    return Err(FormatError::NotEnoughArguments { placeholders: p + 1, given: n_vals });
                }
                let v = chars_of(args[k + 1].as_str());
                proof {
                    assert(vals[k as int] == v@);
                    assert(format_from(f@, vals, i as int, k as nat, p as nat)
                        == prepend(v@, format_from(f@, vals, i + 2, (k + 1) as nat, (p + 1) as nat)));
                    lemma_prepend_assoc(out@, v@, format_from(f@, vals, i + 2, (k + 1) as nat, (p + 1) as nat));
                }
                let mut j: usize = 0;
                let ghost base = out@;
                while j < v.len()
                    invariant
                        j <= v@.len(),
                        out@ == base + v@.subrange(0, j as int),
                    decreases v@.len() - j,
                {
                    out.push(v[j]);
                    j = j + 1;
                    proof {
                        assert(out@ =~= base + v@.subrange(0, j as int));
                    }
                }
                proof {
                    assert(v@.subrange(0, v@.len() as int) =~= v@);
                    lemma_prepend_assoc(base, v@, format_from(f@, vals, i + 2, (k + 1) as nat, (p + 1) as nat));
                }
                i = i + 2;
                k = k + 1;
                p = p + 1;
            } else {
                return Err(FormatError::UnclosedBrace);
            }
        } else if c == '}' {
            if i + 1 < f.len() && f[i + 1] == '}' {
                proof {
                    assert(format_from(f@, vals, i as int, k as nat, p as nat)
                        == prepend(seq!['}'], format_from(f@, vals, i + 2, k as nat, p as nat)));
                    lemma_prepend_assoc(out@, seq!['}'], format_from(f@, vals, i + 2, k as nat, p as nat));
                }
                let ghost before = out@;
                out.push('}');
                proof {
                    assert(out@ =~= before + seq!['}']);
                }
                i = i + 2;
            } else {
                return Err(FormatError::StrayBrace);
            }
        } else {
            proof {
                assert(format_from(f@, vals, i as int, k as nat, p as nat)
                    == prepend(seq![c], format_from(f@, vals, i + 1, k as nat, p as nat)));
                lemma_prepend_assoc(out@, seq![c], format_from(f@, vals, i + 1, k as nat, p as nat));
            }
            let ghost before = out@;
            out.push(c);
            proof {
                assert(out@ =~= before + seq![c]);
            }
            i = i + 1;
        }
    }
    if k < n_vals {
        return Err(FormatError::TooManyArguments { placeholders: p, given: n_vals });
    }
    proof {
        assert(out@ + Seq::<char>::empty() =~= out@);
    }
    Ok(string_from_chars(out))
}

/// The message of a format error.
pub open spec fn format_error_text(e: FormatError) -> Seq<char> {
    match e {
        FormatError::MissingFormatString => "missing format string"@,
        FormatError::NotEnoughArguments { placeholders, given } =>
            "not enough arguments: format string has at least "@ + decimal_chars(placeholders as nat)
                + " placeholder(s), got "@ + decimal_chars(given as nat) + " argument(s)"@,
        FormatError::UnclosedBrace => "unclosed '{' \u{2014} use '{{' for a literal '{'"@,
        FormatError::StrayBrace => "stray '}' \u{2014} use '}}' for a literal '}'"@,
        FormatError::TooManyArguments { placeholders, given } =>
            "too many arguments: "@ + decimal_chars(placeholders as nat) + " placeholder(s), "@
                + decimal_chars(given as nat) + " argument(s)"@,
    }
}

/// Append the characters of `t` to `out`.
pub(crate) fn push_text(out: &mut Vec<char>, t: &str)
    ensures
        final(out)@ == old(out)@ + t@,
{
    let cs = chars_of(t);
    let mut i: usize = 0;
    while i < cs.len()
        invariant
            i <= cs@.len(),
            cs@ == t@,
            out@ == old(out)@ + cs@.subrange(0, i as int),
        decreases cs@.len() - i,
    {
        out.push(cs[i]);
        i = i + 1;
        proof {
            assert(out@ =~= old(out)@ + cs@.subrange(0, i as int));
        }
    }
    proof {
        assert(cs@.subrange(0, cs@.len() as int) =~= cs@);
    }
}

/// Append the decimal digits of `n` to `out`.
pub(crate) fn push_decimal(out: &mut Vec<char>, n: usize)
    ensures
        final(out)@ == old(out)@ + decimal_chars(n as nat),
{
    let d = decimal_text(n);
    push_text(out, d.as_str());
}

impl FormatError {
    /// The error message.
    pub fn message(&self) -> (s: String)
        ensures
            s@ == format_error_text(*self),
    {
        let mut out: Vec<char> = Vec::new();
        match self {
            FormatError::MissingFormatString => push_text(&mut out, "missing format string"),
            FormatError::NotEnoughArguments { placeholders, given } => {
                push_text(&mut out, "not enough arguments: format string has at least ");
                push_decimal(&mut out, *placeholders);
                push_text(&mut out, " placeholder(s), got ");
                push_decimal(&mut out, *given);
                push_text(&mut out, " argument(s)");
            },
            FormatError::UnclosedBrace => push_text(&mut out, "unclosed '{' \u{2014} use '{{' for a literal '{'"),
            FormatError::StrayBrace => push_text(&mut out, "stray '}' \u{2014} use '}}' for a literal '}'"),
            FormatError::TooManyArguments { placeholders, given } => {
                push_text(&mut out, "too many arguments: ");
                push_decimal(&mut out, *placeholders);
                push_text(&mut out, " placeholder(s), ");
                push_decimal(&mut out, *given);
                push_text(&mut out, " argument(s)");
            },
        }
        proof {
            assert(out@ =~= format_error_text(*self));
        }
        string_from_chars(out)
    }
}

// ========================================================================== //
//                    range
// ========================================================================== //

/// The state of a `range` iterator: the next value, the bound it stops
/// before, and the step.
#[derive(Debug, Clone, Copy, PartialEq, Eq, Structural)]
pub struct ObjectRangeIter {
    pub current: i64,
    pub stop: i64,
    pub step: i64,
}

/// Has a range from `current` toward `stop` by `step` run out?
pub open spec fn range_exhausted(current: int, stop: int, step: int) -> bool {
    if step > 0 {
        current >= stop
    } else {
        current <= stop
    }
}

/// How many values a range from `current` toward `stop` by `step` still
/// yields.
pub open spec fn range_count(current: int, stop: int, step: int) -> int {
    if step > 0 {
        if current >= stop {
            0
        } else {
            (stop - current - 1) / step + 1
        }
    } else {
        if current <= stop {
            0
        } else {
            (current - stop - 1) / (-step) + 1
        }
    }
}

impl ObjectRangeIter {
    pub fn new(start: i64, stop: i64, step: i64) -> (r: Self)
        ensures
            r.current == start,
            r.stop == stop,
            r.step == step,
    {
        ObjectRangeIter { current: start, stop, step }
    }

    /// The values left to yield; the step must not be zero, and the
    /// distance to the bound must fit an `i64`.
    pub fn len(&self) -> (n: i64)
        requires
            self.step != 0,
            self.step != i64::MIN,
            self.step > 0 && self.current < self.stop ==> self.stop - self.current <= i64::MAX,
            self.step < 0 && self.current > self.stop ==> self.current - self.stop <= i64::MAX,
        ensures
            n == range_count(self.current as int, self.stop as int, self.step as int),
    {
        if self.step > 0 {
            if self.current >= self.stop {
                0
            } else {
                let d = self.stop - self.current - 1;
                proof {
                    assert(d / self.step <= d) by (nonlinear_arith)
                        requires d >= 0, self.step >= 1;
                }
                d / self.step + 1
            }
        } else {
            if self.current <= self.stop {
                0
            } else {
                let d = self.current - self.stop - 1;
                let s = -self.step;
                proof {
                    assert(d / s <= d) by (nonlinear_arith)
                        requires d >= 0, s >= 1;
                }
                d / s + 1
            }
        }
    }

    /// The next value, or `None` once the bound is reached.  Advancing past
    /// the last value must not overflow.
    pub fn next_value(&mut self) -> (r: Option<i64>)
        requires
            !range_exhausted(old(self).current as int, old(self).stop as int, old(self).step as int)
                ==> i64::MIN <= old(self).current + old(self).step <= i64::MAX,
        ensures
            final(self).stop == old(self).stop,
            final(self).step == old(self).step,
            if range_exhausted(old(self).current as int, old(self).stop as int, old(self).step as int) {
                r is None && *final(self) == *old(self)
            } else {
                r == Some(old(self).current) && final(self).current == old(self).current + old(self).step
            },
    {
        let exhausted = if self.step > 0 {
            self.current >= self.stop
        } else {
            self.current <= self.stop
        };
        if exhausted {
            return None;
        }
        let value = self.current;
        self.current = self.current + self.step;
        Some(value)
    }
}

/// Each value a range yields lowers the count of the values left by one,
/// and a range that has run out has none left: the count is the number of
/// values the iteration yields.
pub proof fn lemma_range_count_step(current: int, stop: int, step: int)
    requires
        step != 0,
    ensures
        range_count(current, stop, step) >= 0,
        range_exhausted(current, stop, step) <==> range_count(current, stop, step) == 0,
        !range_exhausted(current, stop, step) ==> range_count(current + step, stop, step) == range_count(current, stop, step) - 1,
{
    if step > 0 {
        if current < stop {
            let d = stop - current;
            assert((d - 1) / step >= 0) by (nonlinear_arith)
                requires d >= 1, step > 0;
            if current + step < stop {
                assert((d - step - 1) / step == (d - 1) / step - 1) by (nonlinear_arith)
                    requires d - step >= 1, step > 0;
            } else {
                assert((d - 1) / step == 0) by (nonlinear_arith)
                    requires 1 <= d <= step;
            }
        }
    } else {
        if current > stop {
            let d = current - stop;
            let s = -step;
            assert((d - 1) / s >= 0) by (nonlinear_arith)
                requires d >= 1, s > 0;
            if current + step > stop {
                assert((d - s - 1) / s == (d - 1) / s - 1) by (nonlinear_arith)
                    requires d - s >= 1, s > 0;
            } else {
                assert((d - 1) / s == 0) by (nonlinear_arith)
                    requires 1 <= d <= s;
            }
        }
    }
}

/// The length of a range is the number of values its iteration yields:
/// the `k`-th step yields `current + k * step` for every `k` below the
/// length, and after that many steps the range has run out.
pub proof fn lemma_range_len_counts_values(current: int, stop: int, step: int)
    requires
        step != 0,
    ensures
        range_count(current, stop, step) >= 0,
        forall|k: int| 0 <= k < range_count(current, stop, step)
            ==> !#[trigger] range_exhausted(current + k * step, stop, step),
        range_exhausted(current + range_count(current, stop, step) * step, stop, step),
    decreases range_count(current, stop, step),
{
    lemma_range_count_step(current, stop, step);
    let n = range_count(current, stop, step);
    if range_exhausted(current, stop, step) {
        assert(current + n * step == current);
    } else {
        lemma_range_count_step(current + step, stop, step);
        lemma_range_len_counts_values(current + step, stop, step);
        assert(current + step + (n - 1) * step == current + n * step) by (nonlinear_arith);
        assert forall|k: int| 0 <= k < n implies !#[trigger] range_exhausted(current + k * step, stop, step) by {
            if k == 0 {
                assert(current + k * step == current);
            } else {
                assert(current + step + (k - 1) * step == current + k * step) by (nonlinear_arith);
                assert(!range_exhausted(current + step + (k - 1) * step, stop, step));
            }
        }
    }
}

/// Why `range(...)` was refused.
#[derive(Debug, Clone, Copy, PartialEq, Eq, Structural)]
pub enum RangeError {
    /// Not one to three arguments; the number given.
    ArgumentCount(usize),
    /// The argument at this position is not an integer.
    NotAnInteger(usize),
    /// The step is zero.
    StepZero,
}

/// The integer behind `h`, if it holds one.
pub open spec fn int_arg(heap: &ObjectHeap, h: ObjectHandle) -> Option<i64> {
    if heap.live(h) {
        int_of(heap.objs()[h.0 as int])
    } else {
        None
    }
}

/// The iterator `range(args)` makes: `range(stop)`, `range(start, stop)`
/// or `range(start, stop, step)`, the step defaulting to 1.
pub open spec fn range_spec(heap: &ObjectHeap, args: Seq<ObjectHandle>) -> Result<ObjectRangeIter, RangeError> {
    if args.len() < 1 || args.len() > 3 {
        Err(RangeError::ArgumentCount(args.len() as usize))
    } else if int_arg(heap, args[0]) is None {
        Err(RangeError::NotAnInteger(0))
    } else if args.len() == 1 {
        Ok(ObjectRangeIter { current: 0, stop: int_arg(heap, args[0])->0, step: 1 })
    } else if int_arg(heap, args[1]) is None {
        Err(RangeError::NotAnInteger(1))
    } else if args.len() == 2 {
        Ok(ObjectRangeIter { current: int_arg(heap, args[0])->0, stop: int_arg(heap, args[1])->0, step: 1 })
    } else if int_arg(heap, args[2]) is None {
        Err(RangeError::NotAnInteger(2))
    } else if int_arg(heap, args[2])->0 == 0 {
        Err(RangeError::StepZero)
    } else {
        Ok(ObjectRangeIter {
            current: int_arg(heap, args[0])->0,
            stop: int_arg(heap, args[1])->0,
            step: int_arg(heap, args[2])->0,
        })
    }
}

/// `range(start, stop, step)` with three integers and a step other than
/// zero counts from `start` towards `stop` by exactly the given step,
/// negative steps included.
pub proof fn lemma_range_takes_its_step(heap: &ObjectHeap, args: Seq<ObjectHandle>, start: i64, stop: i64, step: i64)
    requires
        args.len() == 3,
        int_arg(heap, args[0]) == Some(start),
        int_arg(heap, args[1]) == Some(stop),
        int_arg(heap, args[2]) == Some(step),
        step != 0,
    ensures
        range_spec(heap, args) matches Ok(it) && it.current == start && it.stop == stop && it.step == step,
{
}

/// `range(start, stop)` with two integers counts from `start` towards
/// `stop` by one, and `range(stop)` from zero.
pub proof fn lemma_range_default_step(heap: &ObjectHeap, args: Seq<ObjectHandle>, start: i64, stop: i64)
    requires
        args.len() == 2 && int_arg(heap, args[0]) == Some(start) && int_arg(heap, args[1]) == Some(stop)
        || args.len() == 1 && start == 0 && int_arg(heap, args[0]) == Some(stop),
    ensures
        range_spec(heap, args) matches Ok(it) && it.current == start && it.stop == stop && it.step == 1,
{
}

/// `range` fails exactly when it is given other than one to three
/// arguments, when one of them is no integer (the first such one is
/// named), or when a third argument, the step, is zero.
pub proof fn lemma_range_errors(heap: &ObjectHeap, args: Seq<ObjectHandle>)
    ensures
        (args.len() < 1 || args.len() > 3) ==> range_spec(heap, args) == Err::<ObjectRangeIter, RangeError>(
            RangeError::ArgumentCount(args.len() as usize)),
        1 <= args.len() <= 3 ==> forall|k: int| 0 <= k < args.len() && int_arg(heap, args[k]) is None
            && (forall|m: int| 0 <= m < k ==> int_arg(heap, args[m]) is Some)
            ==> range_spec(heap, args) == Err::<ObjectRangeIter, RangeError>(RangeError::NotAnInteger(k as usize)),
        args.len() == 3 && int_arg(heap, args[0]) is Some && int_arg(heap, args[1]) is Some
            && int_arg(heap, args[2]) == Some(0i64) ==> range_spec(heap, args) == Err::<ObjectRangeIter, RangeError>(
            RangeError::StepZero),
        1 <= args.len() <= 3 && (forall|m: int| 0 <= m < args.len() ==> int_arg(heap, args[m]) is Some)
            && !(args.len() == 3 && int_arg(heap, args[2]) == Some(0i64)) ==> range_spec(heap, args) is Ok,
{
    if 1 <= args.len() <= 3 {
        assert forall|k: int| 0 <= k < args.len() && int_arg(heap, args[k]) is None
            && (forall|m: int| 0 <= m < k ==> int_arg(heap, args[m]) is Some)
            implies range_spec(heap, args) == Err::<ObjectRangeIter, RangeError>(RangeError::NotAnInteger(k as usize)) by {
            if k >= 1 {
                assert(int_arg(heap, args[0]) is Some);
            }
            if k >= 2 {
                assert(int_arg(heap, args[1]) is Some);
            }
        }
        if forall|m: int| 0 <= m < args.len() ==> int_arg(heap, args[m]) is Some {
            assert(int_arg(heap, args[0]) is Some);
            if args.len() >= 2 {
                assert(int_arg(heap, args[1]) is Some);
            }
            if args.len() == 3 {
                assert(int_arg(heap, args[2]) is Some);
            }
        }
    }
}

/// Read the arguments of `range(...)`: one to three integers.
pub fn range(heap: &ObjectHeap, args: &Vec<ObjectHandle>) -> (r: Result<ObjectRangeIter, RangeError>)
    ensures
        r == range_spec(heap, args@),
{
    let n = args.len();
    if n < 1 || n > 3 {
        return Err(RangeError::ArgumentCount(n));
    }
    let first = match heap.get_integer_instance(args[0]) {
        Some(v) => v,
        None => return Err(RangeError::NotAnInteger(0)),
    };
    if n == 1 {
        return Ok(ObjectRangeIter::new(0, first, 1));
    }
    let second = match heap.get_integer_instance(args[1]) {
        Some(v) => v,
        None => return Err(RangeError::NotAnInteger(1)),
    };
    if n == 2 {
        return Ok(ObjectRangeIter::new(first, second, 1));
    }
    let third = match heap.get_integer_instance(args[2]) {
        Some(v) => v,
        None => return Err(RangeError::NotAnInteger(2)),
    };
    if third == 0 {
        return Err(RangeError::StepZero);
    }
    Ok(ObjectRangeIter::new(first, second, third))
}

// ========================================================================== //
//                    isinstance
// ========================================================================== //

/// Is there a class behind `c`?
pub open spec fn class_at(heap: &ObjectHeap, c: ObjectHandle) -> bool {
    heap.live(c) && heap.objs()[c.0 as int] matches Some(Object::Class(_))
}

/// The superclass of the class behind `c`.
pub open spec fn superclass_of(heap: &ObjectHeap, c: ObjectHandle) -> Option<ObjectHandle> {
    match heap.objs()[c.0 as int] {
        Some(Object::Class(k)) => k.superclass,
        _ => None,
    }
}

/// The class of the instance behind `h`, if it is one.
pub open spec fn instance_class(heap: &ObjectHeap, h: ObjectHandle) -> Option<ObjectHandle> {
    if heap.live(h) {
        match heap.objs()[h.0 as int] {
            Some(Object::Instance(i)) => Some(i.class),
            _ => None,
        }
    } else {
        None
    }
}

/// Following superclasses from `c` meets only classes and ends within `n`
/// steps.
pub open spec fn chain_ends(heap: &ObjectHeap, c: ObjectHandle, n: nat) -> bool
    decreases n,
{
    class_at(heap, c) && match superclass_of(heap, c) {
        None => true,
        Some(s) => n > 0 && chain_ends(heap, s, (n - 1) as nat),
    }
}

/// Is `target` met within `n` steps following superclasses from `c`?
pub open spec fn chain_reaches(heap: &ObjectHeap, c: ObjectHandle, target: ObjectHandle, n: nat) -> bool
    decreases n,
{
    c == target || (n > 0 && match superclass_of(heap, c) {
        Some(s) => chain_reaches(heap, s, target, (n - 1) as nat),
        None => false,
    })
}

/// Is `target` the class `c` or one of its superclasses, for every bound
/// the chain from `c` ends within?
pub open spec fn is_subclass(heap: &ObjectHeap, c: ObjectHandle, target: ObjectHandle) -> bool {
    forall|n: nat| chain_ends(heap, c, n) ==> #[trigger] chain_reaches(heap, c, target, n)
}

/// More steps change nothing once the chain has ended.
proof fn lemma_chain_steps(heap: &ObjectHeap, c: ObjectHandle, target: ObjectHandle, n: nat, m: nat)
    requires
        chain_ends(heap, c, n),
        n <= m,
    ensures
        chain_ends(heap, c, m),
        chain_reaches(heap, c, target, n) == chain_reaches(heap, c, target, m),
    decreases n,
{
    if let Some(s) = superclass_of(heap, c) {
        lemma_chain_steps(heap, s, target, (n - 1) as nat, (m - 1) as nat);
    }
}

/// Whether `target` is among the superclasses of `c` does not depend on
/// the bound the chain ends within.
pub proof fn lemma_chain_answer(heap: &ObjectHeap, c: ObjectHandle, target: ObjectHandle, n: nat, m: nat)
    requires
        chain_ends(heap, c, n),
        chain_ends(heap, c, m),
    ensures
        chain_reaches(heap, c, target, n) == chain_reaches(heap, c, target, m),
{
    if n <= m {
        lemma_chain_steps(heap, c, target, n, m);
    } else {
        lemma_chain_steps(heap, c, target, m, n);
    }
}

/// `isinstance(value, class)`: is `value` an instance of `class` or of one
/// of its subclasses?  The sentinels and values that are not instances are
/// instances of nothing; `class` must be a class.
pub fn isinstance(heap: &ObjectHeap, obj: ObjectHandle, class: ObjectHandle) -> (r: Result<ObjectHandle, RuntimeErrorKind>)
    requires
        heap.wf(),
        obj.0 >= 2 && instance_class(heap, obj) is Some
            ==> exists|n: nat| chain_ends(heap, instance_class(heap, obj)->0, n),
    ensures
        if obj.0 < 2 || instance_class(heap, obj) is None {
            r == Ok::<ObjectHandle, RuntimeErrorKind>(heap.spec_false_instance())
        } else if !class_at(heap, class) {
            r matches Err(e) && is_type_mismatch(e, "class"@, type_name_of(heap, class))
        } else {
            r matches Ok(h) && h == (if is_subclass(heap, instance_class(heap, obj)->0, class) {
                heap.spec_true_instance()
            } else {
                heap.spec_false_instance()
            })
        },
{
    if obj.is_nil() || obj.is_iter_end() {
        return Ok(heap.alloc_bool_instance(false));
    }
    let start = match heap.get_instance(obj) {
        Some(inst) => inst.class,
        None => return Ok(heap.alloc_bool_instance(false)),
    };
    match heap.expect_class(class) {
        Ok(_) => {},
        Err(e) => return Err(e),
    }
    let ghost fuel0: nat = choose|n: nat| chain_ends(heap, start, n);
    let ghost mut fuel: nat = fuel0;
    let mut cur = start;
    loop
        invariant
            heap.wf(),
            obj.0 >= 2,
            instance_class(heap, obj) == Some(start),
            class_at(heap, class),
            chain_ends(heap, start, fuel0),
            chain_ends(heap, cur, fuel),
            chain_reaches(heap, start, class, fuel0) == chain_reaches(heap, cur, class, fuel),
        decreases fuel,
    {
        if cur == class {
            proof {
                assert forall|n: nat| chain_ends(heap, start, n) implies #[trigger] chain_reaches(heap, start, class, n) by {
                    lemma_chain_answer(heap, start, class, n, fuel0);
                }
            }
            return Ok(heap.alloc_bool_instance(true));
        }
        let next = match heap.get_class(cur) {
            Some(k) => k.superclass,
            None => {
                proof {
                    assert(false);
                }
                return Ok(heap.alloc_bool_instance(false));
            },
        };
        match next {
            Some(s) => {
                proof {
                    fuel = (fuel - 1) as nat;
                }
                cur = s;
            },
            None => {
                proof {
                    assert(superclass_of(heap, cur) is None);
                    assert(!chain_reaches(heap, cur, class, fuel));
                    assert(!chain_reaches(heap, start, class, fuel0));
                    assert(!is_subclass(heap, start, class));
                }
                return Ok(heap.alloc_bool_instance(false));
            },
        }
    }
}

} // verus!
