use vstd::prelude::*;

use crate::bytes::{holds_bool, holds_int, holds_str, lemma_fresh_only_adds};
use crate::cli::has_prefix;
use crate::heap::{ObjectHeap, int_of, list_of, str_of};
use crate::object::{InstanceData, Object, ObjectHandle, ObjectString, ObjectStringIterator};
use crate::repl::{trim_end_spec, is_white_space};
use crate::runtime::{RuntimeErrorKind, is_type_mismatch, live_view, string_iter_of, type_name_of};
use crate::scan::{chars_of, string_from_chars};

verus! {

// ========================================================================== //
//                    Models
// ========================================================================== //

/// The string behind `h`, if it is one.
pub open spec fn str_arg(heap: &ObjectHeap, h: ObjectHandle) -> Option<Seq<char>> {
    live_view(heap, h, |o: Option<Object>| str_of(o))
}

/// The integer behind `h`, if it is one.
pub open spec fn int_arg(heap: &ObjectHeap, h: ObjectHandle) -> Option<i64> {
    live_view(heap, h, |o: Option<Object>| int_of(o))
}

/// `r` is the error for `h` not being a value of type `name`.
pub open spec fn wrong_type(heap: &ObjectHeap, h: ObjectHandle, name: Seq<char>, r: Result<ObjectHandle, RuntimeErrorKind>) -> bool {
    r matches Err(e) && is_type_mismatch(e, name, type_name_of(heap, h))
}

/// Does `s` end with `p`?
pub open spec fn has_suffix(s: Seq<char>, p: Seq<char>) -> bool {
    p.len() <= s.len() && s.subrange(s.len() - p.len(), s.len() as int) == p
}

/// Does `p` occur in `s` at index `i`?
pub open spec fn occurs_at(s: Seq<char>, p: Seq<char>, i: int) -> bool {
    0 <= i && i + p.len() <= s.len() && s.subrange(i, i + p.len()) == p
}

/// Does `p` occur in `s`?
pub open spec fn occurs_in(s: Seq<char>, p: Seq<char>) -> bool {
    exists|i: int| occurs_at(s, p, i)
}

/// `r` is the index of the first occurrence of `p` in `s`, or -1.
pub open spec fn is_first_occurrence(s: Seq<char>, p: Seq<char>, r: int) -> bool {
    if occurs_in(s, p) {
        occurs_at(s, p, r) && forall|j: int| 0 <= j < r ==> !occurs_at(s, p, j)
    } else {
        r == -1
    }
}

/// `r` is the index of the last occurrence of `p` in `s`, or -1.
pub open spec fn is_last_occurrence(s: Seq<char>, p: Seq<char>, r: int) -> bool {
    if occurs_in(s, p) {
        occurs_at(s, p, r) && forall|j: int| r < j ==> !occurs_at(s, p, j)
    } else {
        r == -1
    }
}

/// How far the search moves past a match of `p`: its length, or one
/// character for the empty pattern.
pub open spec fn step_past(p: Seq<char>) -> int {
    if p.len() == 0 {
        1
    } else {
        p.len() as int
    }
}

/// Number of matches of `p` in `s` at or after `i`, found left to right
/// without overlap; the empty pattern matches at every position.
pub open spec fn count_from(s: Seq<char>, p: Seq<char>, i: int) -> nat
    decreases s.len() + 1 - i,
{
    if i < 0 || i + p.len() > s.len() {
        0
    } else if occurs_at(s, p, i) {
        1 + count_from(s, p, i + step_past(p))
    } else {
        count_from(s, p, i + 1)
    }
}

/// `s` from index `i` on, with each match of `p` (left to right, without
/// overlap) replaced by `q`; the empty pattern matches before every
/// character and at the end.
pub open spec fn replace_from(s: Seq<char>, p: Seq<char>, q: Seq<char>, i: int) -> Seq<char>
    decreases s.len() + 1 - i,
{
    if i < 0 || i > s.len() {
        Seq::empty()
    } else if i + p.len() > s.len() {
        s.subrange(i, s.len() as int)
    } else if occurs_at(s, p, i) {
        if p.len() == 0 {
            if i < s.len() {
                q + seq![s[i]] + replace_from(s, p, q, i + 1)
            } else {
                q
            }
        } else {
            q + replace_from(s, p, q, i + p.len())
        }
    } else {
        seq![s[i]] + replace_from(s, p, q, i + 1)
    }
}

/// The pieces of `s` between the matches of `d` at or after `i`, the
/// current piece starting at `start`.
pub open spec fn split_from(s: Seq<char>, d: Seq<char>, start: int, i: int) -> Seq<Seq<char>>
    decreases s.len() + 1 - i,
{
    if i < 0 || i + d.len() > s.len() {
        seq![s.subrange(start, s.len() as int)]
    } else if occurs_at(s, d, i) {
        seq![s.subrange(start, i)] + split_from(s, d, i + d.len(), i + step_past(d))
    } else {
        split_from(s, d, start, i + 1)
    }
}

/// The pieces of `s` between the matches of `d`.
pub open spec fn split_spec(s: Seq<char>, d: Seq<char>) -> Seq<Seq<char>> {
    split_from(s, d, 0, 0)
}

/// The pieces `ps` put back together with `d` between each two of them.
pub open spec fn join_with(ps: Seq<Seq<char>>, d: Seq<char>) -> Seq<char>
    decreases ps.len(),
{
    if ps.len() == 0 {
        Seq::empty()
    } else if ps.len() == 1 {
        ps[0]
    } else {
        ps[0] + d + join_with(ps.drop_first(), d)
    }
}

/// Splitting from a piece that starts at `start`, searching from `i` on,
/// gives at least one piece, and the pieces joined by the delimiter are
/// the text from `start` on.
proof fn lemma_split_from_joins(s: Seq<char>, d: Seq<char>, start: int, i: int)
    requires
        d.len() > 0,
        0 <= start <= i <= s.len(),
    ensures
        split_from(s, d, start, i).len() >= 1,
        join_with(split_from(s, d, start, i), d) =~= s.subrange(start, s.len() as int),
    decreases s.len() + 1 - i,
{
    if i + d.len() > s.len() {
    } else if occurs_at(s, d, i) {
        let n = i + d.len();
        lemma_split_from_joins(s, d, n, n);
        let rest = split_from(s, d, n, n);
        let ps = seq![s.subrange(start, i)] + rest;
        assert(ps.drop_first() =~= rest);
        assert(ps[0] == s.subrange(start, i));
        assert(s.subrange(i, n) == d);
        assert(join_with(ps, d) == ps[0] + d + join_with(rest, d));
        assert(s.subrange(start, s.len() as int) =~= s.subrange(start, i) + s.subrange(i, n) + s.subrange(n, s.len() as int));
    } else {
        lemma_split_from_joins(s, d, start, i + 1);
    }
}

/// A piece of `s` from `start` to `e` in which no match of `d` starts
/// before `i`, where `e - d.len() < i`, holds no match of `d`.
proof fn lemma_piece_free(s: Seq<char>, d: Seq<char>, start: int, e: int, i: int)
    requires
        d.len() > 0,
        0 <= start <= e <= s.len(),
        e - d.len() < i,
        forall|j: int| start <= j < i ==> !occurs_at(s, d, j),
    ensures
        !occurs_in(s.subrange(start, e), d),
{
    let piece = s.subrange(start, e);
    if occurs_in(piece, d) {
        let m = choose|m: int| occurs_at(piece, d, m);
        assert(piece.subrange(m, m + d.len()) =~= s.subrange(start + m, start + m + d.len()));
        assert(occurs_at(s, d, start + m));
    }
}

/// The pieces of a split from `start`, searching from `i`, where no match
/// starts between the two, hold no match of the delimiter.
proof fn lemma_split_from_free(s: Seq<char>, d: Seq<char>, start: int, i: int)
    requires
        d.len() > 0,
        0 <= start <= i <= s.len(),
        forall|j: int| start <= j < i ==> !occurs_at(s, d, j),
    ensures
        forall|k: int| 0 <= k < split_from(s, d, start, i).len() ==> !occurs_in(#[trigger] split_from(s, d, start, i)[k], d),
    decreases s.len() + 1 - i,
{
    if i + d.len() > s.len() {
        lemma_piece_free(s, d, start, s.len() as int, i);
        assert(split_from(s, d, start, i) == seq![s.subrange(start, s.len() as int)]);
        assert(split_from(s, d, start, i)[0] == s.subrange(start, s.len() as int));
    } else if occurs_at(s, d, i) {
        let n = i + d.len();
        lemma_split_from_free(s, d, n, n);
        lemma_piece_free(s, d, start, i, i);
        let rest = split_from(s, d, n, n);
        let ps = seq![s.subrange(start, i)] + rest;
        assert forall|k: int| 0 <= k < ps.len() implies !occurs_in(#[trigger] ps[k], d) by {
            if k > 0 {
                assert(ps[k] == rest[k - 1]);
            }
        }
        assert(split_from(s, d, start, i) == ps);
    } else {
        lemma_split_from_free(s, d, start, i + 1);
        assert(split_from(s, d, start, i) == split_from(s, d, start, i + 1));
    }
}

/// Splitting a text by a non-empty delimiter gives at least one piece,
/// no piece holds the delimiter, and joining the pieces with it gives the
/// text back.
pub proof fn lemma_split_then_join(s: Seq<char>, d: Seq<char>)
    requires
        d.len() > 0,
    ensures
        split_spec(s, d).len() >= 1,
        join_with(split_spec(s, d), d) == s,
        forall|k: int| 0 <= k < split_spec(s, d).len() ==> !occurs_in(#[trigger] split_spec(s, d)[k], d),
{
    lemma_split_from_joins(s, d, 0, 0);
    lemma_split_from_free(s, d, 0, 0);
    assert(s.subrange(0, s.len() as int) =~= s);
}

/// A line without its final carriage return, if it has one.
pub open spec fn strip_cr(l: Seq<char>) -> Seq<char> {
    if l.len() > 0 && l.last() == '\r' {
        l.drop_last()
    } else {
        l
    }
}

/// The lines of `s` from index `start` on: split after line feeds; a line
/// ended by a line feed loses it and a carriage return before it; a last
/// line without a line feed stays as it is, and there is none when it
/// would be empty.
pub open spec fn lines_from(s: Seq<char>, start: int, i: int) -> Seq<Seq<char>>
    decreases s.len() - i,
{
    if i < start || i >= s.len() {
        if 0 <= start < s.len() {
            seq![s.subrange(start, s.len() as int)]
        } else {
            Seq::empty()
        }
    } else if s[i] == '\n' {
        seq![strip_cr(s.subrange(start, i))] + lines_from(s, i + 1, i + 1)
    } else {
        lines_from(s, start, i + 1)
    }
}

/// The lines of `s`.
pub open spec fn lines_spec(s: Seq<char>) -> Seq<Seq<char>> {
    lines_from(s, 0, 0)
}

/// `s` repeated `n` times.
pub open spec fn repeat_spec(s: Seq<char>, n: nat) -> Seq<char>
    decreases n,
{
    if n == 0 {
        Seq::empty()
    } else {
        repeat_spec(s, (n - 1) as nat) + s
    }
}

/// `n` copies of `c`.
pub open spec fn fill_chars(c: char, n: nat) -> Seq<char> {
    Seq::new(n, |i: int| c)
}

/// Lexicographic order of character sequences by code point: after a
/// common prefix, `a` ends while `b` goes on, or `a` has the smaller
/// character.
pub open spec fn text_lt(a: Seq<char>, b: Seq<char>) -> bool {
    exists|i: int| #![trigger a.subrange(0, i)] {
        &&& 0 <= i <= a.len()
        &&& i <= b.len()
        &&& a.subrange(0, i) == b.subrange(0, i)
        &&& ((i == a.len() && i < b.len()) || (i < a.len() && i < b.len() && (a[i] as u32) < (b[i] as u32)))
    }
}

/// Index of the first character not in white space at or after `i`.
pub open spec fn trim_start_index(s: Seq<char>, i: int) -> int
    decreases s.len() - i,
{
    if 0 <= i < s.len() && crate::repl::is_white_space(s[i]) {
        trim_start_index(s, i + 1)
    } else {
        i
    }
}

/// `s` without its leading white space.
pub open spec fn trim_start_spec(s: Seq<char>) -> Seq<char> {
    s.subrange(trim_start_index(s, 0), s.len() as int)
}

/// Is every character an ASCII digit, and is there one?
pub open spec fn all_ascii_digits(s: Seq<char>) -> bool {
    s.len() > 0 && forall|i: int| 0 <= i < s.len() ==> '0' <= #[trigger] s[i] <= '9'
}

/// Is every character white space, and is there one?
pub open spec fn all_white_space(s: Seq<char>) -> bool {
    s.len() > 0 && forall|i: int| 0 <= i < s.len() ==> crate::repl::is_white_space(#[trigger] s[i])
}

/// Is every character ASCII?
pub open spec fn all_ascii(s: Seq<char>) -> bool {
    forall|i: int| 0 <= i < s.len() ==> (#[trigger] s[i] as u32) < 128
}

// ========================================================================== //
//                    Helpers on characters
// ========================================================================== //

/// Does `p` occur in `s` at `i`?
fn occurs_here(s: &Vec<char>, p: &Vec<char>, i: usize) -> (b: bool)
    ensures
        b == occurs_at(s@, p@, i as int),
{
    let n = s.len();
    if i > n || p.len() > n - i {
        return false;
    }
    let mut k: usize = 0;
    while k < p.len()
        invariant
            k <= p@.len(),
            n == s@.len(),
            i <= s@.len(),
            i + p@.len() <= s@.len(),
            forall|j: int| 0 <= j < k ==> s@[i + j] == p@[j],
        decreases p@.len() - k,
    {
        if s[i + k] != p[k] {
            proof {
                assert(s@.subrange(i as int, i + p@.len())[k as int] != p@[k as int]);
            }
            return false;
        }
        k = k + 1;
    }
    proof {
        assert(s@.subrange(i as int, i + p@.len()) =~= p@);
    }
    true
}

/// Index of the first occurrence of `p` in `s`.
fn find_first(s: &Vec<char>, p: &Vec<char>) -> (r: Option<usize>)
    ensures
        match r {
            Some(i) => is_first_occurrence(s@, p@, i as int),
            None => is_first_occurrence(s@, p@, -1),
        },
{
    if p.len() > s.len() {
        proof {
            assert forall|j: int| !occurs_at(s@, p@, j) by {}
        }
        return None;
    }
    let last = s.len() - p.len();
    let mut i: usize = 0;
    loop
        invariant
            last == s@.len() - p@.len(),
            i <= last,
            forall|j: int| 0 <= j < i ==> !occurs_at(s@, p@, j),
        decreases last - i,
    {
        if occurs_here(s, p, i) {
            return Some(i);
        }
        if i == last {
            proof {
                assert forall|j: int| !occurs_at(s@, p@, j) by {
                    if 0 <= j <= i {
                    }
                }
            }
            return None;
        }
        i = i + 1;
    }
}

/// Index of the last occurrence of `p` in `s`.
fn find_last(s: &Vec<char>, p: &Vec<char>) -> (r: Option<usize>)
    ensures
        match r {
            Some(i) => is_last_occurrence(s@, p@, i as int),
            None => is_last_occurrence(s@, p@, -1),
        },
{
    if p.len() > s.len() {
        proof {
            assert forall|j: int| !occurs_at(s@, p@, j) by {}
        }
        return None;
    }
    let mut i: usize = s.len() - p.len();
    loop
        invariant
            i <= s@.len() - p@.len(),
            forall|j: int| i < j ==> !occurs_at(s@, p@, j),
        decreases i,
    {
        if occurs_here(s, p, i) {
            return Some(i);
        }
        if i == 0 {
            proof {
                assert forall|j: int| !occurs_at(s@, p@, j) by {
                    if 0 <= j <= i {
                    }
                }
            }
            return None;
        }
        i = i - 1;
    }
}

/// `s[a..b]`.
fn slice_chars(s: &Vec<char>, a: usize, b: usize) -> (r: Vec<char>)
    requires
        a <= b <= s@.len(),
    ensures
        r@ == s@.subrange(a as int, b as int),
{
    let mut out: Vec<char> = Vec::new();
    let mut i: usize = a;
    while i < b
        invariant
            a <= i <= b <= s@.len(),
            out@ == s@.subrange(a as int, i as int),
        decreases b - i,
    {
        out.push(s[i]);
        i = i + 1;
        proof {
            assert(out@ =~= s@.subrange(a as int, i as int));
        }
    }
    out
}

/// Append `cs` to `out`.
fn append_chars(out: &mut Vec<char>, cs: &Vec<char>)
    ensures
        final(out)@ == old(out)@ + cs@,
{
    let mut i: usize = 0;
    while i < cs.len()
        invariant
            i <= cs@.len(),
            out@ == old(out)@ + cs@.subrange(0, i as int),
        decreases cs@.len() - i,
    {
        out.push(cs[i]);
        i = i + 1;
        proof {
            assert(out@ =~= old(out)@ + cs@.subrange(0, i as int));
        }
    }
    proof {
        assert(cs@.subrange(0, cs@.len() as int) =~= cs@);
    }
}

/// Append `n` copies of `c` to `out`.
fn append_fill(out: &mut Vec<char>, c: char, n: usize)
    ensures
        final(out)@ == old(out)@ + fill_chars(c, n as nat),
{
    let mut i: usize = 0;
    while i < n
        invariant
            i <= n,
            out@ == old(out)@ + fill_chars(c, i as nat),
        decreases n - i,
    {
        out.push(c);
        i = i + 1;
        proof {
            assert(out@ =~= old(out)@ + fill_chars(c, i as nat));
        }
    }
}

/// Does `a` come before `b`?
fn text_less(a: &Vec<char>, b: &Vec<char>) -> (r: bool)
    ensures
        r == text_lt(a@, b@),
{
    let n = if a.len() < b.len() { a.len() } else { b.len() };
    let mut i: usize = 0;
    while i < n && a[i] == b[i]
        invariant
            i <= n,
            n <= a@.len(),
            n <= b@.len(),
            n == a@.len() || n == b@.len(),
            forall|j: int| 0 <= j < i ==> a@[j] == b@[j],
        decreases n - i,
    {
        i = i + 1;
    }
    let r = if i < n { (a[i] as u32) < (b[i] as u32) } else { a.len() < b.len() };
    proof {
        assert(a@.subrange(0, i as int) =~= b@.subrange(0, i as int));
        if !r {
            assert forall|k: int| !({
                &&& 0 <= k <= a@.len()
                &&& k <= b@.len()
                &&& #[trigger] a@.subrange(0, k) == b@.subrange(0, k)
                &&& ((k == a@.len() && k < b@.len()) || (k < a@.len() && k < b@.len() && (a@[k] as u32) < (b@[k] as u32)))
            }) by {
                if 0 <= k <= a@.len() && k <= b@.len() && a@.subrange(0, k) == b@.subrange(0, k) {
                    if k > i {
                        assert(a@.subrange(0, k)[i as int] == b@.subrange(0, k)[i as int]);
                    }
                }
            }
        }
    }
    r
}

/// Are `a` and `b` the same characters?
fn text_equal(a: &Vec<char>, b: &Vec<char>) -> (r: bool)
    ensures
        r == (a@ == b@),
{
    if a.len() != b.len() {
        return false;
    }
    let mut i: usize = 0;
    while i < a.len()
        invariant
            i <= a@.len(),
            a@.len() == b@.len(),
            forall|j: int| 0 <= j < i ==> a@[j] == b@[j],
        decreases a@.len() - i,
    {
        if a[i] != b[i] {
            return false;
        }
        i = i + 1;
    }
    proof {
        assert(a@ =~= b@);
    }
    true
}

/// The characters of the string behind `h`, or a type mismatch.
fn string_chars(heap: &ObjectHeap, h: ObjectHandle) -> (r: Result<Vec<char>, RuntimeErrorKind>)
    ensures
        match str_arg(heap, h) {
            Some(s) => r matches Ok(v) && v@ == s,
            None => r matches Err(e) && is_type_mismatch(e, "string"@, type_name_of(heap, h)),
        },
{
    match heap.expect_string(h) {
        Ok(s) => Ok(chars_of(s.as_str())),
        Err(e) => Err(e),
    }
}

/// Allocate the string of `cs`.
fn alloc_chars(heap: &mut ObjectHeap, cs: Vec<char>) -> (h: ObjectHandle)
    requires
        old(heap).wf(),
    ensures
        final(heap).wf(),
        ObjectHeap::only_adds(old(heap), final(heap)),
        holds_str(final(heap), h, cs@),
{
    heap.alloc_string_instance(string_from_chars(cs))
}

// ========================================================================== //
//                    Strings: size, truth, comparison
// ========================================================================== //

/// The name of a comparison operator and whether it holds between `a` and
/// `b`: 0 is `==`, 1 `!=`, 2 `>`, 3 `>=`, 4 `<`, 5 `<=`.
pub open spec fn compare_text(op: int, a: Seq<char>, b: Seq<char>) -> bool {
    if op == 0 {
        a == b
    } else if op == 1 {
        a != b
    } else if op == 2 {
        text_lt(b, a)
    } else if op == 3 {
        !text_lt(a, b)
    } else if op == 4 {
        text_lt(a, b)
    } else {
        !text_lt(b, a)
    }
}

pub open spec fn compare_name(op: int) -> Seq<char> {
    if op == 0 {
        "eq"@
    } else if op == 1 {
        "ne"@
    } else if op == 2 {
        "gt"@
    } else if op == 3 {
        "ge"@
    } else if op == 4 {
        "lt"@
    } else {
        "le"@
    }
}

/// The result of comparing the string `lhs` with `rhs` by operator `op`.
pub open spec fn compared(old_heap: &ObjectHeap, new_heap: &ObjectHeap, lhs: ObjectHandle, rhs: ObjectHandle, op: int, r: Result<ObjectHandle, RuntimeErrorKind>) -> bool {
    &&& *new_heap == *old_heap
    &&& match (str_arg(old_heap, lhs), str_arg(old_heap, rhs)) {
        (None, _) => wrong_type(old_heap, lhs, "string"@, r),
        (Some(_), None) => r matches Err(RuntimeErrorKind::BinaryOpTypeMismatch(o, t, u))
            && o@ == compare_name(op) && t@ == "string"@ && u@ == type_name_of(old_heap, rhs),
        (Some(a), Some(b)) => r matches Ok(h) && holds_bool(new_heap, h, compare_text(op, a, b)),
    }
}

fn compare_strings(heap: &mut ObjectHeap, lhs: ObjectHandle, rhs: ObjectHandle, op: u8) -> (r: Result<ObjectHandle, RuntimeErrorKind>)
    requires
        old(heap).wf(),
        op < 6,
    ensures
        compared(old(heap), final(heap), lhs, rhs, op as int, r),
{
    let a = string_chars(heap, lhs)?;
    let b = match heap.get_string_instance(rhs) {
        Some(t) => chars_of(t.as_str()),
        None => {
            let name = if op == 0 { "eq" } else if op == 1 { "ne" } else if op == 2 { "gt" }
                else if op == 3 { "ge" } else if op == 4 { "lt" } else { "le" };
            return Err(RuntimeErrorKind::BinaryOpTypeMismatch(name, "string", heap.type_of(rhs)));
        },
    };
    let v = if op == 0 {
        text_equal(&a, &b)
    } else if op == 1 {
        !text_equal(&a, &b)
    } else if op == 2 {
        text_less(&b, &a)
    } else if op == 3 {
        !text_less(&a, &b)
    } else if op == 4 {
        text_less(&a, &b)
    } else {
        !text_less(&b, &a)
    };
    Ok(heap.alloc_bool_instance(v))
}

impl ObjectString {
    /// `a + b`: the two strings one after the other.
    pub fn __add__(heap: &mut ObjectHeap, lhs: ObjectHandle, rhs: ObjectHandle) -> (r: Result<ObjectHandle, RuntimeErrorKind>)
        requires
            old(heap).wf(),
        ensures
            final(heap).wf(),
            ObjectHeap::only_adds(old(heap), final(heap)),
            match (str_arg(old(heap), lhs), str_arg(old(heap), rhs)) {
                (None, _) => wrong_type(old(heap), lhs, "string"@, r) && *final(heap) == *old(heap),
                (Some(_), None) => r matches Err(RuntimeErrorKind::BinaryOpTypeMismatch(o, t, u))
                    && o@ == "add"@ && t@ == "string"@ && u@ == type_name_of(old(heap), rhs)
                    && *final(heap) == *old(heap),
                (Some(a), Some(b)) => r matches Ok(h) && holds_str(final(heap), h, a + b),
            },
    {
        proof {
            crate::heap::lemma_only_adds_refl(heap);
        }
        let mut a = string_chars(heap, lhs)?;
        let b = match heap.get_string_instance(rhs) {
            Some(t) => chars_of(t.as_str()),
            None => return Err(RuntimeErrorKind::BinaryOpTypeMismatch("add", "string", heap.type_of(rhs))),
        };
        append_chars(&mut a, &b);
        Ok(alloc_chars(heap, a))
    }

    /// `a == b` on strings.
    pub fn __eq__(heap: &mut ObjectHeap, lhs: ObjectHandle, rhs: ObjectHandle) -> (r: Result<ObjectHandle, RuntimeErrorKind>)
        requires
            old(heap).wf(),
        ensures
            compared(old(heap), final(heap), lhs, rhs, 0, r),
    {
        compare_strings(heap, lhs, rhs, 0)
    }

    /// `a != b` on strings.
    pub fn __ne__(heap: &mut ObjectHeap, lhs: ObjectHandle, rhs: ObjectHandle) -> (r: Result<ObjectHandle, RuntimeErrorKind>)
        requires
            old(heap).wf(),
        ensures
            compared(old(heap), final(heap), lhs, rhs, 1, r),
    {
        compare_strings(heap, lhs, rhs, 1)
    }

    /// `a > b` on strings.
    pub fn __gt__(heap: &mut ObjectHeap, lhs: ObjectHandle, rhs: ObjectHandle) -> (r: Result<ObjectHandle, RuntimeErrorKind>)
        requires
            old(heap).wf(),
        ensures
            compared(old(heap), final(heap), lhs, rhs, 2, r),
    {
        compare_strings(heap, lhs, rhs, 2)
    }

    /// `a >= b` on strings.
    pub fn __ge__(heap: &mut ObjectHeap, lhs: ObjectHandle, rhs: ObjectHandle) -> (r: Result<ObjectHandle, RuntimeErrorKind>)
        requires
            old(heap).wf(),
        ensures
            compared(old(heap), final(heap), lhs, rhs, 3, r),
    {
        compare_strings(heap, lhs, rhs, 3)
    }

    /// `a < b` on strings.
    pub fn __lt__(heap: &mut ObjectHeap, lhs: ObjectHandle, rhs: ObjectHandle) -> (r: Result<ObjectHandle, RuntimeErrorKind>)
        requires
            old(heap).wf(),
        ensures
            compared(old(heap), final(heap), lhs, rhs, 4, r),
    {
        compare_strings(heap, lhs, rhs, 4)
    }

    /// `a <= b` on strings.
    pub fn __le__(heap: &mut ObjectHeap, lhs: ObjectHandle, rhs: ObjectHandle) -> (r: Result<ObjectHandle, RuntimeErrorKind>)
        requires
            old(heap).wf(),
        ensures
            compared(old(heap), final(heap), lhs, rhs, 5, r),
    {
        compare_strings(heap, lhs, rhs, 5)
    }

    /// `not s`: is the string empty?
    pub fn __not__(heap: &mut ObjectHeap, receiver: ObjectHandle) -> (r: Result<ObjectHandle, RuntimeErrorKind>)
        requires
            old(heap).wf(),
        ensures
            *final(heap) == *old(heap),
            match str_arg(old(heap), receiver) {
                Some(s) => r matches Ok(h) && holds_bool(final(heap), h, s.len() == 0),
                None => wrong_type(old(heap), receiver, "string"@, r),
            },
    {
        let cs = string_chars(heap, receiver)?;
        Ok(heap.alloc_bool_instance(cs.len() == 0))
    }

    /// `s.__str__()`: the string itself.
    pub fn __str__(heap: &mut ObjectHeap, receiver: ObjectHandle) -> (r: Result<ObjectHandle, RuntimeErrorKind>)
        ensures
            *final(heap) == *old(heap),
            r == Ok::<ObjectHandle, RuntimeErrorKind>(receiver),
    {
        Ok(receiver)
    }

    /// `s.__bool__()`: is the string non-empty?
    pub fn __bool__(heap: &mut ObjectHeap, receiver: ObjectHandle) -> (r: Result<ObjectHandle, RuntimeErrorKind>)
        requires
            old(heap).wf(),
        ensures
            *final(heap) == *old(heap),
            match str_arg(old(heap), receiver) {
                Some(s) => r matches Ok(h) && holds_bool(final(heap), h, s.len() > 0),
                None => wrong_type(old(heap), receiver, "string"@, r),
            },
    {
        let cs = string_chars(heap, receiver)?;
        Ok(heap.alloc_bool_instance(cs.len() > 0))
    }

    /// `s.is_empty()`.
    pub fn is_empty(heap: &mut ObjectHeap, receiver: ObjectHandle) -> (r: Result<ObjectHandle, RuntimeErrorKind>)
        requires
            old(heap).wf(),
        ensures
            *final(heap) == *old(heap),
            match str_arg(old(heap), receiver) {
                Some(s) => r matches Ok(h) && holds_bool(final(heap), h, s.len() == 0),
                None => wrong_type(old(heap), receiver, "string"@, r),
            },
    {
        let cs = string_chars(heap, receiver)?;
        Ok(heap.alloc_bool_instance(cs.len() == 0))
    }

    /// `s.__len__()`: the number of characters.
    pub fn __len__(heap: &mut ObjectHeap, receiver: ObjectHandle) -> (r: Result<ObjectHandle, RuntimeErrorKind>)
        requires
            old(heap).wf(),
        ensures
            final(heap).wf(),
            ObjectHeap::only_adds(old(heap), final(heap)),
            match str_arg(old(heap), receiver) {
                Some(s) => r matches Ok(h) && holds_int(final(heap), h, (s.len() as i64) as int),
                None => wrong_type(old(heap), receiver, "string"@, r) && *final(heap) == *old(heap),
            },
    {
        proof {
            crate::heap::lemma_only_adds_refl(heap);
        }
        let cs = string_chars(heap, receiver)?;
        Ok(heap.alloc_integer_instance(cs.len() as i64))
    }

    /// `s.len()`: the number of characters.
    pub fn len(heap: &mut ObjectHeap, receiver: ObjectHandle) -> (r: Result<ObjectHandle, RuntimeErrorKind>)
        requires
            old(heap).wf(),
        ensures
            final(heap).wf(),
            ObjectHeap::only_adds(old(heap), final(heap)),
            match str_arg(old(heap), receiver) {
                Some(s) => r matches Ok(h) && holds_int(final(heap), h, (s.len() as i64) as int),
                None => wrong_type(old(heap), receiver, "string"@, r) && *final(heap) == *old(heap),
            },
    {
        Self::__len__(heap, receiver)
    }

    /// `s.byte_len()`: the length of the UTF-8 encoding.
    pub fn byte_len(heap: &mut ObjectHeap, receiver: ObjectHandle) -> (r: Result<ObjectHandle, RuntimeErrorKind>)
        requires
            old(heap).wf(),
        ensures
            final(heap).wf(),
            ObjectHeap::only_adds(old(heap), final(heap)),
            match str_arg(old(heap), receiver) {
                Some(s) => r matches Ok(h)
                    && holds_int(final(heap), h, ((vstd::utf8::encode_utf8(s).len() as usize) as i64) as int),
                None => wrong_type(old(heap), receiver, "string"@, r) && *final(heap) == *old(heap),
            },
    {
        proof {
            crate::heap::lemma_only_adds_refl(heap);
        }
        let n = match heap.expect_string(receiver) {
            Ok(t) => t.as_str().len(),
            Err(e) => return Err(e),
        };
        Ok(heap.alloc_integer_instance(n as i64))
    }
}

// ========================================================================== //
//                    Searching
// ========================================================================== //

/// The heap holds, behind `h`, a list of strings with the texts `texts`.
pub open spec fn holds_str_list(heap: &ObjectHeap, h: ObjectHandle, texts: Seq<Seq<char>>) -> bool {
    &&& heap.live(h)
    &&& match list_of(heap.objs()[h.0 as int]) {
        Some(items) => items.len() == texts.len()
            && forall|j: int| 0 <= j < items.len() ==> holds_str(heap, #[trigger] items[j], texts[j]),
        None => false,
    }
}

/// The views of a vector of character vectors.
pub open spec fn texts_of(v: Seq<Vec<char>>) -> Seq<Seq<char>> {
    v.map_values(|t: Vec<char>| t@)
}

/// Number of matches of `p` in `s`, without overlap.
fn count_matches(s: &Vec<char>, p: &Vec<char>) -> (n: u128)
    ensures
        n == count_from(s@, p@, 0),
{
    if p.len() > s.len() {
        return 0;
    }
    let last = s.len() - p.len();
    let step = if p.len() == 0 { 1 } else { p.len() };
    let mut i: usize = 0;
    let mut n: u128 = 0;
    loop
        invariant
            last == s@.len() - p@.len(),
            step == step_past(p@),
            i <= last,
            n <= i,
            n + count_from(s@, p@, i as int) == count_from(s@, p@, 0),
        decreases last - i,
    {
        if occurs_here(s, p, i) {
            proof {
                assert(count_from(s@, p@, i as int) == 1 + count_from(s@, p@, i + step));
            }
            n = n + 1;
            if step > last - i {
                proof {
                    assert(count_from(s@, p@, i + step) == 0);
                }
                return n;
            }
            i = i + step;
        } else {
            proof {
                assert(count_from(s@, p@, i as int) == count_from(s@, p@, i + 1));
            }
            if i == last {
                proof {
                    assert(count_from(s@, p@, i + 1) == 0);
                }
                return n;
            }
            i = i + 1;
        }
    }
}

/// `s` with each match of `p` replaced by `q`.
fn replace_all(s: &Vec<char>, p: &Vec<char>, q: &Vec<char>) -> (r: Vec<char>)
    ensures
        r@ == replace_from(s@, p@, q@, 0),
{
    if p.len() > s.len() {
        return slice_chars(s, 0, s.len());
    }
    let n = s.len();
    let last = n - p.len();
    let mut i: usize = 0;
    let mut out: Vec<char> = Vec::new();
    loop
        invariant
            n == s@.len(),
            last == s@.len() - p@.len(),
            i <= last,
            out@ + replace_from(s@, p@, q@, i as int) == replace_from(s@, p@, q@, 0),
        decreases last - i,
    {
        let ghost before = out@;
        if occurs_here(s, p, i) {
            append_chars(&mut out, q);
            if p.len() == 0 {
                if i == n {
                    return out;
                }
                out.push(s[i]);
                proof {
                    assert(before + replace_from(s@, p@, q@, i as int)
                        =~= out@ + replace_from(s@, p@, q@, i + 1));
                }
                i = i + 1;
            } else {
                if p.len() > last - i {
                    let tail = slice_chars(s, i + p.len(), n);
                    append_chars(&mut out, &tail);
                    proof {
                        assert(replace_from(s@, p@, q@, i + p@.len()) == s@.subrange(i + p@.len(), n as int));
                        assert(replace_from(s@, p@, q@, i as int) == q@ + replace_from(s@, p@, q@, i + p@.len()));
                        assert(before + replace_from(s@, p@, q@, i as int) =~= out@);
                    }
                    return out;
                }
                proof {
                    assert(before + replace_from(s@, p@, q@, i as int)
                        =~= out@ + replace_from(s@, p@, q@, i + p@.len()));
                }
                i = i + p.len();
            }
        } else {
            proof {
                if p@.len() == 0 {
                    assert(s@.subrange(i as int, i as int) =~= p@);
                }
            }
            out.push(s[i]);
            if i == last {
                let tail = slice_chars(s, i + 1, n);
                append_chars(&mut out, &tail);
                proof {
                    assert(replace_from(s@, p@, q@, i + 1) == s@.subrange(i + 1, n as int));
                    assert(replace_from(s@, p@, q@, i as int) == seq![s@[i as int]] + replace_from(s@, p@, q@, i + 1));
                    assert(before + replace_from(s@, p@, q@, i as int) =~= out@);
                }
                return out;
            }
            proof {
                assert(before + replace_from(s@, p@, q@, i as int)
                    =~= out@ + replace_from(s@, p@, q@, i + 1));
            }
            i = i + 1;
        }
    }
}

/// The pieces of `s` between the matches of `d`.
fn split_pieces(s: &Vec<char>, d: &Vec<char>) -> (r: Vec<Vec<char>>)
    ensures
        texts_of(r@) == split_spec(s@, d@),
{
    let n = s.len();
    let mut out: Vec<Vec<char>> = Vec::new();
    if d.len() > n {
        out.push(slice_chars(s, 0, n));
        proof {
            assert(texts_of(out@) =~= split_spec(s@, d@));
        }
        return out;
    }
    let last = n - d.len();
    let step = if d.len() == 0 { 1 } else { d.len() };
    let mut i: usize = 0;
    let mut start: usize = 0;
    loop
        invariant
            n == s@.len(),
            last == s@.len() - d@.len(),
            step == step_past(d@),
            i <= last,
            start <= i,
            texts_of(out@) + split_from(s@, d@, start as int, i as int) == split_spec(s@, d@),
        decreases last - i,
    {
        let ghost before = texts_of(out@);
        let ghost old_start = start;
        if occurs_here(s, d, i) {
            out.push(slice_chars(s, start, i));
            start = i + d.len();
            proof {
                assert(split_from(s@, d@, old_start as int, i as int)
                    == seq![s@.subrange(old_start as int, i as int)] + split_from(s@, d@, start as int, i + step));
                assert(texts_of(out@) =~= before + seq![s@.subrange(old_start as int, i as int)]);
            }
            if step > last - i {
                out.push(slice_chars(s, start, n));
                proof {
                    assert(split_from(s@, d@, start as int, i + step) == seq![s@.subrange(start as int, n as int)]);
                    assert(before + split_from(s@, d@, old_start as int, i as int) =~= texts_of(out@));
                }
                return out;
            }
            proof {
                assert(before + split_from(s@, d@, old_start as int, i as int)
                    =~= texts_of(out@) + split_from(s@, d@, start as int, i + step));
            }
            i = i + step;
        } else {
            proof {
                assert(split_from(s@, d@, start as int, i as int) == split_from(s@, d@, start as int, i + 1));
            }
            if i == last {
                out.push(slice_chars(s, start, n));
                proof {
                    assert(split_from(s@, d@, start as int, i + 1) == seq![s@.subrange(start as int, n as int)]);
                    assert(before + split_from(s@, d@, start as int, i as int) =~= texts_of(out@));
                }
                return out;
            }
            i = i + 1;
        }
    }
}

/// The lines of `s`.
fn line_pieces(s: &Vec<char>) -> (r: Vec<Vec<char>>)
    ensures
        texts_of(r@) == lines_spec(s@),
{
    let n = s.len();
    let mut out: Vec<Vec<char>> = Vec::new();
    let mut i: usize = 0;
    let mut start: usize = 0;
    while i < n
        invariant
            n == s@.len(),
            start <= i <= n,
            texts_of(out@) + lines_from(s@, start as int, i as int) == lines_spec(s@),
        decreases n - i,
    {
        if s[i] == '\n' {
            let ghost before = texts_of(out@);
            let mut line = slice_chars(s, start, i);
            if line.len() > 0 && line[line.len() - 1] == '\r' {
                line.pop();
                proof {
                    assert(line@ =~= strip_cr(s@.subrange(start as int, i as int)));
                }
            }
            out.push(line);
            proof {
                assert(before + lines_from(s@, start as int, i as int)
                    =~= texts_of(out@) + lines_from(s@, i + 1, i + 1));
            }
            start = i + 1;
        }
        i = i + 1;
    }
    if start < n {
        let ghost before = texts_of(out@);
        out.push(slice_chars(s, start, n));
        proof {
            assert(before + lines_from(s@, start as int, i as int) =~= texts_of(out@));
        }
    } else {
        proof {
            assert(texts_of(out@) + lines_from(s@, start as int, i as int) =~= texts_of(out@));
        }
    }
    out
}

/// Allocate a list of the strings of `pieces`.
fn alloc_string_list(heap: &mut ObjectHeap, pieces: Vec<Vec<char>>) -> (h: ObjectHandle)
    requires
        old(heap).wf(),
    ensures
        final(heap).wf(),
        ObjectHeap::only_adds(old(heap), final(heap)),
        holds_str_list(final(heap), h, texts_of(pieces@)),
{
    let mut items: Vec<ObjectHandle> = Vec::new();
    let mut i: usize = 0;
    proof {
        crate::heap::lemma_only_adds_refl(heap);
    }
    while i < pieces.len()
        invariant
            i <= pieces@.len(),
            heap.wf(),
            ObjectHeap::only_adds(old(heap), heap),
            items@.len() == i,
            forall|j: int| 0 <= j < i ==> holds_str(heap, #[trigger] items@[j], pieces@[j]@),
        decreases pieces@.len() - i,
    {
        let ghost before = *heap;
        let h = alloc_chars(heap, pieces[i].clone());
        proof {
            assert forall|j: int| 0 <= j < i implies holds_str(heap, #[trigger] items@[j], pieces@[j]@) by {
                assert(holds_str(&before, items@[j], pieces@[j]@));
                assert(heap.objs()[items@[j].0 as int] == before.objs()[items@[j].0 as int]);
            }
        }
        items.push(h);
        i = i + 1;
    }
    let ghost before = *heap;
    let ghost snapshot = items@;
    let h = heap.alloc_list_instance(items);
    proof {
        lemma_fresh_only_adds(&before, heap, h);
        assert forall|j: int| 0 <= j < snapshot.len() implies holds_str(heap, #[trigger] snapshot[j], texts_of(pieces@)[j]) by {
            assert(holds_str(&before, snapshot[j], pieces@[j]@));
            assert(heap.objs()[snapshot[j].0 as int] == before.objs()[snapshot[j].0 as int]);
        }
    }
    h
}

impl ObjectString {
    /// `s.starts_with(p)`.
    pub fn starts_with(heap: &mut ObjectHeap, receiver: ObjectHandle, arg: ObjectHandle) -> (r: Result<ObjectHandle, RuntimeErrorKind>)
        requires
            old(heap).wf(),
        ensures
            *final(heap) == *old(heap),
            match (str_arg(old(heap), receiver), str_arg(old(heap), arg)) {
                (None, _) => wrong_type(old(heap), receiver, "string"@, r),
                (Some(_), None) => wrong_type(old(heap), arg, "string"@, r),
                (Some(s), Some(p)) => r matches Ok(h) && holds_bool(final(heap), h, has_prefix(s, p)),
            },
    {
        let s = string_chars(heap, receiver)?;
        let p = string_chars(heap, arg)?;
        let b = p.len() <= s.len() && occurs_here(&s, &p, 0);
        proof {
            assert(b == has_prefix(s@, p@));
        }
        Ok(heap.alloc_bool_instance(b))
    }

    /// `s.ends_with(p)`.
    pub fn ends_with(heap: &mut ObjectHeap, receiver: ObjectHandle, arg: ObjectHandle) -> (r: Result<ObjectHandle, RuntimeErrorKind>)
        requires
            old(heap).wf(),
        ensures
            *final(heap) == *old(heap),
            match (str_arg(old(heap), receiver), str_arg(old(heap), arg)) {
                (None, _) => wrong_type(old(heap), receiver, "string"@, r),
                (Some(_), None) => wrong_type(old(heap), arg, "string"@, r),
                (Some(s), Some(p)) => r matches Ok(h) && holds_bool(final(heap), h, has_suffix(s, p)),
            },
    {
        let s = string_chars(heap, receiver)?;
        let p = string_chars(heap, arg)?;
        let b = p.len() <= s.len() && occurs_here(&s, &p, s.len() - p.len());
        Ok(heap.alloc_bool_instance(b))
    }

    /// `s.contains(p)`: does `p` occur in `s`?
    pub fn contains(heap: &mut ObjectHeap, receiver: ObjectHandle, arg: ObjectHandle) -> (r: Result<ObjectHandle, RuntimeErrorKind>)
        requires
            old(heap).wf(),
        ensures
            *final(heap) == *old(heap),
            match (str_arg(old(heap), receiver), str_arg(old(heap), arg)) {
                (None, _) => wrong_type(old(heap), receiver, "string"@, r),
                (Some(_), None) => wrong_type(old(heap), arg, "string"@, r),
                (Some(s), Some(p)) => r matches Ok(h) && holds_bool(final(heap), h, occurs_in(s, p)),
            },
    {
        let s = string_chars(heap, receiver)?;
        let p = string_chars(heap, arg)?;
        let found = find_first(&s, &p);
        Ok(heap.alloc_bool_instance(found.is_some()))
    }

    /// `s.removeprefix(p)`: `s` without `p` in front, if it starts so.
    pub fn removeprefix(heap: &mut ObjectHeap, receiver: ObjectHandle, arg: ObjectHandle) -> (r: Result<ObjectHandle, RuntimeErrorKind>)
        requires
            old(heap).wf(),
        ensures
            final(heap).wf(),
            ObjectHeap::only_adds(old(heap), final(heap)),
            match (str_arg(old(heap), receiver), str_arg(old(heap), arg)) {
                (None, _) => wrong_type(old(heap), receiver, "string"@, r) && *final(heap) == *old(heap),
                (Some(_), None) => wrong_type(old(heap), arg, "string"@, r) && *final(heap) == *old(heap),
                (Some(s), Some(p)) => r matches Ok(h) && holds_str(final(heap), h,
                    if has_prefix(s, p) { s.subrange(p.len() as int, s.len() as int) } else { s }),
            },
    {
        proof {
            crate::heap::lemma_only_adds_refl(heap);
        }
        let s = string_chars(heap, receiver)?;
        let p = string_chars(heap, arg)?;
        let out = if p.len() <= s.len() && occurs_here(&s, &p, 0) {
            slice_chars(&s, p.len(), s.len())
        } else {
            slice_chars(&s, 0, s.len())
        };
        proof {
            assert(s@.subrange(0, s@.len() as int) =~= s@);
        }
        Ok(alloc_chars(heap, out))
    }

    /// `s.removesuffix(p)`: `s` without `p` at the end, if it ends so.
    pub fn removesuffix(heap: &mut ObjectHeap, receiver: ObjectHandle, arg: ObjectHandle) -> (r: Result<ObjectHandle, RuntimeErrorKind>)
        requires
            old(heap).wf(),
        ensures
            final(heap).wf(),
            ObjectHeap::only_adds(old(heap), final(heap)),
            match (str_arg(old(heap), receiver), str_arg(old(heap), arg)) {
                (None, _) => wrong_type(old(heap), receiver, "string"@, r) && *final(heap) == *old(heap),
                (Some(_), None) => wrong_type(old(heap), arg, "string"@, r) && *final(heap) == *old(heap),
                (Some(s), Some(p)) => r matches Ok(h) && holds_str(final(heap), h,
                    if has_suffix(s, p) { s.subrange(0, s.len() - p.len()) } else { s }),
            },
    {
        proof {
            crate::heap::lemma_only_adds_refl(heap);
        }
        let s = string_chars(heap, receiver)?;
        let p = string_chars(heap, arg)?;
        let out = if p.len() <= s.len() && occurs_here(&s, &p, s.len() - p.len()) {
            slice_chars(&s, 0, s.len() - p.len())
        } else {
            slice_chars(&s, 0, s.len())
        };
        proof {
            assert(s@.subrange(0, s@.len() as int) =~= s@);
        }
        Ok(alloc_chars(heap, out))
    }

    /// `s.find(p)`: the character index of the first occurrence of `p`,
    /// or -1.
    pub fn find(heap: &mut ObjectHeap, receiver: ObjectHandle, arg: ObjectHandle) -> (r: Result<ObjectHandle, RuntimeErrorKind>)
        requires
            old(heap).wf(),
        ensures
            final(heap).wf(),
            ObjectHeap::only_adds(old(heap), final(heap)),
            match (str_arg(old(heap), receiver), str_arg(old(heap), arg)) {
                (None, _) => wrong_type(old(heap), receiver, "string"@, r) && *final(heap) == *old(heap),
                (Some(_), None) => wrong_type(old(heap), arg, "string"@, r) && *final(heap) == *old(heap),
                (Some(s), Some(p)) => r matches Ok(h) && exists|k: int| #![trigger is_first_occurrence(s, p, k)]
                    is_first_occurrence(s, p, k) && holds_int(final(heap), h, (k as i64) as int),
            },
    {
        proof {
            crate::heap::lemma_only_adds_refl(heap);
        }
        let s = string_chars(heap, receiver)?;
        let p = string_chars(heap, arg)?;
        let v: i64 = match find_first(&s, &p) {
            Some(i) => i as i64,
            None => -1,
        };
        Ok(heap.alloc_integer_instance(v))
    }

    /// `s.rfind(p)`: the character index of the last occurrence of `p`, or
    /// -1.
    pub fn rfind(heap: &mut ObjectHeap, receiver: ObjectHandle, arg: ObjectHandle) -> (r: Result<ObjectHandle, RuntimeErrorKind>)
        requires
            old(heap).wf(),
        ensures
            final(heap).wf(),
            ObjectHeap::only_adds(old(heap), final(heap)),
            match (str_arg(old(heap), receiver), str_arg(old(heap), arg)) {
                (None, _) => wrong_type(old(heap), receiver, "string"@, r) && *final(heap) == *old(heap),
                (Some(_), None) => wrong_type(old(heap), arg, "string"@, r) && *final(heap) == *old(heap),
                (Some(s), Some(p)) => r matches Ok(h) && exists|k: int| #![trigger is_last_occurrence(s, p, k)]
                    is_last_occurrence(s, p, k) && holds_int(final(heap), h, (k as i64) as int),
            },
    {
        proof {
            crate::heap::lemma_only_adds_refl(heap);
        }
        let s = string_chars(heap, receiver)?;
        let p = string_chars(heap, arg)?;
        let v: i64 = match find_last(&s, &p) {
            Some(i) => i as i64,
            None => -1,
        };
        Ok(heap.alloc_integer_instance(v))
    }

    /// `s.count(p)`: the number of matches of `p`, without overlap.
    pub fn count(heap: &mut ObjectHeap, receiver: ObjectHandle, arg: ObjectHandle) -> (r: Result<ObjectHandle, RuntimeErrorKind>)
        requires
            old(heap).wf(),
        ensures
            final(heap).wf(),
            ObjectHeap::only_adds(old(heap), final(heap)),
            match (str_arg(old(heap), receiver), str_arg(old(heap), arg)) {
                (None, _) => wrong_type(old(heap), receiver, "string"@, r) && *final(heap) == *old(heap),
                (Some(_), None) => wrong_type(old(heap), arg, "string"@, r) && *final(heap) == *old(heap),
                (Some(s), Some(p)) => r matches Ok(h) && holds_int(final(heap), h, (count_from(s, p, 0) as i64) as int),
            },
    {
        proof {
            crate::heap::lemma_only_adds_refl(heap);
        }
        let s = string_chars(heap, receiver)?;
        let p = string_chars(heap, arg)?;
        let n = count_matches(&s, &p);
        Ok(heap.alloc_integer_instance(n as i64))
    }

    /// `s.replace(old, new)`: every match of `old`, left to right without
    /// overlap, replaced by `new`.
    pub fn replace(heap: &mut ObjectHeap, receiver: ObjectHandle, old_handle: ObjectHandle, new_handle: ObjectHandle) -> (r: Result<ObjectHandle, RuntimeErrorKind>)
        requires
            old(heap).wf(),
        ensures
            final(heap).wf(),
            ObjectHeap::only_adds(old(heap), final(heap)),
            match (str_arg(old(heap), receiver), str_arg(old(heap), old_handle), str_arg(old(heap), new_handle)) {
                (None, _, _) => wrong_type(old(heap), receiver, "string"@, r) && *final(heap) == *old(heap),
                (Some(_), None, _) => wrong_type(old(heap), old_handle, "string"@, r) && *final(heap) == *old(heap),
                (Some(_), Some(_), None) => wrong_type(old(heap), new_handle, "string"@, r) && *final(heap) == *old(heap),
                (Some(s), Some(p), Some(q)) => r matches Ok(h) && holds_str(final(heap), h, replace_from(s, p, q, 0)),
            },
    {
        proof {
            crate::heap::lemma_only_adds_refl(heap);
        }
        let s = string_chars(heap, receiver)?;
        let p = string_chars(heap, old_handle)?;
        let q = string_chars(heap, new_handle)?;
        let out = replace_all(&s, &p, &q);
        Ok(alloc_chars(heap, out))
    }

    /// `s.split(d)`: the pieces between the matches of `d`, as a list.
    pub fn split(heap: &mut ObjectHeap, receiver: ObjectHandle, delim_handle: ObjectHandle) -> (r: Result<ObjectHandle, RuntimeErrorKind>)
        requires
            old(heap).wf(),
        ensures
            final(heap).wf(),
            ObjectHeap::only_adds(old(heap), final(heap)),
            match (str_arg(old(heap), receiver), str_arg(old(heap), delim_handle)) {
                (None, _) => wrong_type(old(heap), receiver, "string"@, r) && *final(heap) == *old(heap),
                (Some(_), None) => wrong_type(old(heap), delim_handle, "string"@, r) && *final(heap) == *old(heap),
                (Some(s), Some(d)) => r matches Ok(h) && holds_str_list(final(heap), h, split_spec(s, d)),
            },
    {
        proof {
            crate::heap::lemma_only_adds_refl(heap);
        }
        let s = string_chars(heap, receiver)?;
        let d = string_chars(heap, delim_handle)?;
        let pieces = split_pieces(&s, &d);
        Ok(alloc_string_list(heap, pieces))
    }

    /// `s.rsplit(d)`: without a limit the same pieces as `split`.
    pub fn rsplit(heap: &mut ObjectHeap, receiver: ObjectHandle, delim_handle: ObjectHandle) -> (r: Result<ObjectHandle, RuntimeErrorKind>)
        requires
            old(heap).wf(),
        ensures
            final(heap).wf(),
            ObjectHeap::only_adds(old(heap), final(heap)),
            match (str_arg(old(heap), receiver), str_arg(old(heap), delim_handle)) {
                (None, _) => wrong_type(old(heap), receiver, "string"@, r) && *final(heap) == *old(heap),
                (Some(_), None) => wrong_type(old(heap), delim_handle, "string"@, r) && *final(heap) == *old(heap),
                (Some(s), Some(d)) => r matches Ok(h) && holds_str_list(final(heap), h, split_spec(s, d)),
            },
    {
        Self::split(heap, receiver, delim_handle)
    }

    /// `s.splitlines()`: the lines, as a list.
    pub fn splitlines(heap: &mut ObjectHeap, receiver: ObjectHandle) -> (r: Result<ObjectHandle, RuntimeErrorKind>)
        requires
            old(heap).wf(),
        ensures
            final(heap).wf(),
            ObjectHeap::only_adds(old(heap), final(heap)),
            match str_arg(old(heap), receiver) {
                None => wrong_type(old(heap), receiver, "string"@, r) && *final(heap) == *old(heap),
                Some(s) => r matches Ok(h) && holds_str_list(final(heap), h, lines_spec(s)),
            },
    {
        proof {
            crate::heap::lemma_only_adds_refl(heap);
        }
        let s = string_chars(heap, receiver)?;
        let pieces = line_pieces(&s);
        Ok(alloc_string_list(heap, pieces))
    }

    /// `s.partition(sep)`: the text before the first `sep`, `sep`, and the
    /// text after it; `[s, "", ""]` when `sep` does not occur.
    pub fn partition(heap: &mut ObjectHeap, receiver: ObjectHandle, sep_handle: ObjectHandle) -> (r: Result<ObjectHandle, RuntimeErrorKind>)
        requires
            old(heap).wf(),
        ensures
            final(heap).wf(),
            ObjectHeap::only_adds(old(heap), final(heap)),
            match (str_arg(old(heap), receiver), str_arg(old(heap), sep_handle)) {
                (None, _) => wrong_type(old(heap), receiver, "string"@, r) && *final(heap) == *old(heap),
                (Some(_), None) => wrong_type(old(heap), sep_handle, "string"@, r) && *final(heap) == *old(heap),
                (Some(s), Some(p)) => r matches Ok(h) && exists|k: int| #![trigger is_first_occurrence(s, p, k)]
                    is_first_occurrence(s, p, k) && holds_str_list(final(heap), h,
                        if k < 0 {
                            seq![s, Seq::empty(), Seq::empty()]
                        } else {
                            seq![s.subrange(0, k), p, s.subrange(k + p.len(), s.len() as int)]
                        }),
            },
    {
        proof {
            crate::heap::lemma_only_adds_refl(heap);
        }
        let s = string_chars(heap, receiver)?;
        let p = string_chars(heap, sep_handle)?;
        let found = find_first(&s, &p);
        let n = s.len();
        let pieces = match found {
            Some(k) => {
                proof {
                    assert(occurs_at(s@, p@, k as int));
                    assert(k + p@.len() <= n);
                }
                vec![slice_chars(&s, 0, k), slice_chars(&p, 0, p.len()), slice_chars(&s, k + p.len(), s.len())]
            },
            None => vec![slice_chars(&s, 0, s.len()), Vec::new(), Vec::new()],
        };
        proof {
            assert(s@.subrange(0, s@.len() as int) =~= s@);
            assert(p@.subrange(0, p@.len() as int) =~= p@);
            let k = match found { Some(k) => k as int, None => -1 };
            let texts = if k < 0 {
                seq![s@, Seq::<char>::empty(), Seq::<char>::empty()]
            } else {
                seq![s@.subrange(0, k), p@, s@.subrange(k + p@.len(), s@.len() as int)]
            };
            assert(texts_of(pieces@) =~= texts);
        }
        Ok(alloc_string_list(heap, pieces))
    }

    /// `s.rpartition(sep)`: the text before the last `sep`, `sep`, and the
    /// text after it; `["", "", s]` when `sep` does not occur.
    pub fn rpartition(heap: &mut ObjectHeap, receiver: ObjectHandle, sep_handle: ObjectHandle) -> (r: Result<ObjectHandle, RuntimeErrorKind>)
        requires
            old(heap).wf(),
        ensures
            final(heap).wf(),
            ObjectHeap::only_adds(old(heap), final(heap)),
            match (str_arg(old(heap), receiver), str_arg(old(heap), sep_handle)) {
                (None, _) => wrong_type(old(heap), receiver, "string"@, r) && *final(heap) == *old(heap),
                (Some(_), None) => wrong_type(old(heap), sep_handle, "string"@, r) && *final(heap) == *old(heap),
                (Some(s), Some(p)) => r matches Ok(h) && exists|k: int| #![trigger is_last_occurrence(s, p, k)]
                    is_last_occurrence(s, p, k) && holds_str_list(final(heap), h,
                        if k < 0 {
                            seq![Seq::empty(), Seq::empty(), s]
                        } else {
                            seq![s.subrange(0, k), p, s.subrange(k + p.len(), s.len() as int)]
                        }),
            },
    {
        proof {
            crate::heap::lemma_only_adds_refl(heap);
        }
        let s = string_chars(heap, receiver)?;
        let p = string_chars(heap, sep_handle)?;
        let found = find_last(&s, &p);
        let n = s.len();
        let pieces = match found {
            Some(k) => {
                proof {
                    assert(occurs_at(s@, p@, k as int));
                    assert(k + p@.len() <= n);
                }
                vec![slice_chars(&s, 0, k), slice_chars(&p, 0, p.len()), slice_chars(&s, k + p.len(), s.len())]
            },
            None => vec![Vec::new(), Vec::new(), slice_chars(&s, 0, s.len())],
        };
        proof {
            assert(s@.subrange(0, s@.len() as int) =~= s@);
            assert(p@.subrange(0, p@.len() as int) =~= p@);
            let k = match found { Some(k) => k as int, None => -1 };
            let texts = if k < 0 {
                seq![Seq::<char>::empty(), Seq::<char>::empty(), s@]
            } else {
                seq![s@.subrange(0, k), p@, s@.subrange(k + p@.len(), s@.len() as int)]
            };
            assert(texts_of(pieces@) =~= texts);
        }
        Ok(alloc_string_list(heap, pieces))
    }
}

// ========================================================================== //
//                    Slicing, padding, trimming
// ========================================================================== //

/// The start of `substr`: a negative start counts from the end, and the
/// start is kept within the string.
pub open spec fn substr_start(n: int, start: int) -> int {
    if start < 0 {
        if n + start < 0 {
            0
        } else {
            n + start
        }
    } else if start > n {
        n
    } else {
        start
    }
}

/// `s.substr(start, length)`: at most `length` characters from the start.
pub open spec fn substr_spec(s: Seq<char>, start: int, length: int) -> Seq<char> {
    let n = s.len() as int;
    let b = substr_start(n, start);
    if b >= n || length <= 0 {
        Seq::empty()
    } else {
        let e = if b + length > n { n } else { b + length };
        s.subrange(b, e)
    }
}

/// The fill character: the first character of `f`, or a space.
pub open spec fn fill_of(f: Seq<char>) -> char {
    if f.len() > 0 {
        f[0]
    } else {
        ' '
    }
}

/// `s` centred in `width` characters of `c`, the odd one on the right.
pub open spec fn center_spec(s: Seq<char>, width: int, c: char) -> Seq<char> {
    if width <= s.len() {
        s
    } else {
        let left = (width - s.len()) / 2;
        let right = width - s.len() - left;
        fill_chars(c, left as nat) + s + fill_chars(c, right as nat)
    }
}

/// `s` followed by `c` up to `width` characters.
pub open spec fn ljust_spec(s: Seq<char>, width: int, c: char) -> Seq<char> {
    if width <= s.len() {
        s
    } else {
        s + fill_chars(c, (width - s.len()) as nat)
    }
}

/// `s` preceded by `c` up to `width` characters.
pub open spec fn rjust_spec(s: Seq<char>, width: int, c: char) -> Seq<char> {
    if width <= s.len() {
        s
    } else {
        fill_chars(c, (width - s.len()) as nat) + s
    }
}

/// Widths that a padding method can allocate.
pub open spec fn sane_width(w: i64) -> bool {
    0 <= w && w * 4 <= isize::MAX
}

/// The padding methods' inputs, with the width within what can be
/// allocated.
pub open spec fn width_ok(heap: &ObjectHeap, width_handle: ObjectHandle) -> bool {
    match int_arg(heap, width_handle) {
        Some(w) => sane_width(w),
        None => true,
    }
}

/// The result of a padding method: the receiver itself when it is wide
/// enough, else a string with the padded text.
pub open spec fn padded(new_heap: &ObjectHeap, receiver: ObjectHandle, s: Seq<char>, width: int, text: Seq<char>, h: ObjectHandle) -> bool {
    if width <= s.len() {
        h == receiver
    } else {
        holds_str(new_heap, h, text)
    }
}

/// Index of the first character not in white space, from `i` on.
fn skip_white(cs: &Vec<char>, i: usize) -> (r: usize)
    requires
        i <= cs@.len(),
    ensures
        r == trim_start_index(cs@, i as int),
        i <= r <= cs@.len(),
    decreases cs@.len() - i,
{
    if i < cs.len() && crate::repl::white_space(cs[i]) {
        skip_white(cs, i + 1)
    } else {
        i
    }
}

/// Pad `s` on the left by `left` and on the right by `right` copies of `c`.
fn pad_chars(s: &Vec<char>, c: char, left: usize, right: usize) -> (r: Vec<char>)
    ensures
        r@ == fill_chars(c, left as nat) + s@ + fill_chars(c, right as nat),
{
    let mut out: Vec<char> = Vec::new();
    append_fill(&mut out, c, left);
    append_chars(&mut out, s);
    append_fill(&mut out, c, right);
    proof {
        assert(out@ =~= fill_chars(c, left as nat) + s@ + fill_chars(c, right as nat));
    }
    out
}

/// The fill character of the string behind `h`.
fn fill_char_of(heap: &ObjectHeap, h: ObjectHandle) -> (r: Result<char, RuntimeErrorKind>)
    ensures
        match str_arg(heap, h) {
            Some(f) => r == Ok::<char, RuntimeErrorKind>(fill_of(f)),
            None => r matches Err(e) && is_type_mismatch(e, "string"@, type_name_of(heap, h)),
        },
{
    let f = string_chars(heap, h)?;
    if f.len() > 0 {
        Ok(f[0])
    } else {
        Ok(' ')
    }
}

/// The integer behind `h`, or a type mismatch.
fn int_value(heap: &ObjectHeap, h: ObjectHandle) -> (r: Result<i64, RuntimeErrorKind>)
    ensures
        match int_arg(heap, h) {
            Some(v) => r == Ok::<i64, RuntimeErrorKind>(v),
            None => r matches Err(e) && is_type_mismatch(e, "int"@, type_name_of(heap, h)),
        },
{
    heap.expect_integer(h)
}

impl ObjectString {
    /// `s.substr(start, length)`: at most `length` characters from `start`
    /// (a negative start counts from the end).
    pub fn substr(heap: &mut ObjectHeap, receiver: ObjectHandle, start_handle: ObjectHandle, length_handle: ObjectHandle) -> (r: Result<ObjectHandle, RuntimeErrorKind>)
        requires
            old(heap).wf(),
        ensures
            final(heap).wf(),
            ObjectHeap::only_adds(old(heap), final(heap)),
            match (str_arg(old(heap), receiver), int_arg(old(heap), start_handle), int_arg(old(heap), length_handle)) {
                (None, _, _) => wrong_type(old(heap), receiver, "string"@, r) && *final(heap) == *old(heap),
                (Some(_), None, _) => wrong_type(old(heap), start_handle, "int"@, r) && *final(heap) == *old(heap),
                (Some(_), Some(_), None) => wrong_type(old(heap), length_handle, "int"@, r) && *final(heap) == *old(heap),
                (Some(s), Some(b), Some(l)) => r matches Ok(h) && holds_str(final(heap), h, substr_spec(s, b as int, l as int)),
            },
    {
        proof {
            crate::heap::lemma_only_adds_refl(heap);
        }
        let s = string_chars(heap, receiver)?;
        let start = int_value(heap, start_handle)?;
        let length = int_value(heap, length_handle)?;
        let n = s.len();
        let n128 = n as i128;
        let b: i128 = if start < 0 {
            if n128 + (start as i128) < 0 { 0 } else { n128 + start as i128 }
        } else if start as i128 > n128 {
            n128
        } else {
            start as i128
        };
        if b >= n128 || length <= 0 {
            return Ok(alloc_chars(heap, Vec::new()));
        }
        let e: i128 = if b + length as i128 > n128 { n128 } else { b + length as i128 };
        let out = slice_chars(&s, b as usize, e as usize);
        Ok(alloc_chars(heap, out))
    }

    /// `s.repeat(n)`: `n` copies of `s`; a negative count is an error.
    pub fn repeat(heap: &mut ObjectHeap, receiver: ObjectHandle, n_handle: ObjectHandle) -> (r: Result<ObjectHandle, RuntimeErrorKind>)
        requires
            old(heap).wf(),
            match (str_arg(old(heap), receiver), int_arg(old(heap), n_handle)) {
                (Some(s), Some(k)) => k > 0 ==> s.len() * k <= usize::MAX,
                _ => true,
            },
        ensures
            final(heap).wf(),
            ObjectHeap::only_adds(old(heap), final(heap)),
            match (str_arg(old(heap), receiver), int_arg(old(heap), n_handle)) {
                (None, _) => wrong_type(old(heap), receiver, "string"@, r) && *final(heap) == *old(heap),
                (Some(_), None) => wrong_type(old(heap), n_handle, "int"@, r) && *final(heap) == *old(heap),
                (Some(s), Some(k)) => if k < 0 {
                    r == Err::<ObjectHandle, RuntimeErrorKind>(RuntimeErrorKind::IndexOutOfRange(k, 0))
                        && *final(heap) == *old(heap)
                } else {
                    r matches Ok(h) && holds_str(final(heap), h, repeat_spec(s, k as nat))
                },
            },
    {
        proof {
            crate::heap::lemma_only_adds_refl(heap);
        }
        let s = string_chars(heap, receiver)?;
        let k = int_value(heap, n_handle)?;
        if k < 0 {
            return Err(RuntimeErrorKind::IndexOutOfRange(k, 0));
        }
        let mut out: Vec<char> = Vec::new();
        let mut i: i64 = 0;
        while i < k
            invariant
                0 <= i <= k,
                out@ == repeat_spec(s@, i as nat),
            decreases k - i,
        {
            append_chars(&mut out, &s);
            i = i + 1;
        }
        Ok(alloc_chars(heap, out))
    }

    /// `s.center(width, fill)`: `s` centred in `width` characters of the
    /// first character of `fill` (a space if it is empty), the odd one on
    /// the right; `s` itself when it is wide enough.
    pub fn center(heap: &mut ObjectHeap, receiver: ObjectHandle, width_handle: ObjectHandle, fillchar_handle: ObjectHandle) -> (r: Result<ObjectHandle, RuntimeErrorKind>)
        requires
            old(heap).wf(),
            width_ok(old(heap), width_handle),
        ensures
            final(heap).wf(),
            ObjectHeap::only_adds(old(heap), final(heap)),
            match (str_arg(old(heap), receiver), int_arg(old(heap), width_handle), str_arg(old(heap), fillchar_handle)) {
                (None, _, _) => wrong_type(old(heap), receiver, "string"@, r) && *final(heap) == *old(heap),
                (Some(_), None, _) => wrong_type(old(heap), width_handle, "int"@, r) && *final(heap) == *old(heap),
                (Some(_), Some(_), None) => wrong_type(old(heap), fillchar_handle, "string"@, r) && *final(heap) == *old(heap),
                (Some(s), Some(w), Some(f)) => r matches Ok(h)
                    && padded(final(heap), receiver, s, w as int, center_spec(s, w as int, fill_of(f)), h),
            },
    {
        proof {
            crate::heap::lemma_only_adds_refl(heap);
        }
        let s = string_chars(heap, receiver)?;
        let w = int_value(heap, width_handle)?;
        let c = fill_char_of(heap, fillchar_handle)?;
        let width = w as usize;
        if width <= s.len() {
            return Ok(receiver);
        }
        let left = (width - s.len()) / 2;
        let right = width - s.len() - left;
        let out = pad_chars(&s, c, left, right);
        Ok(alloc_chars(heap, out))
    }

    /// `s.ljust(width, fill)`: `s` followed by the fill character up to
    /// `width` characters; `s` itself when it is wide enough.
    pub fn ljust(heap: &mut ObjectHeap, receiver: ObjectHandle, width_handle: ObjectHandle, fillchar_handle: ObjectHandle) -> (r: Result<ObjectHandle, RuntimeErrorKind>)
        requires
            old(heap).wf(),
            width_ok(old(heap), width_handle),
        ensures
            final(heap).wf(),
            ObjectHeap::only_adds(old(heap), final(heap)),
            match (str_arg(old(heap), receiver), int_arg(old(heap), width_handle), str_arg(old(heap), fillchar_handle)) {
                (None, _, _) => wrong_type(old(heap), receiver, "string"@, r) && *final(heap) == *old(heap),
                (Some(_), None, _) => wrong_type(old(heap), width_handle, "int"@, r) && *final(heap) == *old(heap),
                (Some(_), Some(_), None) => wrong_type(old(heap), fillchar_handle, "string"@, r) && *final(heap) == *old(heap),
                (Some(s), Some(w), Some(f)) => r matches Ok(h)
                    && padded(final(heap), receiver, s, w as int, ljust_spec(s, w as int, fill_of(f)), h),
            },
    {
        proof {
            crate::heap::lemma_only_adds_refl(heap);
        }
        let s = string_chars(heap, receiver)?;
        let w = int_value(heap, width_handle)?;
        let c = fill_char_of(heap, fillchar_handle)?;
        let width = w as usize;
        if width <= s.len() {
            return Ok(receiver);
        }
        let out = pad_chars(&s, c, 0, width - s.len());
        proof {
            assert(fill_chars(c, 0) + s@ =~= s@);
        }
        Ok(alloc_chars(heap, out))
    }

    /// `s.rjust(width, fill)`: `s` preceded by the fill character up to
    /// `width` characters; `s` itself when it is wide enough.
    pub fn rjust(heap: &mut ObjectHeap, receiver: ObjectHandle, width_handle: ObjectHandle, fillchar_handle: ObjectHandle) -> (r: Result<ObjectHandle, RuntimeErrorKind>)
        requires
            old(heap).wf(),
            width_ok(old(heap), width_handle),
        ensures
            final(heap).wf(),
            ObjectHeap::only_adds(old(heap), final(heap)),
            match (str_arg(old(heap), receiver), int_arg(old(heap), width_handle), str_arg(old(heap), fillchar_handle)) {
                (None, _, _) => wrong_type(old(heap), receiver, "string"@, r) && *final(heap) == *old(heap),
                (Some(_), None, _) => wrong_type(old(heap), width_handle, "int"@, r) && *final(heap) == *old(heap),
                (Some(_), Some(_), None) => wrong_type(old(heap), fillchar_handle, "string"@, r) && *final(heap) == *old(heap),
                (Some(s), Some(w), Some(f)) => r matches Ok(h)
                    && padded(final(heap), receiver, s, w as int, rjust_spec(s, w as int, fill_of(f)), h),
            },
    {
        proof {
            crate::heap::lemma_only_adds_refl(heap);
        }
        let s = string_chars(heap, receiver)?;
        let w = int_value(heap, width_handle)?;
        let c = fill_char_of(heap, fillchar_handle)?;
        let width = w as usize;
        if width <= s.len() {
            return Ok(receiver);
        }
        let out = pad_chars(&s, c, width - s.len(), 0);
        proof {
            assert(fill_chars(c, (width - s@.len()) as nat) + s@ + fill_chars(c, 0)
                =~= fill_chars(c, (width - s@.len()) as nat) + s@);
        }
        Ok(alloc_chars(heap, out))
    }

    /// `s.zfill(width)`: `s` preceded by zeros up to `width` characters;
    /// `s` itself when it is wide enough.
    pub fn zfill(heap: &mut ObjectHeap, receiver: ObjectHandle, width_handle: ObjectHandle) -> (r: Result<ObjectHandle, RuntimeErrorKind>)
        requires
            old(heap).wf(),
            width_ok(old(heap), width_handle),
        ensures
            final(heap).wf(),
            ObjectHeap::only_adds(old(heap), final(heap)),
            match (str_arg(old(heap), receiver), int_arg(old(heap), width_handle)) {
                (None, _) => wrong_type(old(heap), receiver, "string"@, r) && *final(heap) == *old(heap),
                (Some(_), None) => wrong_type(old(heap), width_handle, "int"@, r) && *final(heap) == *old(heap),
                (Some(s), Some(w)) => r matches Ok(h)
                    && padded(final(heap), receiver, s, w as int, rjust_spec(s, w as int, '0'), h),
            },
    {
        proof {
            crate::heap::lemma_only_adds_refl(heap);
        }
        let s = string_chars(heap, receiver)?;
        let w = int_value(heap, width_handle)?;
        let width = w as usize;
        if width <= s.len() {
            return Ok(receiver);
        }
        let out = pad_chars(&s, '0', width - s.len(), 0);
        proof {
            assert(fill_chars('0', (width - s@.len()) as nat) + s@ + fill_chars('0', 0)
                =~= fill_chars('0', (width - s@.len()) as nat) + s@);
        }
        Ok(alloc_chars(heap, out))
    }

    /// `s[i]`: the character at `i` as a string; a negative `i` counts from
    /// the end.
    pub fn __getitem__(heap: &mut ObjectHeap, receiver: ObjectHandle, idx_handle: ObjectHandle) -> (r: Result<ObjectHandle, RuntimeErrorKind>)
        requires
            old(heap).wf(),
        ensures
            final(heap).wf(),
            ObjectHeap::only_adds(old(heap), final(heap)),
            match (str_arg(old(heap), receiver), int_arg(old(heap), idx_handle)) {
                (None, _) => wrong_type(old(heap), receiver, "string"@, r) && *final(heap) == *old(heap),
                (Some(_), None) => wrong_type(old(heap), idx_handle, "int"@, r) && *final(heap) == *old(heap),
                (Some(s), Some(v)) => {
                    let i = if v < 0 { s.len() + v } else { v as int };
                    if 0 <= i < s.len() {
                        r matches Ok(h) && holds_str(final(heap), h, seq![s[i]])
                    } else {
                        r == Err::<ObjectHandle, RuntimeErrorKind>(RuntimeErrorKind::IndexOutOfRange(i as i64, s.len() as usize))
                            && *final(heap) == *old(heap)
                    }
                },
            },
    {
        proof {
            crate::heap::lemma_only_adds_refl(heap);
        }
        let s = string_chars(heap, receiver)?;
        let v = int_value(heap, idx_handle)?;
        let len = s.len();
        let i: i128 = if v < 0 { len as i128 + v as i128 } else { v as i128 };
        if i < 0 || i >= len as i128 {
            return Err(RuntimeErrorKind::IndexOutOfRange(i as i64, len));
        }
        let out = vec![s[i as usize]];
        proof {
            assert(out@ =~= seq![s@[i as int]]);
        }
        Ok(alloc_chars(heap, out))
    }

    /// `s.__iter__()`: an iterator over the characters, at the start.
    pub fn __iter__(heap: &mut ObjectHeap, receiver: ObjectHandle) -> (r: Result<ObjectHandle, RuntimeErrorKind>)
        requires
            old(heap).wf(),
        ensures
            final(heap).wf(),
            ObjectHeap::only_adds(old(heap), final(heap)),
            r matches Ok(h) && ObjectHeap::fresh_slot(old(heap), final(heap), h)
                && string_iter_of(final(heap).objs()[h.0 as int]) == Some(ObjectStringIterator { string_handle: receiver, char_index: 0 }),
    {
        let class = heap.string_iter_class();
        let h = heap.alloc_instance(class, InstanceData::StringIter(ObjectStringIterator::new(receiver)));
        proof {
            lemma_fresh_only_adds(old(heap), heap, h);
        }
        Ok(h)
    }

    /// `iterator.__next__()`: the next character as a string, moving the
    /// iterator on, or the end-of-iteration marker.
    pub fn iter_next(heap: &mut ObjectHeap, receiver: ObjectHandle) -> (r: Result<ObjectHandle, RuntimeErrorKind>)
        requires
            old(heap).wf(),
        ensures
            final(heap).wf(),
            match live_view(old(heap), receiver, |o: Option<Object>| string_iter_of(o)) {
                None => wrong_type(old(heap), receiver, "string iterator"@, r) && *final(heap) == *old(heap),
                Some(it) => match str_arg(old(heap), it.string_handle) {
                    None => wrong_type(old(heap), it.string_handle, "string"@, r) && *final(heap) == *old(heap),
                    Some(s) => if it.char_index >= s.len() {
                        r == Ok::<ObjectHandle, RuntimeErrorKind>(ObjectHandle(1)) && *final(heap) == *old(heap)
                    } else {
                        &&& r matches Ok(h) && holds_str(final(heap), h, seq![s[it.char_index as int]])
                        &&& live_view(final(heap), receiver, |o: Option<Object>| string_iter_of(o))
                            == Some(ObjectStringIterator { string_handle: it.string_handle, char_index: (it.char_index + 1) as usize })
                        &&& str_arg(final(heap), it.string_handle) == Some(s)
                    },
                },
            },
    {
        let it = match heap.expect_string_iter(receiver) {
            Ok(it) => it,
            Err(e) => return Err(e),
        };
        let s = string_chars(heap, it.string_handle)?;
        if it.char_index >= s.len() {
            return Ok(ObjectHandle::iter_end());
        }
        let c = s[it.char_index];
        heap.set_instance_data(receiver, InstanceData::StringIter(ObjectStringIterator { string_handle: it.string_handle, char_index: it.char_index + 1 }));
        let ghost mid = *heap;
        let v = vec![c];
        proof {
            assert(v@ =~= seq![s@[it.char_index as int]]);
        }
        let h = alloc_chars(heap, v);
        proof {
            assert(heap.objs()[receiver.0 as int] == mid.objs()[receiver.0 as int]);
            assert(heap.objs()[it.string_handle.0 as int] == mid.objs()[it.string_handle.0 as int]);
        }
        Ok(h)
    }

    /// `s.trim()`: `s` without leading and trailing white space.
    pub fn trim(heap: &mut ObjectHeap, receiver: ObjectHandle) -> (r: Result<ObjectHandle, RuntimeErrorKind>)
        requires
            old(heap).wf(),
        ensures
            final(heap).wf(),
            ObjectHeap::only_adds(old(heap), final(heap)),
            match str_arg(old(heap), receiver) {
                None => wrong_type(old(heap), receiver, "string"@, r) && *final(heap) == *old(heap),
                Some(s) => r matches Ok(h) && holds_str(final(heap), h, trim_start_spec(trim_end_spec(s))),
            },
    {
        proof {
            crate::heap::lemma_only_adds_refl(heap);
        }
        let s = string_chars(heap, receiver)?;
        let t = crate::repl::trim_end(&s);
        let b = skip_white(&t, 0);
        let out = slice_chars(&t, b, t.len());
        Ok(alloc_chars(heap, out))
    }

    /// `s.trim_start()`: `s` without leading white space.
    pub fn trim_start(heap: &mut ObjectHeap, receiver: ObjectHandle) -> (r: Result<ObjectHandle, RuntimeErrorKind>)
        requires
            old(heap).wf(),
        ensures
            final(heap).wf(),
            ObjectHeap::only_adds(old(heap), final(heap)),
            match str_arg(old(heap), receiver) {
                None => wrong_type(old(heap), receiver, "string"@, r) && *final(heap) == *old(heap),
                Some(s) => r matches Ok(h) && holds_str(final(heap), h, trim_start_spec(s)),
            },
    {
        proof {
            crate::heap::lemma_only_adds_refl(heap);
        }
        let s = string_chars(heap, receiver)?;
        let b = skip_white(&s, 0);
        let out = slice_chars(&s, b, s.len());
        Ok(alloc_chars(heap, out))
    }

    /// `s.trim_end()`: `s` without trailing white space.
    pub fn trim_end(heap: &mut ObjectHeap, receiver: ObjectHandle) -> (r: Result<ObjectHandle, RuntimeErrorKind>)
        requires
            old(heap).wf(),
        ensures
            final(heap).wf(),
            ObjectHeap::only_adds(old(heap), final(heap)),
            match str_arg(old(heap), receiver) {
                None => wrong_type(old(heap), receiver, "string"@, r) && *final(heap) == *old(heap),
                Some(s) => r matches Ok(h) && holds_str(final(heap), h, trim_end_spec(s)),
            },
    {
        proof {
            crate::heap::lemma_only_adds_refl(heap);
        }
        let s = string_chars(heap, receiver)?;
        let out = crate::repl::trim_end(&s);
        Ok(alloc_chars(heap, out))
    }

    /// `s.is_ascii()`: is every character ASCII?
    pub fn is_ascii(heap: &mut ObjectHeap, receiver: ObjectHandle) -> (r: Result<ObjectHandle, RuntimeErrorKind>)
        requires
            old(heap).wf(),
        ensures
            *final(heap) == *old(heap),
            match str_arg(old(heap), receiver) {
                None => wrong_type(old(heap), receiver, "string"@, r),
                Some(s) => r matches Ok(h) && holds_bool(final(heap), h, all_ascii(s)),
            },
    {
        let s = string_chars(heap, receiver)?;
        let mut i: usize = 0;
        let mut ok = true;
        while i < s.len()
            invariant
                i <= s@.len(),
                ok == (forall|j: int| 0 <= j < i ==> (#[trigger] s@[j] as u32) < 128),
            decreases s@.len() - i,
        {
            ok = ok && (s[i] as u32) < 128;
            i = i + 1;
        }
        Ok(heap.alloc_bool_instance(ok))
    }

    /// `s.is_decimal()`: is the string non-empty and all ASCII digits?
    pub fn is_decimal(heap: &mut ObjectHeap, receiver: ObjectHandle) -> (r: Result<ObjectHandle, RuntimeErrorKind>)
        requires
            old(heap).wf(),
        ensures
            *final(heap) == *old(heap),
            match str_arg(old(heap), receiver) {
                None => wrong_type(old(heap), receiver, "string"@, r),
                Some(s) => r matches Ok(h) && holds_bool(final(heap), h, all_ascii_digits(s)),
            },
    {
        let s = string_chars(heap, receiver)?;
        let mut i: usize = 0;
        let mut ok = s.len() > 0;
        while i < s.len()
            invariant
                i <= s@.len(),
                ok == (s@.len() > 0 && forall|j: int| 0 <= j < i ==> '0' <= #[trigger] s@[j] <= '9'),
            decreases s@.len() - i,
        {
            ok = ok && '0' <= s[i] && s[i] <= '9';
            i = i + 1;
        }
        Ok(heap.alloc_bool_instance(ok))
    }

    /// `s.is_digit()`: is the string non-empty and all ASCII digits?
    pub fn is_digit(heap: &mut ObjectHeap, receiver: ObjectHandle) -> (r: Result<ObjectHandle, RuntimeErrorKind>)
        requires
            old(heap).wf(),
        ensures
            *final(heap) == *old(heap),
            match str_arg(old(heap), receiver) {
                None => wrong_type(old(heap), receiver, "string"@, r),
                Some(s) => r matches Ok(h) && holds_bool(final(heap), h, all_ascii_digits(s)),
            },
    {
        Self::is_decimal(heap, receiver)
    }

    /// `s.is_whitespace()`: is the string non-empty and all white space?
    pub fn is_whitespace(heap: &mut ObjectHeap, receiver: ObjectHandle) -> (r: Result<ObjectHandle, RuntimeErrorKind>)
        requires
            old(heap).wf(),
        ensures
            *final(heap) == *old(heap),
            match str_arg(old(heap), receiver) {
                None => wrong_type(old(heap), receiver, "string"@, r),
                Some(s) => r matches Ok(h) && holds_bool(final(heap), h, all_white_space(s)),
            },
    {
        let s = string_chars(heap, receiver)?;
        let mut i: usize = 0;
        let mut ok = s.len() > 0;
        while i < s.len()
            invariant
                i <= s@.len(),
                ok == (s@.len() > 0 && forall|j: int| 0 <= j < i ==> is_white_space(#[trigger] s@[j])),
            decreases s@.len() - i,
        {
            ok = ok && crate::repl::white_space(s[i]);
            i = i + 1;
        }
        Ok(heap.alloc_bool_instance(ok))
    }
}

// ========================================================================== //
//                    Letter case and character classes
// ========================================================================== //

/// Whether `char::is_uppercase` holds of `c` (Unicode `Uppercase`).
pub uninterp spec fn char_is_uppercase(c: char) -> bool;

/// Whether `char::is_lowercase` holds of `c` (Unicode `Lowercase`).
pub uninterp spec fn char_is_lowercase(c: char) -> bool;

/// Whether `char::is_alphabetic` holds of `c` (Unicode `Alphabetic`).
pub uninterp spec fn char_is_alphabetic(c: char) -> bool;

/// Whether `char::is_numeric` holds of `c` (general categories `Nd`, `Nl`,
/// `No`).
pub uninterp spec fn char_is_numeric(c: char) -> bool;

/// The characters `char::to_uppercase` gives for `c`.
pub uninterp spec fn char_to_upper(c: char) -> Seq<char>;

/// The characters `char::to_lowercase` gives for `c`.
pub uninterp spec fn char_to_lower(c: char) -> Seq<char>;

/// What `str::to_uppercase` gives for `s`.
pub uninterp spec fn str_to_upper(s: Seq<char>) -> Seq<char>;

/// What `str::to_lowercase` gives for `s`.
pub uninterp spec fn str_to_lower(s: Seq<char>) -> Seq<char>;

/// What `std`'s default hasher gives for a string.
pub uninterp spec fn default_hash_of_str(s: Seq<char>) -> u64;

/// `char::is_alphanumeric`: alphabetic or numeric.
pub open spec fn char_is_alphanumeric(c: char) -> bool {
    char_is_alphabetic(c) || char_is_numeric(c)
}

/// `char::is_uppercase` of `c`.
#[verifier::external_body]
fn upper_char(c: char) -> (b: bool)
    ensures
        b == char_is_uppercase(c),
{
    c.is_uppercase()
}

/// `char::is_lowercase` of `c`.
#[verifier::external_body]
fn lower_char(c: char) -> (b: bool)
    ensures
        b == char_is_lowercase(c),
{
    c.is_lowercase()
}

/// `char::is_alphabetic` of `c`.
#[verifier::external_body]
fn alphabetic_char(c: char) -> (b: bool)
    ensures
        b == char_is_alphabetic(c),
{
    c.is_alphabetic()
}

/// `char::is_numeric` of `c`.
#[verifier::external_body]
fn numeric_char(c: char) -> (b: bool)
    ensures
        b == char_is_numeric(c),
{
    c.is_numeric()
}

/// `char::is_alphanumeric` of `c`, which the documentation defines as
/// `is_alphabetic() || is_numeric()`.
#[verifier::external_body]
fn alphanumeric_char(c: char) -> (b: bool)
    ensures
        b == char_is_alphanumeric(c),
{
    c.is_alphanumeric()
}

/// The characters of `char::to_uppercase` of `c`.
#[verifier::external_body]
fn to_upper_char(c: char) -> (r: Vec<char>)
    ensures
        r@ == char_to_upper(c),
{
    c.to_uppercase().collect()
}

/// The characters of `char::to_lowercase` of `c`.
#[verifier::external_body]
fn to_lower_char(c: char) -> (r: Vec<char>)
    ensures
        r@ == char_to_lower(c),
{
    c.to_lowercase().collect()
}

/// `str::to_uppercase` of `s`.
#[verifier::external_body]
fn to_upper_str(s: &str) -> (r: String)
    ensures
        r@ == str_to_upper(s@),
{
    s.to_uppercase()
}

/// `str::to_lowercase` of `s`.
#[verifier::external_body]
fn to_lower_str(s: &str) -> (r: String)
    ensures
        r@ == str_to_lower(s@),
{
    s.to_lowercase()
}

/// The hash of `s` by `std`'s default hasher
/// (`BuildHasher::hash_one` of `BuildHasherDefault<DefaultHasher>`): a
/// function of the text alone within one build of the program.
#[verifier::external_body]
fn hash_str(s: &str) -> (r: u64)
    ensures
        r == default_hash_of_str(s@),
{
    std::hash::BuildHasher::hash_one(
        &std::hash::BuildHasherDefault::<std::collections::hash_map::DefaultHasher>::default(),
        s,
    )
}

/// A character with its case swapped.
pub open spec fn swap_char(c: char) -> Seq<char> {
    if char_is_uppercase(c) {
        char_to_lower(c)
    } else if char_is_lowercase(c) {
        char_to_upper(c)
    } else {
        seq![c]
    }
}

/// `s` with the case of each character swapped.
pub open spec fn swapcase_spec(s: Seq<char>) -> Seq<char>
    decreases s.len(),
{
    if s.len() == 0 {
        Seq::empty()
    } else {
        swapcase_spec(s.drop_last()) + swap_char(s.last())
    }
}

/// Title case of `s` from `i` on: the first alphanumeric character of each
/// word upper case, every other character lower case; a word starts after
/// a character that is not alphanumeric.
pub open spec fn title_from(s: Seq<char>, i: int, new_word: bool) -> Seq<char>
    decreases s.len() - i,
{
    if i < 0 || i >= s.len() {
        Seq::empty()
    } else if new_word && char_is_alphanumeric(s[i]) {
        char_to_upper(s[i]) + title_from(s, i + 1, false)
    } else {
        char_to_lower(s[i]) + title_from(s, i + 1, new_word || !char_is_alphanumeric(s[i]))
    }
}

/// Is `s` from `i` on title cased: no word starts with a lower-case
/// character, no upper-case character follows within a word, and some
/// character (here or before) has a case?
pub open spec fn title_check(s: Seq<char>, i: int, new_word: bool, has_cased: bool) -> bool
    decreases s.len() - i,
{
    if i < 0 || i >= s.len() {
        has_cased
    } else {
        let c = s[i];
        let hc = has_cased || char_is_lowercase(c) || char_is_uppercase(c);
        if new_word && char_is_lowercase(c) {
            false
        } else if !new_word && char_is_uppercase(c) {
            false
        } else {
            title_check(s, i + 1, !char_is_alphanumeric(c), hc)
        }
    }
}

/// Does every character satisfy `p`, and is there one?
pub open spec fn all_chars(s: Seq<char>, p: spec_fn(char) -> bool) -> bool {
    s.len() > 0 && forall|i: int| 0 <= i < s.len() ==> p(#[trigger] s[i])
}

/// No character is upper case and some character is lower case.
pub open spec fn lower_cased(s: Seq<char>) -> bool {
    (forall|i: int| 0 <= i < s.len() ==> !char_is_uppercase(#[trigger] s[i]))
        && exists|i: int| 0 <= i < s.len() && char_is_lowercase(#[trigger] s[i])
}

/// No character is lower case and some character is upper case.
pub open spec fn upper_cased(s: Seq<char>) -> bool {
    (forall|i: int| 0 <= i < s.len() ==> !char_is_lowercase(#[trigger] s[i]))
        && exists|i: int| 0 <= i < s.len() && char_is_uppercase(#[trigger] s[i])
}

/// The value of the decimal digits `d`, negated when `neg`, if `d` is
/// non-empty, all digits, and the value is within `i64`.
pub open spec fn signed_decimal(d: Seq<char>, neg: bool) -> Option<i64> {
    if d.len() == 0 || !crate::parse::all_digits(d) {
        None
    } else {
        let v = if neg { -crate::parse::decimal_value(d) } else { crate::parse::decimal_value(d) };
        if i64::MIN <= v <= i64::MAX {
            Some(v as i64)
        } else {
            None
        }
    }
}

/// The length of a leading sign, `+` or `-`.
pub open spec fn sign_len(s: Seq<char>) -> int {
    if s.len() > 0 && (s[0] == '-' || s[0] == '+') {
        1
    } else {
        0
    }
}

/// The integer a string denotes as `i64::from_str` reads it: an optional
/// sign, then one or more ASCII digits, the value in range.
pub open spec fn int_text_value(s: Seq<char>) -> Option<i64> {
    signed_decimal(s.subrange(sign_len(s), s.len() as int), s.len() > 0 && s[0] == '-')
}

/// A predicate on every character, checked one by one.
fn check_all(s: &Vec<char>, kind: u8) -> (b: bool)
    requires
        kind < 3,
    ensures
        b == all_chars(s@, if kind == 0 { |c: char| char_is_alphanumeric(c) }
            else if kind == 1 { |c: char| char_is_alphabetic(c) } else { |c: char| char_is_numeric(c) }),
{
    let ghost p = if kind == 0 { |c: char| char_is_alphanumeric(c) }
        else if kind == 1 { |c: char| char_is_alphabetic(c) } else { |c: char| char_is_numeric(c) };
    let mut ok = s.len() > 0;
    let mut i: usize = 0;
    while i < s.len()
        invariant
            i <= s@.len(),
            kind < 3,
            p == (if kind == 0 { |c: char| char_is_alphanumeric(c) }
                else if kind == 1 { |c: char| char_is_alphabetic(c) } else { |c: char| char_is_numeric(c) }),
            ok == (s@.len() > 0 && forall|j: int| 0 <= j < i ==> p(#[trigger] s@[j])),
        decreases s@.len() - i,
    {
        let c = s[i];
        let v = if kind == 0 { alphanumeric_char(c) } else if kind == 1 { alphabetic_char(c) } else { numeric_char(c) };
        ok = ok && v;
        i = i + 1;
    }
    ok
}

impl ObjectString {
    /// `s.upper()`.
    pub fn upper(heap: &mut ObjectHeap, receiver: ObjectHandle) -> (r: Result<ObjectHandle, RuntimeErrorKind>)
        requires
            old(heap).wf(),
        ensures
            final(heap).wf(),
            ObjectHeap::only_adds(old(heap), final(heap)),
            match str_arg(old(heap), receiver) {
                None => wrong_type(old(heap), receiver, "string"@, r) && *final(heap) == *old(heap),
                Some(s) => r matches Ok(h) && holds_str(final(heap), h, str_to_upper(s)),
            },
    {
        proof {
            crate::heap::lemma_only_adds_refl(heap);
        }
        let t = match heap.expect_string(receiver) {
            Ok(s) => to_upper_str(s.as_str()),
            Err(e) => return Err(e),
        };
        Ok(heap.alloc_string_instance(t))
    }

    /// `s.lower()`.
    pub fn lower(heap: &mut ObjectHeap, receiver: ObjectHandle) -> (r: Result<ObjectHandle, RuntimeErrorKind>)
        requires
            old(heap).wf(),
        ensures
            final(heap).wf(),
            ObjectHeap::only_adds(old(heap), final(heap)),
            match str_arg(old(heap), receiver) {
                None => wrong_type(old(heap), receiver, "string"@, r) && *final(heap) == *old(heap),
                Some(s) => r matches Ok(h) && holds_str(final(heap), h, str_to_lower(s)),
            },
    {
        proof {
            crate::heap::lemma_only_adds_refl(heap);
        }
        let t = match heap.expect_string(receiver) {
            Ok(s) => to_lower_str(s.as_str()),
            Err(e) => return Err(e),
        };
        Ok(heap.alloc_string_instance(t))
    }

    /// `s.casefold()`: the lower-case form.
    pub fn casefold(heap: &mut ObjectHeap, receiver: ObjectHandle) -> (r: Result<ObjectHandle, RuntimeErrorKind>)
        requires
            old(heap).wf(),
        ensures
            final(heap).wf(),
            ObjectHeap::only_adds(old(heap), final(heap)),
            match str_arg(old(heap), receiver) {
                None => wrong_type(old(heap), receiver, "string"@, r) && *final(heap) == *old(heap),
                Some(s) => r matches Ok(h) && holds_str(final(heap), h, str_to_lower(s)),
            },
    {
        Self::lower(heap, receiver)
    }

    /// `s.capitalize()`: the first character upper case, the rest lower
    /// case; the empty string is returned itself.
    pub fn capitalize(heap: &mut ObjectHeap, receiver: ObjectHandle) -> (r: Result<ObjectHandle, RuntimeErrorKind>)
        requires
            old(heap).wf(),
        ensures
            final(heap).wf(),
            ObjectHeap::only_adds(old(heap), final(heap)),
            match str_arg(old(heap), receiver) {
                None => wrong_type(old(heap), receiver, "string"@, r) && *final(heap) == *old(heap),
                Some(s) => if s.len() == 0 {
                    r == Ok::<ObjectHandle, RuntimeErrorKind>(receiver) && *final(heap) == *old(heap)
                } else {
                    r matches Ok(h) && holds_str(final(heap), h, char_to_upper(s[0]) + str_to_lower(s.drop_first()))
                },
            },
    {
        proof {
            crate::heap::lemma_only_adds_refl(heap);
        }
        let s = string_chars(heap, receiver)?;
        if s.len() == 0 {
            return Ok(receiver);
        }
        let mut out = to_upper_char(s[0]);
        let rest = string_from_chars(slice_chars(&s, 1, s.len()));
        let lowered = chars_of(to_lower_str(rest.as_str()).as_str());
        append_chars(&mut out, &lowered);
        proof {
            assert(s@.subrange(1, s@.len() as int) =~= s@.drop_first());
        }
        Ok(alloc_chars(heap, out))
    }

    /// `s.swapcase()`: upper-case characters lower case and lower-case ones
    /// upper case.
    pub fn swapcase(heap: &mut ObjectHeap, receiver: ObjectHandle) -> (r: Result<ObjectHandle, RuntimeErrorKind>)
        requires
            old(heap).wf(),
        ensures
            final(heap).wf(),
            ObjectHeap::only_adds(old(heap), final(heap)),
            match str_arg(old(heap), receiver) {
                None => wrong_type(old(heap), receiver, "string"@, r) && *final(heap) == *old(heap),
                Some(s) => r matches Ok(h) && holds_str(final(heap), h, swapcase_spec(s)),
            },
    {
        proof {
            crate::heap::lemma_only_adds_refl(heap);
        }
        let s = string_chars(heap, receiver)?;
        let mut out: Vec<char> = Vec::new();
        let mut i: usize = 0;
        while i < s.len()
            invariant
                i <= s@.len(),
                out@ == swapcase_spec(s@.subrange(0, i as int)),
            decreases s@.len() - i,
        {
            let c = s[i];
            let piece = if upper_char(c) {
                to_lower_char(c)
            } else if lower_char(c) {
                to_upper_char(c)
            } else {
                vec![c]
            };
            proof {
                assert(piece@ =~= swap_char(c));
            }
            append_chars(&mut out, &piece);
            proof {
                let pre = s@.subrange(0, i as int + 1);
                assert(pre.drop_last() =~= s@.subrange(0, i as int));
                assert(pre.last() == c);
            }
            i = i + 1;
        }
        proof {
            assert(s@.subrange(0, s@.len() as int) =~= s@);
        }
        Ok(alloc_chars(heap, out))
    }

    /// `s.title()`: each word's first alphanumeric character upper case,
    /// the others lower case.
    pub fn title(heap: &mut ObjectHeap, receiver: ObjectHandle) -> (r: Result<ObjectHandle, RuntimeErrorKind>)
        requires
            old(heap).wf(),
        ensures
            final(heap).wf(),
            ObjectHeap::only_adds(old(heap), final(heap)),
            match str_arg(old(heap), receiver) {
                None => wrong_type(old(heap), receiver, "string"@, r) && *final(heap) == *old(heap),
                Some(s) => r matches Ok(h) && holds_str(final(heap), h, title_from(s, 0, true)),
            },
    {
        proof {
            crate::heap::lemma_only_adds_refl(heap);
        }
        let s = string_chars(heap, receiver)?;
        let mut out: Vec<char> = Vec::new();
        let mut new_word = true;
        let mut i: usize = 0;
        while i < s.len()
            invariant
                i <= s@.len(),
                out@ + title_from(s@, i as int, new_word) == title_from(s@, 0, true),
            decreases s@.len() - i,
        {
            let c = s[i];
            let ghost before = out@;
            let ghost nw = new_word;
            let alnum = alphanumeric_char(c);
            if new_word && alnum {
                let piece = to_upper_char(c);
                append_chars(&mut out, &piece);
                new_word = false;
            } else {
                if !alnum {
                    new_word = true;
                }
                let piece = to_lower_char(c);
                append_chars(&mut out, &piece);
            }
            proof {
                assert(before + title_from(s@, i as int, nw) =~= out@ + title_from(s@, i + 1, new_word));
            }
            i = i + 1;
        }
        proof {
            assert(out@ + title_from(s@, i as int, new_word) =~= out@);
        }
        Ok(alloc_chars(heap, out))
    }

    /// `s.is_alnum()`: non-empty and all alphanumeric.
    pub fn is_alnum(heap: &mut ObjectHeap, receiver: ObjectHandle) -> (r: Result<ObjectHandle, RuntimeErrorKind>)
        requires
            old(heap).wf(),
        ensures
            *final(heap) == *old(heap),
            match str_arg(old(heap), receiver) {
                None => wrong_type(old(heap), receiver, "string"@, r),
                Some(s) => r matches Ok(h) && holds_bool(final(heap), h, all_chars(s, |c: char| char_is_alphanumeric(c))),
            },
    {
        let s = string_chars(heap, receiver)?;
        let b = check_all(&s, 0);
        Ok(heap.alloc_bool_instance(b))
    }

    /// `s.is_alpha()`: non-empty and all alphabetic.
    pub fn is_alpha(heap: &mut ObjectHeap, receiver: ObjectHandle) -> (r: Result<ObjectHandle, RuntimeErrorKind>)
        requires
            old(heap).wf(),
        ensures
            *final(heap) == *old(heap),
            match str_arg(old(heap), receiver) {
                None => wrong_type(old(heap), receiver, "string"@, r),
                Some(s) => r matches Ok(h) && holds_bool(final(heap), h, all_chars(s, |c: char| char_is_alphabetic(c))),
            },
    {
        let s = string_chars(heap, receiver)?;
        let b = check_all(&s, 1);
        Ok(heap.alloc_bool_instance(b))
    }

    /// `s.is_numeric()`: non-empty and all numeric.
    pub fn is_numeric(heap: &mut ObjectHeap, receiver: ObjectHandle) -> (r: Result<ObjectHandle, RuntimeErrorKind>)
        requires
            old(heap).wf(),
        ensures
            *final(heap) == *old(heap),
            match str_arg(old(heap), receiver) {
                None => wrong_type(old(heap), receiver, "string"@, r),
                Some(s) => r matches Ok(h) && holds_bool(final(heap), h, all_chars(s, |c: char| char_is_numeric(c))),
            },
    {
        let s = string_chars(heap, receiver)?;
        let b = check_all(&s, 2);
        Ok(heap.alloc_bool_instance(b))
    }

    /// `s.is_lower()`: some character is lower case and none upper case.
    pub fn is_lower(heap: &mut ObjectHeap, receiver: ObjectHandle) -> (r: Result<ObjectHandle, RuntimeErrorKind>)
        requires
            old(heap).wf(),
        ensures
            *final(heap) == *old(heap),
            match str_arg(old(heap), receiver) {
                None => wrong_type(old(heap), receiver, "string"@, r),
                Some(s) => r matches Ok(h) && holds_bool(final(heap), h, lower_cased(s)),
            },
    {
        let s = string_chars(heap, receiver)?;
        let mut has_cased = false;
        let mut i: usize = 0;
        while i < s.len()
            invariant
                i <= s@.len(),
                heap.wf(),
                str_arg(heap, receiver) == Some(s@),
                forall|j: int| 0 <= j < i ==> !char_is_uppercase(#[trigger] s@[j]),
                has_cased == exists|j: int| 0 <= j < i && char_is_lowercase(#[trigger] s@[j]),
            decreases s@.len() - i,
        {
            if upper_char(s[i]) {
                return Ok(heap.alloc_bool_instance(false));
            }
            if lower_char(s[i]) {
                has_cased = true;
            }
            i = i + 1;
        }
        Ok(heap.alloc_bool_instance(has_cased))
    }

    /// `s.is_upper()`: some character is upper case and none lower case.
    pub fn is_upper(heap: &mut ObjectHeap, receiver: ObjectHandle) -> (r: Result<ObjectHandle, RuntimeErrorKind>)
        requires
            old(heap).wf(),
        ensures
            *final(heap) == *old(heap),
            match str_arg(old(heap), receiver) {
                None => wrong_type(old(heap), receiver, "string"@, r),
                Some(s) => r matches Ok(h) && holds_bool(final(heap), h, upper_cased(s)),
            },
    {
        let s = string_chars(heap, receiver)?;
        let mut has_cased = false;
        let mut i: usize = 0;
        while i < s.len()
            invariant
                i <= s@.len(),
                heap.wf(),
                str_arg(heap, receiver) == Some(s@),
                forall|j: int| 0 <= j < i ==> !char_is_lowercase(#[trigger] s@[j]),
                has_cased == exists|j: int| 0 <= j < i && char_is_uppercase(#[trigger] s@[j]),
            decreases s@.len() - i,
        {
            if lower_char(s[i]) {
                return Ok(heap.alloc_bool_instance(false));
            }
            if upper_char(s[i]) {
                has_cased = true;
            }
            i = i + 1;
        }
        Ok(heap.alloc_bool_instance(has_cased))
    }

    /// `s.is_title()`: words start upper case and go on lower case, and
    /// some character has a case.
    pub fn is_title(heap: &mut ObjectHeap, receiver: ObjectHandle) -> (r: Result<ObjectHandle, RuntimeErrorKind>)
        requires
            old(heap).wf(),
        ensures
            *final(heap) == *old(heap),
            match str_arg(old(heap), receiver) {
                None => wrong_type(old(heap), receiver, "string"@, r),
                Some(s) => r matches Ok(h) && holds_bool(final(heap), h, title_check(s, 0, true, false)),
            },
    {
        let s = string_chars(heap, receiver)?;
        let mut has_cased = false;
        let mut new_word = true;
        let mut i: usize = 0;
        while i < s.len()
            invariant
                i <= s@.len(),
                heap.wf(),
                str_arg(heap, receiver) == Some(s@),
                title_check(s@, i as int, new_word, has_cased) == title_check(s@, 0, true, false),
            decreases s@.len() - i,
        {
            let c = s[i];
            let lower = lower_char(c);
            let upper = upper_char(c);
            if lower || upper {
                has_cased = true;
            }
            if new_word && lower {
                return Ok(heap.alloc_bool_instance(false));
            }
            if !new_word && upper {
                return Ok(heap.alloc_bool_instance(false));
            }
            new_word = !alphanumeric_char(c);
            i = i + 1;
        }
        Ok(heap.alloc_bool_instance(has_cased))
    }

    /// `s.__hash__()`: the default hash of the text, as an integer.
    pub fn __hash__(heap: &mut ObjectHeap, receiver: ObjectHandle) -> (r: Result<ObjectHandle, RuntimeErrorKind>)
        requires
            old(heap).wf(),
        ensures
            final(heap).wf(),
            ObjectHeap::only_adds(old(heap), final(heap)),
            match str_arg(old(heap), receiver) {
                None => wrong_type(old(heap), receiver, "string"@, r) && *final(heap) == *old(heap),
                Some(s) => r matches Ok(h) && final(heap).live(h)
                    && int_of(final(heap).objs()[h.0 as int]) == Some(default_hash_of_str(s) as i64),
            },
    {
        proof {
            crate::heap::lemma_only_adds_refl(heap);
        }
        let v = match heap.expect_string(receiver) {
            Ok(s) => hash_str(s.as_str()),
            Err(e) => return Err(e),
        };
        Ok(heap.alloc_integer_instance(v as i64))
    }

    /// `s.__int__()`: the integer the text denotes (an optional sign and
    /// decimal digits), or an error.
    pub fn __int__(heap: &mut ObjectHeap, receiver: ObjectHandle) -> (r: Result<ObjectHandle, RuntimeErrorKind>)
        requires
            old(heap).wf(),
        ensures
            final(heap).wf(),
            ObjectHeap::only_adds(old(heap), final(heap)),
            match str_arg(old(heap), receiver) {
                None => wrong_type(old(heap), receiver, "string"@, r) && *final(heap) == *old(heap),
                Some(s) => match int_text_value(s) {
                    Some(v) => r matches Ok(h) && holds_int(final(heap), h, v as int),
                    None => r matches Err(RuntimeErrorKind::BadIntResult(t)) && t@ == "string"@
                        && *final(heap) == *old(heap),
                },
            },
    {
        proof {
            crate::heap::lemma_only_adds_refl(heap);
        }
        let s = string_chars(heap, receiver)?;
        let neg = s.len() > 0 && s[0] == '-';
        let signed = s.len() > 0 && (s[0] == '-' || s[0] == '+');
        let digits = if signed { slice_chars(&s, 1, s.len()) } else { slice_chars(&s, 0, s.len()) };
        match parse_signed_decimal(&digits, neg) {
            Some(v) => Ok(heap.alloc_integer_instance(v)),
            None => Err(RuntimeErrorKind::BadIntResult("string")),
        }
    }
}

/// `x`, or the cap 2^64 when it is larger.
pub open spec fn capped(x: int) -> int {
    if x >= 0x1_0000_0000_0000_0000 {
        0x1_0000_0000_0000_0000
    } else {
        x
    }
}

/// The value of the ASCII digits `digits`, negated when `neg`, if it is
/// within `i64`.
fn parse_signed_decimal(digits: &Vec<char>, neg: bool) -> (r: Option<i64>)
    ensures
        r == signed_decimal(digits@, neg),
{
    if digits.len() == 0 {
        return None;
    }
    let mut k: usize = 0;
    while k < digits.len()
        invariant
            k <= digits@.len(),
            forall|j: int| 0 <= j < k ==> '0' <= #[trigger] digits@[j] <= '9',
        decreases digits@.len() - k,
    {
        if digits[k] < '0' || digits[k] > '9' {
            return None;
        }
        k = k + 1;
    }
    let mut acc: i128 = 0;
    let mut i: usize = 0;
    while i < digits.len()
        invariant
            i <= digits@.len(),
            forall|j: int| 0 <= j < digits@.len() ==> '0' <= #[trigger] digits@[j] <= '9',
            acc == capped(crate::parse::decimal_value(digits@.subrange(0, i as int))),
            0 <= acc <= 0x1_0000_0000_0000_0000i128,
        decreases digits@.len() - i,
    {
        let c = digits[i];
        let d = (c as u32 - '0' as u32) as i128;
        let ghost pre = digits@.subrange(0, i as int);
        let ghost next = digits@.subrange(0, i + 1);
        proof {
            assert(next.drop_last() =~= pre);
            assert(next.last() == c);
            assert(crate::parse::all_digits(pre)) by {
                assert forall|j: int| 0 <= j < pre.len() implies '0' <= #[trigger] pre[j] <= '9' by {
                    assert(pre[j] == digits@[j]);
                }
            }
            crate::parse::lemma_decimal_value_nonneg(pre);
            assert(crate::parse::decimal_value(next) == crate::parse::decimal_value(pre) * 10 + d);
        }
        if acc >= 0x1_0000_0000_0000_0000i128 || acc * 10 + d >= 0x1_0000_0000_0000_0000i128 {
            acc = 0x1_0000_0000_0000_0000i128;
        } else {
            acc = acc * 10 + d;
        }
        i = i + 1;
    }
    proof {
        assert(digits@.subrange(0, digits@.len() as int) =~= digits@);
    }
    let v: i128 = if neg { -acc } else { acc };
    if v < -0x8000_0000_0000_0000i128 || v > 0x7fff_ffff_ffff_ffffi128 {
        None
    } else {
        Some(v as i64)
    }
}

} // verus!
