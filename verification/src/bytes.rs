use vstd::prelude::*;

use crate::heap::{ObjectHeap, int_of, str_of, list_of, bool_of};
use crate::object::{InstanceData, Object, ObjectBytes, ObjectBytesIterator, ObjectHandle};
use crate::runtime::{
    RuntimeErrorKind, bytes_iter_of, bytes_of, is_type_mismatch, live_view, type_name_of,
};
use crate::scan::string_from_chars;

verus! {

// ========================================================================== //
//                    Models
// ========================================================================== //

/// Is the byte printable ASCII other than `"` and `\`, shown as itself?
pub open spec fn shown_plain(b: u8) -> bool {
    ||| 0x20 <= b <= 0x21
    ||| 0x23 <= b <= 0x5b
    ||| 0x5d <= b <= 0x7e
}

/// The lower-case hexadecimal digit of `n` (below 16).
pub open spec fn hex_digit(n: int) -> char {
    if n < 10 {
        (n + 48) as char
    } else {
        (n + 87) as char
    }
}

/// Two lower-case hexadecimal digits of a byte.
pub open spec fn hex_pair(b: u8) -> Seq<char> {
    seq![hex_digit((b / 16) as int), hex_digit((b % 16) as int)]
}

/// How a byte shows inside a byte-string literal.
pub open spec fn escape_byte(b: u8) -> Seq<char> {
    if shown_plain(b) {
        seq![b as char]
    } else if b == 0x22 {
        seq!['\\', '"']
    } else if b == 0x5c {
        seq!['\\', '\\']
    } else if b == 0x0a {
        seq!['\\', 'n']
    } else if b == 0x0d {
        seq!['\\', 'r']
    } else if b == 0x09 {
        seq!['\\', 't']
    } else if b == 0 {
        seq!['\\', '0']
    } else {
        seq!['\\', 'x'] + hex_pair(b)
    }
}

/// The escapes of the bytes, one after the other.
pub open spec fn escaped_bytes(data: Seq<u8>) -> Seq<char>
    decreases data.len(),
{
    if data.len() == 0 {
        Seq::empty()
    } else {
        escaped_bytes(data.drop_last()) + escape_byte(data.last())
    }
}

/// A printable ASCII byte, from space to `~`, other than `"` and `\`.
pub open spec fn printable_unquoted(b: u8) -> bool {
    0x20 <= b <= 0x7e && b != 0x22 && b != 0x5c
}

/// A printable ASCII byte other than `"` and `\` stands for itself: its
/// text is the one character with that code.
pub proof fn lemma_printable_byte_shows_itself(b: u8)
    requires
        printable_unquoted(b),
    ensures
        escape_byte(b).len() == 1,
        escape_byte(b)[0] as u32 == b as u32,
{
}

/// Any other byte is written as an escape: a backslash, then the quote or
/// backslash itself, a letter for a line feed, carriage return, tab or
/// zero byte, or `x` and two hexadecimal digits.
pub proof fn lemma_other_byte_is_escaped(b: u8)
    requires
        !printable_unquoted(b),
    ensures
        escape_byte(b).len() >= 2,
        escape_byte(b)[0] == '\\',
        b == 0x22 ==> escape_byte(b) == seq!['\\', '"'],
        b == 0x5c ==> escape_byte(b) == seq!['\\', '\\'],
        b == 0x0a ==> escape_byte(b) == seq!['\\', 'n'],
        b == 0x0d ==> escape_byte(b) == seq!['\\', 'r'],
        b == 0x09 ==> escape_byte(b) == seq!['\\', 't'],
        b == 0 ==> escape_byte(b) == seq!['\\', '0'],
        b != 0x22 && b != 0x5c && b != 0x0a && b != 0x0d && b != 0x09 && b != 0 ==> {
            let e = escape_byte(b);
            &&& e.len() == 4 && e[1] == 'x'
            &&& hex_value(e[2]) is Some && hex_value(e[3]) is Some
            &&& (hex_value(e[2])->0) * 16 + hex_value(e[3])->0 == b
        },
{
    let hi = (b / 16) as int;
    let lo = (b % 16) as int;
    assert(hex_value(hex_digit(hi)) == Some(hi));
    assert(hex_value(hex_digit(lo)) == Some(lo));
}

/// The value of a lower-case hexadecimal digit.
pub open spec fn hex_value(c: char) -> Option<int> {
    if '0' <= c <= '9' {
        Some(c as int - '0' as int)
    } else if 'a' <= c <= 'f' {
        Some(c as int - 'a' as int + 10)
    } else {
        None
    }
}

/// The escaped text of bytes that are all printable and unquoted is those
/// bytes' characters, one each, in order.
pub proof fn lemma_printable_bytes_escape_to_themselves(data: Seq<u8>)
    requires
        forall|k: int| 0 <= k < data.len() ==> printable_unquoted(#[trigger] data[k]),
    ensures
        escaped_bytes(data).len() == data.len(),
        forall|k: int| 0 <= k < data.len() ==> #[trigger] escaped_bytes(data)[k] as u32 == data[k] as u32,
    decreases data.len(),
{
    if data.len() > 0 {
        let init = data.drop_last();
        assert forall|k: int| 0 <= k < init.len() implies printable_unquoted(#[trigger] init[k]) by {
            assert(init[k] == data[k]);
        }
        lemma_printable_bytes_escape_to_themselves(init);
        lemma_printable_byte_shows_itself(data.last());
        assert forall|k: int| 0 <= k < data.len() implies #[trigger] escaped_bytes(data)[k] as u32 == data[k] as u32 by {
            if k < init.len() {
                assert(escaped_bytes(data)[k] == escaped_bytes(init)[k]);
                assert(init[k] == data[k]);
            }
        }
    }
}

/// The text of a byte string of printable, unquoted bytes is `b"`, those
/// bytes' characters in order, and `"`.
pub proof fn lemma_printable_bytes_repr(data: Seq<u8>)
    requires
        forall|k: int| 0 <= k < data.len() ==> printable_unquoted(#[trigger] data[k]),
    ensures
        bytes_repr(data).len() == data.len() + 3,
        bytes_repr(data)[0] == 'b' && bytes_repr(data)[1] == '"' && bytes_repr(data)[data.len() as int + 2] == '"',
        forall|k: int| 0 <= k < data.len() ==> #[trigger] bytes_repr(data)[k + 2] as u32 == data[k] as u32,
{
    lemma_printable_bytes_escape_to_themselves(data);
    let e = escaped_bytes(data);
    assert forall|k: int| 0 <= k < data.len() implies #[trigger] bytes_repr(data)[k + 2] as u32 == data[k] as u32 by {
        assert(bytes_repr(data)[k + 2] == e[k]);
    }
}

/// The text of a byte string: its escaped bytes between `b"` and `"`.
pub open spec fn bytes_repr(data: Seq<u8>) -> Seq<char> {
    seq!['b', '"'] + escaped_bytes(data) + seq!['"']
}

/// The bytes as pairs of lower-case hexadecimal digits.
pub open spec fn hex_text(data: Seq<u8>) -> Seq<char>
    decreases data.len(),
{
    if data.len() == 0 {
        Seq::empty()
    } else {
        hex_text(data.drop_last()) + hex_pair(data.last())
    }
}

/// The byte an integer handle stands for, if it holds one from 0 to 255.
pub open spec fn byte_value(heap: &ObjectHeap, h: ObjectHandle) -> Option<u8> {
    match live_view(heap, h, |o: Option<Object>| int_of(o)) {
        Some(v) => if 0 <= v <= 255 {
            Some(v as u8)
        } else {
            None
        },
        None => None,
    }
}

/// `k` is the first item that does not stand for a byte.
pub open spec fn first_non_byte(heap: &ObjectHeap, items: Seq<ObjectHandle>, k: int) -> bool {
    &&& 0 <= k < items.len()
    &&& byte_value(heap, items[k]) is None
    &&& forall|j: int| 0 <= j < k ==> #[trigger] byte_value(heap, items[j]) is Some
}

/// The error for an item that does not stand for a byte: an integer out of
/// range, or a value that is no integer.
pub open spec fn non_byte_error(heap: &ObjectHeap, item: ObjectHandle, e: RuntimeErrorKind) -> bool {
    match live_view(heap, item, |o: Option<Object>| int_of(o)) {
        Some(_) => e matches RuntimeErrorKind::UnexpectedType(x, y)
            && x@ == "byte value in range 0-255"@ && y@ == type_name_of(heap, item),
        None => is_type_mismatch(e, "int"@, type_name_of(heap, item)),
    }
}

/// Lower-case ASCII letters; other characters stay.
pub open spec fn ascii_lower(c: char) -> char {
    if 'A' <= c <= 'Z' {
        ((c as int) + 32) as char
    } else {
        c
    }
}

/// Does `name` name UTF-8, in any case of its ASCII letters?
pub open spec fn names_utf8(name: Seq<char>) -> bool {
    let l = name.map_values(|c: char| ascii_lower(c));
    l == "utf-8"@ || l == "utf8"@
}

/// A fresh slot now holds a byte string with `data`.
pub open spec fn new_bytes(old_heap: &ObjectHeap, new_heap: &ObjectHeap, h: ObjectHandle, data: Seq<u8>) -> bool {
    &&& ObjectHeap::fresh_slot(old_heap, new_heap, h)
    &&& bytes_of(new_heap.objs()[h.0 as int]) == Some(data)
    &&& new_heap.live(h)
}

/// The heap now holds a string `s` behind `h`.
pub open spec fn holds_str(heap: &ObjectHeap, h: ObjectHandle, s: Seq<char>) -> bool {
    heap.live(h) && str_of(heap.objs()[h.0 as int]) == Some(s)
}

/// The heap now holds the integer `v` behind `h`.
pub open spec fn holds_int(heap: &ObjectHeap, h: ObjectHandle, v: int) -> bool {
    heap.live(h) && int_of(heap.objs()[h.0 as int]) == Some(v as i64) && i64::MIN <= v <= i64::MAX
}

/// `h` is the boolean singleton for `b`.
pub open spec fn holds_bool(heap: &ObjectHeap, h: ObjectHandle, b: bool) -> bool {
    heap.live(h) && bool_of(heap.objs()[h.0 as int]) == Some(b)
}

// ========================================================================== //
//                    Helpers
// ========================================================================== //

/// Allocation of a fresh slot only adds to the heap.
pub proof fn lemma_fresh_only_adds(old_heap: &ObjectHeap, new_heap: &ObjectHeap, h: ObjectHandle)
    requires
        ObjectHeap::fresh_slot(old_heap, new_heap, h),
        ObjectHeap::keeps_builtins(old_heap, new_heap),
        old_heap.idle() ==> new_heap.idle(),
    ensures
        ObjectHeap::only_adds(old_heap, new_heap),
{
}

fn hex_digit_char(n: u8) -> (c: char)
    requires
        n < 16,
    ensures
        c == hex_digit(n as int),
{
    if n < 10 {
        (n + 48) as char
    } else {
        (n + 87) as char
    }
}

fn push_all(out: &mut Vec<char>, cs: &Vec<char>)
    ensures
        final(out)@ == old(out)@ + cs@,
{
    let mut i: usize = 0;
    while i < cs.len()
        invariant
            i <= cs@.len(),
            out@ == old(out)@ + cs@.subrange(0, i as int),
        decreases cs@.len() - i,
    {
        out.push(cs[i]);
        i = i + 1;
        proof {
            assert(out@ =~= old(out)@ + cs@.subrange(0, i as int));
        }
    }
    proof {
        assert(cs@.subrange(0, cs@.len() as int) =~= cs@);
    }
}

fn escape_byte_chars(b: u8) -> (r: Vec<char>)
    ensures
        r@ == escape_byte(b),
{
    if (0x20 <= b && b <= 0x21) || (0x23 <= b && b <= 0x5b) || (0x5d <= b && b <= 0x7e) {
        vec![b as char]
    } else if b == 0x22 {
        vec!['\\', '"']
    } else if b == 0x5c {
        vec!['\\', '\\']
    } else if b == 0x0a {
        vec!['\\', 'n']
    } else if b == 0x0d {
        vec!['\\', 'r']
    } else if b == 0x09 {
        vec!['\\', 't']
    } else if b == 0 {
        vec!['\\', '0']
    } else {
        let r = vec!['\\', 'x', hex_digit_char(b / 16), hex_digit_char(b % 16)];
        proof {
            assert(r@ =~= seq!['\\', 'x'] + hex_pair(b));
        }
        r
    }
}

/// The text of a byte string, as `b"..."` with escapes.
pub fn bytes_repr_text(data: &Vec<u8>) -> (s: String)
    ensures
        s@ == bytes_repr(data@),
{
    let mut out: Vec<char> = vec!['b', '"'];
    let mut i: usize = 0;
    while i < data.len()
        invariant
            i <= data@.len(),
            out@ == seq!['b', '"'] + escaped_bytes(data@.subrange(0, i as int)),
        decreases data@.len() - i,
    {
        let e = escape_byte_chars(data[i]);
        push_all(&mut out, &e);
        proof {
            let pre = data@.subrange(0, i as int + 1);
            assert(pre.drop_last() =~= data@.subrange(0, i as int));
            assert(pre.last() == data@[i as int]);
            assert(out@ =~= seq!['b', '"'] + escaped_bytes(pre));
        }
        i = i + 1;
    }
    out.push('"');
    proof {
        assert(data@.subrange(0, data@.len() as int) =~= data@);
        assert(out@ =~= bytes_repr(data@));
    }
    string_from_chars(out)
}

/// The bytes as lower-case hexadecimal digits.
pub fn hex_string(data: &Vec<u8>) -> (s: String)
    ensures
        s@ == hex_text(data@),
{
    let mut out: Vec<char> = Vec::new();
    let mut i: usize = 0;
    while i < data.len()
        invariant
            i <= data@.len(),
            out@ == hex_text(data@.subrange(0, i as int)),
        decreases data@.len() - i,
    {
        let b = data[i];
        out.push(hex_digit_char(b / 16));
        out.push(hex_digit_char(b % 16));
        proof {
            let pre = data@.subrange(0, i as int + 1);
            assert(pre.drop_last() =~= data@.subrange(0, i as int));
            assert(pre.last() == b);
            assert(out@ =~= hex_text(pre));
        }
        i = i + 1;
    }
    proof {
        assert(data@.subrange(0, data@.len() as int) =~= data@);
    }
    string_from_chars(out)
}

fn bytes_equal(a: &Vec<u8>, b: &Vec<u8>) -> (r: bool)
    ensures
        r == (a@ == b@),
{
    if a.len() != b.len() {
        return false;
    }
    let mut i: usize = 0;
    while i < a.len()
        invariant
            i <= a@.len(),
            a@.len() == b@.len(),
            forall|j: int| 0 <= j < i ==> a@[j] == b@[j],
        decreases a@.len() - i,
    {
        if a[i] != b[i] {
            return false;
        }
        i = i + 1;
    }
    proof {
        assert(a@ =~= b@);
    }
    true
}

fn bytes_contain(data: &Vec<u8>, b: u8) -> (r: bool)
    ensures
        r == data@.contains(b),
{
    let mut i: usize = 0;
    while i < data.len()
        invariant
            i <= data@.len(),
            forall|j: int| 0 <= j < i ==> data@[j] != b,
        decreases data@.len() - i,
    {
        if data[i] == b {
            return true;
        }
        i = i + 1;
    }
    false
}

fn lower_ascii(s: &String) -> (r: Vec<char>)
    ensures
        r@ == s@.map_values(|c: char| ascii_lower(c)),
{
    let cs = crate::scan::chars_of(s.as_str());
    let mut out: Vec<char> = Vec::new();
    let mut i: usize = 0;
    while i < cs.len()
        invariant
            i <= cs@.len(),
            cs@ == s@,
            out@ == cs@.subrange(0, i as int).map_values(|c: char| ascii_lower(c)),
        decreases cs@.len() - i,
    {
        let c = cs[i];
        let l = if 'A' <= c && c <= 'Z' {
            ((c as u8) + 32) as char
        } else {
            c
        };
        out.push(l);
        i = i + 1;
        proof {
            assert(out@ =~= cs@.subrange(0, i as int).map_values(|c: char| ascii_lower(c)));
        }
    }
    proof {
        assert(cs@.subrange(0, cs@.len() as int) =~= cs@);
    }
    out
}

fn is_utf8_name(name: &String) -> (b: bool)
    ensures
        b == names_utf8(name@),
{
    let l = lower_ascii(name);
    proof {
        reveal_strlit("utf-8");
        reveal_strlit("utf8");
    }
    let dashed = l.len() == 5 && l[0] == 'u' && l[1] == 't' && l[2] == 'f' && l[3] == '-' && l[4] == '8';
    let plain = l.len() == 4 && l[0] == 'u' && l[1] == 't' && l[2] == 'f' && l[3] == '8';
    proof {
        if dashed {
            assert(l@ =~= "utf-8"@);
        }
        if plain {
            assert(l@ =~= "utf8"@);
        }
    }
    dashed || plain
}

/// `data` read as UTF-8 text (`String::from_utf8`): the text when the bytes
/// are valid UTF-8, else nothing.
#[verifier::external_body]
fn decode_utf8_bytes(data: Vec<u8>) -> (r: Option<String>)
    ensures
        match r {
            Some(s) => vstd::utf8::valid_utf8(data@) && s@ == vstd::utf8::decode_utf8(data@),
            None => !vstd::utf8::valid_utf8(data@),
        },
{
    match String::from_utf8(data) {
        Ok(s) => Some(s),
        Err(_) => None,
    }
}

/// What `std`'s default hasher gives for a byte vector.
pub uninterp spec fn default_hash_of_bytes(data: Seq<u8>) -> u64;

/// The hash of `data` by `std`'s default hasher
/// (`BuildHasher::hash_one` of `BuildHasherDefault<DefaultHasher>`): a
/// function of the bytes alone within one build of the program.
#[verifier::external_body]
fn hash_bytes(data: &Vec<u8>) -> (r: u64)
    ensures
        r == default_hash_of_bytes(data@),
{
    std::hash::BuildHasher::hash_one(
        &std::hash::BuildHasherDefault::<std::collections::hash_map::DefaultHasher>::default(),
        data,
    )
}

// ========================================================================== //
//                    Byte strings
// ========================================================================== //

impl ObjectBytes {
    /// A byte string of the UTF-8 encoding of `s`.
    pub fn from_string(heap: &mut ObjectHeap, s: &str) -> (r: Result<ObjectHandle, RuntimeErrorKind>)
        requires
            old(heap).wf(),
        ensures
            final(heap).wf(),
            ObjectHeap::only_adds(old(heap), final(heap)),
            r matches Ok(h) && new_bytes(old(heap), final(heap), h, vstd::utf8::encode_utf8(s@)),
    {
        let data = vstd::slice::slice_to_vec(s.as_bytes());
        let h = heap.alloc_bytes_instance(data);
        proof {
            lemma_fresh_only_adds(old(heap), heap, h);
        }
        Ok(h)
    }

    /// A byte string of the integers of a list, each from 0 to 255.
    pub fn from_list(heap: &mut ObjectHeap, list_handle: ObjectHandle) -> (r: Result<ObjectHandle, RuntimeErrorKind>)
        requires
            old(heap).wf(),
        ensures
            final(heap).wf(),
            ObjectHeap::only_adds(old(heap), final(heap)),
            match live_view(old(heap), list_handle, |o: Option<Object>| list_of(o)) {
                None => r matches Err(e) && is_type_mismatch(e, "list"@, type_name_of(old(heap), list_handle))
                    && *final(heap) == *old(heap),
                Some(items) => match r {
                    Ok(h) => {
                        &&& forall|j: int| 0 <= j < items.len() ==> #[trigger] byte_value(old(heap), items[j]) is Some
                        &&& new_bytes(old(heap), final(heap), h,
                            items.map_values(|x: ObjectHandle| byte_value(old(heap), x).unwrap()))
                    },
                    Err(e) => exists|k: int| first_non_byte(old(heap), items, k)
                        && non_byte_error(old(heap), items[k], e) && *final(heap) == *old(heap),
                },
            },
    {
        let items = match heap.expect_list(list_handle) {
            Ok(v) => v.clone(),
            Err(e) => return Err(e),
        };
        let mut data: Vec<u8> = Vec::new();
        let mut i: usize = 0;
        while i < items.len()
            invariant
                i <= items@.len(),
                heap.wf(),
                live_view(heap, list_handle, |o: Option<Object>| list_of(o)) == Some(items@),
                data@.len() == i,
                forall|j: int| 0 <= j < i ==> #[trigger] byte_value(heap, items@[j]) is Some,
                forall|j: int| 0 <= j < i ==> data@[j] == byte_value(heap, items@[j]).unwrap(),
            decreases items@.len() - i,
        {
            let item = items[i];
            let b = match heap.expect_integer(item) {
                Ok(b) => b,
                Err(e) => {
                    proof {
                        assert(first_non_byte(heap, items@, i as int));
                    }
                    return Err(e);
                },
            };
            if b < 0 || b > 255 {
                let found = heap.type_of(item);
                proof {
                    assert(first_non_byte(heap, items@, i as int));
                }
                return Err(RuntimeErrorKind::UnexpectedType("byte value in range 0-255", found));
            }
            data.push(b as u8);
            i = i + 1;
        }
        let ghost bytes = data@;
        let h = heap.alloc_bytes_instance(data);
        proof {
            lemma_fresh_only_adds(old(heap), heap, h);
            assert(bytes =~= items@.map_values(|x: ObjectHandle| byte_value(old(heap), x).unwrap()));
        }
        Ok(h)
    }

    /// `bytes.__str__()`: the text `b"..."` with the bytes escaped.
    pub fn __str__(heap: &mut ObjectHeap, receiver: ObjectHandle) -> (r: Result<ObjectHandle, RuntimeErrorKind>)
        requires
            old(heap).wf(),
        ensures
            final(heap).wf(),
            ObjectHeap::only_adds(old(heap), final(heap)),
            match live_view(old(heap), receiver, |o: Option<Object>| bytes_of(o)) {
                Some(data) => r matches Ok(h) && holds_str(final(heap), h, bytes_repr(data)),
                None => r matches Err(e) && is_type_mismatch(e, "bytes"@, type_name_of(old(heap), receiver))
                    && *final(heap) == *old(heap),
            },
    {
        let text = match heap.expect_bytes(receiver) {
            Ok(data) => bytes_repr_text(data),
            Err(e) => return Err(e),
        };
        Ok(heap.alloc_string_instance(text))
    }

    /// `bytes.__bool__()`: is the byte string non-empty?
    pub fn __bool__(heap: &mut ObjectHeap, receiver: ObjectHandle) -> (r: Result<ObjectHandle, RuntimeErrorKind>)
        requires
            old(heap).wf(),
        ensures
            *final(heap) == *old(heap),
            match live_view(old(heap), receiver, |o: Option<Object>| bytes_of(o)) {
                Some(data) => r matches Ok(h) && holds_bool(final(heap), h, data.len() > 0),
                None => r matches Err(e) && is_type_mismatch(e, "bytes"@, type_name_of(old(heap), receiver)),
            },
    {
        let empty = match heap.expect_bytes(receiver) {
            Ok(data) => data.len() == 0,
            Err(e) => return Err(e),
        };
        Ok(heap.alloc_bool_instance(!empty))
    }

    /// `bytes.__not__()`: is the byte string empty?
    pub fn __not__(heap: &mut ObjectHeap, receiver: ObjectHandle) -> (r: Result<ObjectHandle, RuntimeErrorKind>)
        requires
            old(heap).wf(),
        ensures
            *final(heap) == *old(heap),
            match live_view(old(heap), receiver, |o: Option<Object>| bytes_of(o)) {
                Some(data) => r matches Ok(h) && holds_bool(final(heap), h, data.len() == 0),
                None => r matches Err(e) && is_type_mismatch(e, "bytes"@, type_name_of(old(heap), receiver)),
            },
    {
        let empty = match heap.expect_bytes(receiver) {
            Ok(data) => data.len() == 0,
            Err(e) => return Err(e),
        };
        Ok(heap.alloc_bool_instance(empty))
    }

    /// `bytes.__len__()`: the number of bytes.
    pub fn __len__(heap: &mut ObjectHeap, receiver: ObjectHandle) -> (r: Result<ObjectHandle, RuntimeErrorKind>)
        requires
            old(heap).wf(),
        ensures
            final(heap).wf(),
            ObjectHeap::only_adds(old(heap), final(heap)),
            match live_view(old(heap), receiver, |o: Option<Object>| bytes_of(o)) {
                Some(data) => r matches Ok(h) && holds_int(final(heap), h, (data.len() as i64) as int),
                None => r matches Err(e) && is_type_mismatch(e, "bytes"@, type_name_of(old(heap), receiver))
                    && *final(heap) == *old(heap),
            },
    {
        let n = match heap.expect_bytes(receiver) {
            Ok(data) => data.len(),
            Err(e) => return Err(e),
        };
        Ok(heap.alloc_integer_instance(n as i64))
    }

    /// `bytes.len()`: the number of bytes.
    pub fn len(heap: &mut ObjectHeap, receiver: ObjectHandle) -> (r: Result<ObjectHandle, RuntimeErrorKind>)
        requires
            old(heap).wf(),
        ensures
            final(heap).wf(),
            ObjectHeap::only_adds(old(heap), final(heap)),
            match live_view(old(heap), receiver, |o: Option<Object>| bytes_of(o)) {
                Some(data) => r matches Ok(h) && holds_int(final(heap), h, (data.len() as i64) as int),
                None => r matches Err(e) && is_type_mismatch(e, "bytes"@, type_name_of(old(heap), receiver))
                    && *final(heap) == *old(heap),
            },
    {
        Self::__len__(heap, receiver)
    }

    /// `bytes[i]`: the byte at `i` as an integer; a negative `i` counts from
    /// the end.
    pub fn __getitem__(heap: &mut ObjectHeap, receiver: ObjectHandle, idx_handle: ObjectHandle) -> (r: Result<ObjectHandle, RuntimeErrorKind>)
        requires
            old(heap).wf(),
        ensures
            final(heap).wf(),
            ObjectHeap::only_adds(old(heap), final(heap)),
            match (live_view(old(heap), receiver, |o: Option<Object>| bytes_of(o)),
                live_view(old(heap), idx_handle, |o: Option<Object>| int_of(o))) {
                (None, _) => r matches Err(e) && is_type_mismatch(e, "bytes"@, type_name_of(old(heap), receiver))
                    && *final(heap) == *old(heap),
                (Some(_), None) => r matches Err(e) && is_type_mismatch(e, "int"@, type_name_of(old(heap), idx_handle))
                    && *final(heap) == *old(heap),
                (Some(data), Some(v)) => {
                    let i = if v < 0 { data.len() + v } else { v as int };
                    if 0 <= i < data.len() {
                        r matches Ok(h) && holds_int(final(heap), h, data[i] as int)
                    } else {
                        r == Err::<ObjectHandle, RuntimeErrorKind>(RuntimeErrorKind::IndexOutOfRange(i as i64, data.len() as usize))
                            && *final(heap) == *old(heap)
                    }
                },
            },
    {
        let data = match heap.expect_bytes(receiver) {
            Ok(d) => d.clone(),
            Err(e) => return Err(e),
        };
        let v = match heap.expect_integer(idx_handle) {
            Ok(v) => v,
            Err(e) => return Err(e),
        };
        let len = data.len();
        let i: i128 = if v < 0 { len as i128 + v as i128 } else { v as i128 };
        if i < 0 || i >= len as i128 {
            return Err(RuntimeErrorKind::IndexOutOfRange(i as i64, len));
        }
        let b = data[i as usize];
        Ok(heap.alloc_integer_instance(b as i64))
    }

    /// `bytes == other`: true when `other` is a byte string with the same
    /// bytes; false when it is no byte string.
    pub fn __eq__(heap: &mut ObjectHeap, lhs: ObjectHandle, rhs: ObjectHandle) -> (r: Result<ObjectHandle, RuntimeErrorKind>)
        requires
            old(heap).wf(),
        ensures
            *final(heap) == *old(heap),
            match (live_view(old(heap), lhs, |o: Option<Object>| bytes_of(o)),
                live_view(old(heap), rhs, |o: Option<Object>| bytes_of(o))) {
                (_, None) => r matches Ok(h) && holds_bool(final(heap), h, false),
                (None, Some(_)) => r matches Err(e) && is_type_mismatch(e, "bytes"@, type_name_of(old(heap), lhs)),
                (Some(a), Some(b)) => r matches Ok(h) && holds_bool(final(heap), h, a == b),
            },
    {
        match heap.get_bytes_instance(rhs) {
            Some(rhs_data) => {
                let eq = match heap.expect_bytes(lhs) {
                    Ok(lhs_data) => bytes_equal(lhs_data, rhs_data),
                    Err(e) => return Err(e),
                };
                Ok(heap.alloc_bool_instance(eq))
            },
            None => Ok(heap.alloc_bool_instance(false)),
        }
    }

    /// `bytes != other`: the negation of `==`.
    pub fn __ne__(heap: &mut ObjectHeap, lhs: ObjectHandle, rhs: ObjectHandle) -> (r: Result<ObjectHandle, RuntimeErrorKind>)
        requires
            old(heap).wf(),
        ensures
            *final(heap) == *old(heap),
            match (live_view(old(heap), lhs, |o: Option<Object>| bytes_of(o)),
                live_view(old(heap), rhs, |o: Option<Object>| bytes_of(o))) {
                (_, None) => r matches Ok(h) && holds_bool(final(heap), h, true),
                (None, Some(_)) => r matches Err(e) && is_type_mismatch(e, "bytes"@, type_name_of(old(heap), lhs)),
                (Some(a), Some(b)) => r matches Ok(h) && holds_bool(final(heap), h, a != b),
            },
    {
        let eq = Self::__eq__(heap, lhs, rhs)?;
        let b = match heap.expect_bool(eq) {
            Ok(b) => b,
            Err(e) => return Err(e),
        };
        Ok(heap.alloc_bool_instance(!b))
    }

    /// `bytes + other`: the bytes of both, one after the other.
    pub fn __add__(heap: &mut ObjectHeap, lhs: ObjectHandle, rhs: ObjectHandle) -> (r: Result<ObjectHandle, RuntimeErrorKind>)
        requires
            old(heap).wf(),
        ensures
            final(heap).wf(),
            ObjectHeap::only_adds(old(heap), final(heap)),
            match (live_view(old(heap), lhs, |o: Option<Object>| bytes_of(o)),
                live_view(old(heap), rhs, |o: Option<Object>| bytes_of(o))) {
                (None, _) => r matches Err(e) && is_type_mismatch(e, "bytes"@, type_name_of(old(heap), lhs))
                    && *final(heap) == *old(heap),
                (Some(_), None) => r matches Err(RuntimeErrorKind::BinaryOpTypeMismatch(op, t, u))
                    && op@ == "add"@ && t@ == "bytes"@ && u@ == type_name_of(old(heap), rhs)
                    && *final(heap) == *old(heap),
                (Some(a), Some(b)) => r matches Ok(h) && new_bytes(old(heap), final(heap), h, a + b),
            },
    {
        let mut data = match heap.expect_bytes(lhs) {
            Ok(d) => d.clone(),
            Err(e) => return Err(e),
        };
        match heap.get_bytes_instance(rhs) {
            Some(rhs_data) => {
                let mut i: usize = 0;
                let ghost start = data@;
                while i < rhs_data.len()
                    invariant
                        i <= rhs_data@.len(),
                        data@ == start + rhs_data@.subrange(0, i as int),
                    decreases rhs_data@.len() - i,
                {
                    data.push(rhs_data[i]);
                    i = i + 1;
                    proof {
                        assert(data@ =~= start + rhs_data@.subrange(0, i as int));
                    }
                }
                proof {
                    assert(rhs_data@.subrange(0, rhs_data@.len() as int) =~= rhs_data@);
                }
            },
            None => {
                let found = heap.type_of(rhs);
                return Err(RuntimeErrorKind::BinaryOpTypeMismatch("add", "bytes", found));
            },
        }
        let h = heap.alloc_bytes_instance(data);
        proof {
            lemma_fresh_only_adds(old(heap), heap, h);
        }
        Ok(h)
    }

    /// `item in bytes`: does the byte string hold the byte `item`?  An
    /// integer outside 0 to 255 is in no byte string.
    pub fn __contains__(heap: &mut ObjectHeap, receiver: ObjectHandle, item: ObjectHandle) -> (r: Result<ObjectHandle, RuntimeErrorKind>)
        requires
            old(heap).wf(),
        ensures
            *final(heap) == *old(heap),
            match live_view(old(heap), item, |o: Option<Object>| int_of(o)) {
                None => r matches Err(e) && is_type_mismatch(e, "int"@, type_name_of(old(heap), item)),
                Some(v) => if v < 0 || v > 255 {
                    r matches Ok(h) && holds_bool(final(heap), h, false)
                } else {
                    match live_view(old(heap), receiver, |o: Option<Object>| bytes_of(o)) {
                        Some(data) => r matches Ok(h) && holds_bool(final(heap), h, data.contains(v as u8)),
                        None => r matches Err(e) && is_type_mismatch(e, "bytes"@, type_name_of(old(heap), receiver)),
                    }
                },
            },
    {
        let v = match heap.expect_integer(item) {
            Ok(v) => v,
            Err(e) => return Err(e),
        };
        if v < 0 || v > 255 {
            return Ok(heap.alloc_bool_instance(false));
        }
        let found = match heap.expect_bytes(receiver) {
            Ok(data) => bytes_contain(data, v as u8),
            Err(e) => return Err(e),
        };
        Ok(heap.alloc_bool_instance(found))
    }

    /// `bytes.__hash__()`: the default hash of the bytes, as an integer.
    pub fn __hash__(heap: &mut ObjectHeap, receiver: ObjectHandle) -> (r: Result<ObjectHandle, RuntimeErrorKind>)
        requires
            old(heap).wf(),
        ensures
            final(heap).wf(),
            ObjectHeap::only_adds(old(heap), final(heap)),
            match live_view(old(heap), receiver, |o: Option<Object>| bytes_of(o)) {
                Some(data) => r matches Ok(h) && final(heap).live(h)
                    && int_of(final(heap).objs()[h.0 as int]) == Some(default_hash_of_bytes(data) as i64),
                None => r matches Err(e) && is_type_mismatch(e, "bytes"@, type_name_of(old(heap), receiver))
                    && *final(heap) == *old(heap),
            },
    {
        let hash = match heap.expect_bytes(receiver) {
            Ok(data) => hash_bytes(data),
            Err(e) => return Err(e),
        };
        Ok(heap.alloc_integer_instance(hash as i64))
    }

    /// `bytes.decode(encoding)`: the text the bytes encode; the encoding
    /// must name UTF-8 and the bytes must be valid UTF-8.
    pub fn decode(heap: &mut ObjectHeap, receiver: ObjectHandle, encoding: ObjectHandle) -> (r: Result<ObjectHandle, RuntimeErrorKind>)
        requires
            old(heap).wf(),
        ensures
            final(heap).wf(),
            ObjectHeap::only_adds(old(heap), final(heap)),
            match live_view(old(heap), encoding, |o: Option<Object>| str_of(o)) {
                None => r matches Err(e) && is_type_mismatch(e, "string"@, type_name_of(old(heap), encoding))
                    && *final(heap) == *old(heap),
                Some(name) => if !names_utf8(name) {
                    r matches Err(e) && is_type_mismatch(e, "encoding 'utf-8'"@, "other encoding"@)
                        && *final(heap) == *old(heap)
                } else {
                    match live_view(old(heap), receiver, |o: Option<Object>| bytes_of(o)) {
                        None => r matches Err(e) && is_type_mismatch(e, "bytes"@, type_name_of(old(heap), receiver))
                            && *final(heap) == *old(heap),
                        Some(data) => if vstd::utf8::valid_utf8(data) {
                            r matches Ok(h) && holds_str(final(heap), h, vstd::utf8::decode_utf8(data))
                        } else {
                            r matches Err(e) && is_type_mismatch(e, "valid utf-8 bytes"@, "invalid utf-8 bytes"@)
                                && *final(heap) == *old(heap)
                        },
                    }
                },
            },
    {
        let ok_name = match heap.expect_string(encoding) {
            Ok(name) => is_utf8_name(name),
            Err(e) => return Err(e),
        };
        if !ok_name {
            return Err(RuntimeErrorKind::TypeMismatch { expected: "encoding 'utf-8'", found: "other encoding" });
        }
        let data = match heap.expect_bytes(receiver) {
            Ok(d) => d.clone(),
            Err(e) => return Err(e),
        };
        match decode_utf8_bytes(data) {
            Some(s) => Ok(heap.alloc_string_instance(s)),
            None => Err(RuntimeErrorKind::TypeMismatch { expected: "valid utf-8 bytes", found: "invalid utf-8 bytes" }),
        }
    }

    /// `bytes.hex()`: the bytes as lower-case hexadecimal digits.
    pub fn hex(heap: &mut ObjectHeap, receiver: ObjectHandle) -> (r: Result<ObjectHandle, RuntimeErrorKind>)
        requires
            old(heap).wf(),
        ensures
            final(heap).wf(),
            ObjectHeap::only_adds(old(heap), final(heap)),
            match live_view(old(heap), receiver, |o: Option<Object>| bytes_of(o)) {
                Some(data) => r matches Ok(h) && holds_str(final(heap), h, hex_text(data)),
                None => r matches Err(e) && is_type_mismatch(e, "bytes"@, type_name_of(old(heap), receiver))
                    && *final(heap) == *old(heap),
            },
    {
        let text = match heap.expect_bytes(receiver) {
            Ok(data) => hex_string(data),
            Err(e) => return Err(e),
        };
        Ok(heap.alloc_string_instance(text))
    }

    /// `bytes.to_list()`: a list of the bytes as integers.
    pub fn to_list(heap: &mut ObjectHeap, receiver: ObjectHandle) -> (r: Result<ObjectHandle, RuntimeErrorKind>)
        requires
            old(heap).wf(),
        ensures
            final(heap).wf(),
            ObjectHeap::only_adds(old(heap), final(heap)),
            match live_view(old(heap), receiver, |o: Option<Object>| bytes_of(o)) {
                Some(data) => r matches Ok(h) && final(heap).live(h)
                    && match list_of(final(heap).objs()[h.0 as int]) {
                        Some(items) => items.len() == data.len()
                            && forall|j: int| 0 <= j < items.len() ==> holds_int(final(heap), #[trigger] items[j], data[j] as int),
                        None => false,
                    },
                None => r matches Err(e) && is_type_mismatch(e, "bytes"@, type_name_of(old(heap), receiver))
                    && *final(heap) == *old(heap),
            },
    {
        let data = match heap.expect_bytes(receiver) {
            Ok(d) => d.clone(),
            Err(e) => return Err(e),
        };
        let mut items: Vec<ObjectHandle> = Vec::new();
        let mut i: usize = 0;
        while i < data.len()
            invariant
                i <= data@.len(),
                heap.wf(),
                ObjectHeap::only_adds(old(heap), heap),
                items@.len() == i,
                forall|j: int| 0 <= j < i ==> holds_int(heap, #[trigger] items@[j], data@[j] as int),
            decreases data@.len() - i,
        {
            let ghost before = *heap;
            let h = heap.alloc_integer_instance(data[i] as i64);
            proof {
                assert forall|j: int| 0 <= j < i implies holds_int(heap, #[trigger] items@[j], data@[j] as int) by {
                    assert(holds_int(&before, items@[j], data@[j] as int));
                    assert(heap.objs()[items@[j].0 as int] == before.objs()[items@[j].0 as int]);
                }
            }
            items.push(h);
            i = i + 1;
        }
        let ghost before = *heap;
        let ghost snapshot = items@;
        let h = heap.alloc_list_instance(items);
        proof {
            lemma_fresh_only_adds(&before, heap, h);
            assert forall|j: int| 0 <= j < snapshot.len() implies holds_int(heap, #[trigger] snapshot[j], data@[j] as int) by {
                assert(holds_int(&before, snapshot[j], data@[j] as int));
                assert(heap.objs()[snapshot[j].0 as int] == before.objs()[snapshot[j].0 as int]);
            }
        }
        Ok(h)
    }

    /// `bytes.__iter__()`: an iterator over the bytes, at the start.
    pub fn __iter__(heap: &mut ObjectHeap, receiver: ObjectHandle) -> (r: Result<ObjectHandle, RuntimeErrorKind>)
        requires
            old(heap).wf(),
        ensures
            final(heap).wf(),
            ObjectHeap::only_adds(old(heap), final(heap)),
            r matches Ok(h) && ObjectHeap::fresh_slot(old(heap), final(heap), h)
                && bytes_iter_of(final(heap).objs()[h.0 as int])
                    == Some(ObjectBytesIterator { bytes_handle: receiver, index: 0 }),
    {
        let class = heap.bytes_iter_class();
        let h = heap.alloc_instance(class, InstanceData::BytesIter(ObjectBytesIterator { bytes_handle: receiver, index: 0 }));
        proof {
            lemma_fresh_only_adds(old(heap), heap, h);
        }
        Ok(h)
    }

    /// `iterator.__next__()`: the next byte as an integer, moving the
    /// iterator on, or the end-of-iteration marker.
    pub fn iter_next(heap: &mut ObjectHeap, receiver: ObjectHandle) -> (r: Result<ObjectHandle, RuntimeErrorKind>)
        requires
            old(heap).wf(),
        ensures
            final(heap).wf(),
            match live_view(old(heap), receiver, |o: Option<Object>| bytes_iter_of(o)) {
                None => r matches Err(e) && is_type_mismatch(e, "bytes iterator"@, type_name_of(old(heap), receiver))
                    && *final(heap) == *old(heap),
                Some(it) => match live_view(old(heap), it.bytes_handle, |o: Option<Object>| bytes_of(o)) {
                    None => r matches Err(e) && is_type_mismatch(e, "bytes"@, type_name_of(old(heap), it.bytes_handle))
                        && *final(heap) == *old(heap),
                    Some(data) => if it.index >= data.len() {
                        r == Ok::<ObjectHandle, RuntimeErrorKind>(ObjectHandle(1)) && *final(heap) == *old(heap)
                    } else {
                        &&& r matches Ok(h) && holds_int(final(heap), h, data[it.index as int] as int)
                        &&& live_view(final(heap), receiver, |o: Option<Object>| bytes_iter_of(o))
                            == Some(ObjectBytesIterator { bytes_handle: it.bytes_handle, index: (it.index + 1) as usize })
                        &&& live_view(final(heap), it.bytes_handle, |o: Option<Object>| bytes_of(o)) == Some(data)
                    },
                },
            },
    {
        let it = match heap.expect_bytes_iter(receiver) {
            Ok(it) => it,
            Err(e) => return Err(e),
        };
        let (len, value) = match heap.expect_bytes(it.bytes_handle) {
            Ok(data) => if it.index >= data.len() {
                (data.len(), 0u8)
            } else {
                (data.len(), data[it.index])
            },
            Err(e) => return Err(e),
        };
        if it.index >= len {
            return Ok(ObjectHandle::iter_end());
        }
        heap.set_instance_data(receiver, InstanceData::BytesIter(ObjectBytesIterator { bytes_handle: it.bytes_handle, index: it.index + 1 }));
        let ghost mid = *heap;
        let h = heap.alloc_integer_instance(value as i64);
        proof {
            assert(heap.objs()[receiver.0 as int] == mid.objs()[receiver.0 as int]);
            assert(heap.objs()[it.bytes_handle.0 as int] == mid.objs()[it.bytes_handle.0 as int]);
        }
        Ok(h)
    }
}

} // verus!
