use vstd::prelude::*;

use crate::builtin::{decimal_chars, decimal_vec_u64};
use crate::bytes::{holds_bool, holds_int, holds_str};
use crate::heap::{ObjectHeap, bool_of, int_of};
use crate::object::{Object, ObjectBool, ObjectHandle, ObjectInt};
use crate::runtime::{RuntimeErrorKind, is_type_mismatch, live_view, type_name_of};
use crate::scan::string_from_chars;

verus! {

/// The integer behind `h`, if it is one.
pub open spec fn int_value_of(heap: &ObjectHeap, h: ObjectHandle) -> Option<i64> {
    live_view(heap, h, |o: Option<Object>| int_of(o))
}

/// The boolean behind `h`, if it is one.
pub open spec fn bool_value_of(heap: &ObjectHeap, h: ObjectHandle) -> Option<bool> {
    live_view(heap, h, |o: Option<Object>| bool_of(o))
}

/// `v` written in decimal, with a minus sign when negative.
pub open spec fn int_text(v: int) -> Seq<char> {
    if v < 0 {
        seq!['-'] + decimal_chars((-v) as nat)
    } else {
        decimal_chars(v as nat)
    }
}

/// `-v` with wrapping: the negation of the smallest `i64` is itself.
pub open spec fn wrapping_neg(v: i64) -> i64 {
    if v == i64::MIN {
        v
    } else {
        (-v) as i64
    }
}

/// `v` as 0 or 1.
pub open spec fn bool_int(v: bool) -> int {
    if v {
        1
    } else {
        0
    }
}

/// `r` is the error for `h` not being a value of type `name`.
pub open spec fn wrong_kind(heap: &ObjectHeap, h: ObjectHandle, name: Seq<char>, r: Result<ObjectHandle, RuntimeErrorKind>) -> bool {
    r matches Err(e) && is_type_mismatch(e, name, type_name_of(heap, h))
}

/// The decimal text of `v`.
pub fn int_to_text(v: i64) -> (s: String)
    ensures
        s@ == int_text(v as int),
{
    if v < 0 {
        let m = (-(v as i128)) as u64;
        let mut out = vec!['-'];
        let digits = decimal_vec_u64(m);
        let mut i: usize = 0;
        while i < digits.len()
            invariant
                i <= digits@.len(),
                out@ == seq!['-'] + digits@.subrange(0, i as int),
            decreases digits@.len() - i,
        {
            out.push(digits[i]);
            i = i + 1;
            proof {
                assert(out@ =~= seq!['-'] + digits@.subrange(0, i as int));
            }
        }
        proof {
            assert(digits@.subrange(0, digits@.len() as int) =~= digits@);
        }
        string_from_chars(out)
    } else {
        string_from_chars(decimal_vec_u64(v as u64))
    }
}

impl ObjectInt {
    /// `-n`, wrapping at the smallest integer.
    pub fn __neg__(heap: &mut ObjectHeap, receiver: ObjectHandle) -> (r: Result<ObjectHandle, RuntimeErrorKind>)
        requires
            old(heap).wf(),
        ensures
            final(heap).wf(),
            ObjectHeap::only_adds(old(heap), final(heap)),
            match int_value_of(old(heap), receiver) {
                Some(v) => r matches Ok(h) && holds_int(final(heap), h, wrapping_neg(v) as int),
                None => wrong_kind(old(heap), receiver, "int"@, r) && *final(heap) == *old(heap),
            },
    {
        proof {
            crate::heap::lemma_only_adds_refl(heap);
        }
        let v = heap.expect_integer(receiver)?;
        let n = if v == i64::MIN { v } else { -v };
        Ok(heap.alloc_integer_instance(n))
    }

    /// `not n`: is `n` zero?
    pub fn __not__(heap: &mut ObjectHeap, receiver: ObjectHandle) -> (r: Result<ObjectHandle, RuntimeErrorKind>)
        requires
            old(heap).wf(),
        ensures
            *final(heap) == *old(heap),
            match int_value_of(old(heap), receiver) {
                Some(v) => r matches Ok(h) && holds_bool(final(heap), h, v == 0),
                None => wrong_kind(old(heap), receiver, "int"@, r),
            },
    {
        let v = heap.expect_integer(receiver)?;
        Ok(heap.alloc_bool_instance(v == 0))
    }

    /// `n.__str__()`: the decimal text.
    pub fn __str__(heap: &mut ObjectHeap, receiver: ObjectHandle) -> (r: Result<ObjectHandle, RuntimeErrorKind>)
        requires
            old(heap).wf(),
        ensures
            final(heap).wf(),
            ObjectHeap::only_adds(old(heap), final(heap)),
            match int_value_of(old(heap), receiver) {
                Some(v) => r matches Ok(h) && holds_str(final(heap), h, int_text(v as int)),
                None => wrong_kind(old(heap), receiver, "int"@, r) && *final(heap) == *old(heap),
            },
    {
        proof {
            crate::heap::lemma_only_adds_refl(heap);
        }
        let v = heap.expect_integer(receiver)?;
        Ok(heap.alloc_string_instance(int_to_text(v)))
    }

    /// `n.__bool__()`: is `n` non-zero?
    pub fn __bool__(heap: &mut ObjectHeap, receiver: ObjectHandle) -> (r: Result<ObjectHandle, RuntimeErrorKind>)
        requires
            old(heap).wf(),
        ensures
            *final(heap) == *old(heap),
            match int_value_of(old(heap), receiver) {
                Some(v) => r matches Ok(h) && holds_bool(final(heap), h, v != 0),
                None => wrong_kind(old(heap), receiver, "int"@, r),
            },
    {
        let v = heap.expect_integer(receiver)?;
        Ok(heap.alloc_bool_instance(v != 0))
    }

    /// `n.__hash__()`: the integer itself.
    pub fn __hash__(heap: &mut ObjectHeap, receiver: ObjectHandle) -> (r: Result<ObjectHandle, RuntimeErrorKind>)
        requires
            old(heap).wf(),
        ensures
            final(heap).wf(),
            ObjectHeap::only_adds(old(heap), final(heap)),
            match int_value_of(old(heap), receiver) {
                Some(v) => r matches Ok(h) && holds_int(final(heap), h, v as int),
                None => wrong_kind(old(heap), receiver, "int"@, r) && *final(heap) == *old(heap),
            },
    {
        proof {
            crate::heap::lemma_only_adds_refl(heap);
        }
        let v = heap.expect_integer(receiver)?;
        Ok(heap.alloc_integer_instance(v))
    }

    /// `n.__int__()`: the value itself.
    pub fn __int__(heap: &mut ObjectHeap, receiver: ObjectHandle) -> (r: Result<ObjectHandle, RuntimeErrorKind>)
        ensures
            *final(heap) == *old(heap),
            r == Ok::<ObjectHandle, RuntimeErrorKind>(receiver),
    {
        Ok(receiver)
    }
}

impl ObjectBool {
    /// `-b`: -1 for true, 0 for false.
    pub fn __neg__(heap: &mut ObjectHeap, receiver: ObjectHandle) -> (r: Result<ObjectHandle, RuntimeErrorKind>)
        requires
            old(heap).wf(),
            bool_value_of(old(heap), receiver) is Some,
        ensures
            final(heap).wf(),
            ObjectHeap::only_adds(old(heap), final(heap)),
            r matches Ok(h) && holds_int(final(heap), h, -bool_int(bool_value_of(old(heap), receiver)->0)),
    {
        let v = match heap.get_bool_instance(receiver) {
            Some(v) => v,
            None => false,
        };
        Ok(heap.alloc_integer_instance(if v { -1 } else { 0 }))
    }

    /// `not b`.
    pub fn __not__(heap: &mut ObjectHeap, receiver: ObjectHandle) -> (r: Result<ObjectHandle, RuntimeErrorKind>)
        requires
            old(heap).wf(),
            bool_value_of(old(heap), receiver) is Some,
        ensures
            *final(heap) == *old(heap),
            r matches Ok(h) && holds_bool(final(heap), h, !bool_value_of(old(heap), receiver)->0),
    {
        let v = match heap.get_bool_instance(receiver) {
            Some(v) => v,
            None => false,
        };
        Ok(heap.alloc_bool_instance(!v))
    }

    /// `b.__str__()`: `true` or `false`.
    pub fn __str__(heap: &mut ObjectHeap, receiver: ObjectHandle) -> (r: Result<ObjectHandle, RuntimeErrorKind>)
        requires
            old(heap).wf(),
        ensures
            final(heap).wf(),
            ObjectHeap::only_adds(old(heap), final(heap)),
            match bool_value_of(old(heap), receiver) {
                Some(v) => r matches Ok(h) && holds_str(final(heap), h, if v { "true"@ } else { "false"@ }),
                None => wrong_kind(old(heap), receiver, "bool"@, r) && *final(heap) == *old(heap),
            },
    {
        proof {
            crate::heap::lemma_only_adds_refl(heap);
        }
        let v = heap.expect_bool(receiver)?;
        let text = if v { "true".to_owned() } else { "false".to_owned() };
        Ok(heap.alloc_string_instance(text))
    }

    /// `b.__bool__()`: the value itself.
    pub fn __bool__(heap: &mut ObjectHeap, receiver: ObjectHandle) -> (r: Result<ObjectHandle, RuntimeErrorKind>)
        ensures
            *final(heap) == *old(heap),
            r == Ok::<ObjectHandle, RuntimeErrorKind>(receiver),
    {
        Ok(receiver)
    }

    /// `b.__hash__()`: 1 for true, 0 for false.
    pub fn __hash__(heap: &mut ObjectHeap, receiver: ObjectHandle) -> (r: Result<ObjectHandle, RuntimeErrorKind>)
        requires
            old(heap).wf(),
        ensures
            final(heap).wf(),
            ObjectHeap::only_adds(old(heap), final(heap)),
            match bool_value_of(old(heap), receiver) {
                Some(v) => r matches Ok(h) && holds_int(final(heap), h, bool_int(v)),
                None => wrong_kind(old(heap), receiver, "bool"@, r) && *final(heap) == *old(heap),
            },
    {
        proof {
            crate::heap::lemma_only_adds_refl(heap);
        }
        let v = heap.expect_bool(receiver)?;
        Ok(heap.alloc_integer_instance(if v { 1 } else { 0 }))
    }

    /// `b.__int__()`: 1 for true, 0 for false.
    pub fn __int__(heap: &mut ObjectHeap, receiver: ObjectHandle) -> (r: Result<ObjectHandle, RuntimeErrorKind>)
        requires
            old(heap).wf(),
        ensures
            final(heap).wf(),
            ObjectHeap::only_adds(old(heap), final(heap)),
            match bool_value_of(old(heap), receiver) {
                Some(v) => r matches Ok(h) && holds_int(final(heap), h, bool_int(v)),
                None => wrong_kind(old(heap), receiver, "bool"@, r) && *final(heap) == *old(heap),
            },
    {
        Self::__hash__(heap, receiver)
    }
}

/// `type(value)`: the class of an instance; for anything else a string
/// with the name of its type.
pub fn typeof_val(heap: &mut ObjectHeap, arg: ObjectHandle) -> (r: Result<ObjectHandle, RuntimeErrorKind>)
    requires
        old(heap).wf(),
    ensures
        final(heap).wf(),
        ObjectHeap::only_adds(old(heap), final(heap)),
        match crate::builtin::instance_class(old(heap), arg) {
            Some(c) => r == Ok::<ObjectHandle, RuntimeErrorKind>(c) && *final(heap) == *old(heap),
            None => r matches Ok(h) && holds_str(final(heap), h, type_name_of(old(heap), arg)),
        },
{
    proof {
        crate::heap::lemma_only_adds_refl(heap);
    }
    match heap.get_instance(arg) {
        Some(inst) => Ok(inst.class),
        None => {
            let name = heap.type_of(arg);
            Ok(heap.alloc_string_instance(name.to_owned()))
        },
    }
}

/// `is_iter_end(value)`: is `value` the end-of-iteration marker?
pub fn is_iter_end(heap: &mut ObjectHeap, value: ObjectHandle) -> (r: Result<ObjectHandle, RuntimeErrorKind>)
    requires
        old(heap).wf(),
    ensures
        *final(heap) == *old(heap),
        r matches Ok(h) && holds_bool(final(heap), h, value.0 == 1),
{
    Ok(heap.alloc_bool_instance(value.is_iter_end()))
}

/// `id(value)`: the handle's number, as an integer.
pub fn id(heap: &mut ObjectHeap, obj: ObjectHandle) -> (r: Result<ObjectHandle, RuntimeErrorKind>)
    requires
        old(heap).wf(),
    ensures
        final(heap).wf(),
        ObjectHeap::only_adds(old(heap), final(heap)),
        r matches Ok(h) && holds_int(final(heap), h, (obj.0 as i64) as int),
{
    Ok(heap.alloc_integer_instance(obj.0 as i64))
}

} // verus!
