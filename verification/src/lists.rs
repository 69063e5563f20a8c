use vstd::prelude::*;

use crate::bytes::{holds_bool, holds_int, lemma_fresh_only_adds};
use crate::heap::{ObjectHeap, class_of, int_of, list_of};
use crate::object::{InstanceData, Object, ObjectHandle, ObjectList, ObjectListIterator};
use crate::runtime::{RuntimeErrorKind, is_type_mismatch, list_iter_of, live_view, type_name_of};

verus! {

/// The items of the list behind `h`, if it is one.
pub open spec fn list_arg(heap: &ObjectHeap, h: ObjectHandle) -> Option<Seq<ObjectHandle>> {
    live_view(heap, h, |o: Option<Object>| list_of(o))
}

/// The integer behind `h`, if it is one.
pub open spec fn index_arg(heap: &ObjectHeap, h: ObjectHandle) -> Option<i64> {
    live_view(heap, h, |o: Option<Object>| int_of(o))
}

/// `r` is the error for `h` not being a value of type `name`.
pub open spec fn not_a(heap: &ObjectHeap, h: ObjectHandle, name: Seq<char>, r: Result<ObjectHandle, RuntimeErrorKind>) -> bool {
    r matches Err(e) && is_type_mismatch(e, name, type_name_of(heap, h))
}

/// Only the list behind `h` changed, and it now holds `items`.
pub open spec fn list_changed(old_heap: &ObjectHeap, new_heap: &ObjectHeap, h: ObjectHandle, items: Seq<ObjectHandle>) -> bool {
    &&& new_heap.wf()
    &&& new_heap.objs().len() == old_heap.objs().len()
    &&& forall|i: int| 0 <= i < old_heap.objs().len() && i != h.0 ==> #[trigger] new_heap.objs()[i] == old_heap.objs()[i]
    &&& class_of(new_heap.objs()[h.0 as int]) == class_of(old_heap.objs()[h.0 as int])
    &&& list_arg(new_heap, h) == Some(items)
    &&& new_heap.caches() == old_heap.caches()
    &&& ObjectHeap::keeps_builtins(old_heap, new_heap)
    &&& (old_heap.idle() ==> new_heap.idle())
}

/// The position a list index stands for: a negative index counts from the
/// end.
pub open spec fn resolved_index(len: int, v: i64) -> int {
    if v < 0 {
        len + v
    } else {
        v as int
    }
}

/// Store `items` as the items of the list behind `h`.
fn store_items(heap: &mut ObjectHeap, h: ObjectHandle, items: Vec<ObjectHandle>)
    requires
        old(heap).wf(),
        list_arg(old(heap), h) is Some,
    ensures
        list_changed(old(heap), final(heap), h, items@),
{
    heap.set_instance_data(h, InstanceData::List(ObjectList { items }));
}

/// The items of the list behind `h`, or a type mismatch.
fn list_items(heap: &ObjectHeap, h: ObjectHandle) -> (r: Result<Vec<ObjectHandle>, RuntimeErrorKind>)
    ensures
        match list_arg(heap, h) {
            Some(items) => r matches Ok(v) && v@ == items,
            None => r matches Err(e) && is_type_mismatch(e, "list"@, type_name_of(heap, h)),
        },
{
    match heap.expect_list(h) {
        Ok(v) => Ok(v.clone()),
        Err(e) => Err(e),
    }
}

/// The integer behind `h`, or a type mismatch.
fn index_value(heap: &ObjectHeap, h: ObjectHandle) -> (r: Result<i64, RuntimeErrorKind>)
    ensures
        match index_arg(heap, h) {
            Some(v) => r == Ok::<i64, RuntimeErrorKind>(v),
            None => r matches Err(e) && is_type_mismatch(e, "int"@, type_name_of(heap, h)),
        },
{
    heap.expect_integer(h)
}

impl ObjectList {
    /// `not list`: is the list empty?
    pub fn __not__(heap: &mut ObjectHeap, receiver: ObjectHandle) -> (r: Result<ObjectHandle, RuntimeErrorKind>)
        requires
            old(heap).wf(),
        ensures
            *final(heap) == *old(heap),
            match list_arg(old(heap), receiver) {
                Some(items) => r matches Ok(h) && holds_bool(final(heap), h, items.len() == 0),
                None => not_a(old(heap), receiver, "list"@, r),
            },
    {
        let empty = match heap.expect_list(receiver) {
            Ok(v) => v.len() == 0,
            Err(e) => return Err(e),
        };
        Ok(heap.alloc_bool_instance(empty))
    }

    /// `list.__bool__()`: is the list non-empty?
    pub fn __bool__(heap: &mut ObjectHeap, receiver: ObjectHandle) -> (r: Result<ObjectHandle, RuntimeErrorKind>)
        requires
            old(heap).wf(),
        ensures
            *final(heap) == *old(heap),
            match list_arg(old(heap), receiver) {
                Some(items) => r matches Ok(h) && holds_bool(final(heap), h, items.len() > 0),
                None => not_a(old(heap), receiver, "list"@, r),
            },
    {
        let empty = match heap.expect_list(receiver) {
            Ok(v) => v.len() == 0,
            Err(e) => return Err(e),
        };
        Ok(heap.alloc_bool_instance(!empty))
    }

    /// `list.__len__()`: the number of items.
    pub fn __len__(heap: &mut ObjectHeap, receiver: ObjectHandle) -> (r: Result<ObjectHandle, RuntimeErrorKind>)
        requires
            old(heap).wf(),
        ensures
            final(heap).wf(),
            ObjectHeap::only_adds(old(heap), final(heap)),
            match list_arg(old(heap), receiver) {
                Some(items) => r matches Ok(h) && holds_int(final(heap), h, (items.len() as i64) as int),
                None => not_a(old(heap), receiver, "list"@, r) && *final(heap) == *old(heap),
            },
    {
        proof {
            crate::heap::lemma_only_adds_refl(heap);
        }
        let n = match heap.expect_list(receiver) {
            Ok(v) => v.len(),
            Err(e) => return Err(e),
        };
        Ok(heap.alloc_integer_instance(n as i64))
    }

    /// `list.len()`: the number of items.
    pub fn len(heap: &mut ObjectHeap, receiver: ObjectHandle) -> (r: Result<ObjectHandle, RuntimeErrorKind>)
        requires
            old(heap).wf(),
        ensures
            final(heap).wf(),
            ObjectHeap::only_adds(old(heap), final(heap)),
            match list_arg(old(heap), receiver) {
                Some(items) => r matches Ok(h) && holds_int(final(heap), h, (items.len() as i64) as int),
                None => not_a(old(heap), receiver, "list"@, r) && *final(heap) == *old(heap),
            },
    {
        Self::__len__(heap, receiver)
    }

    /// `a + b`: a new list of the items of both.
    pub fn __add__(heap: &mut ObjectHeap, lhs: ObjectHandle, rhs: ObjectHandle) -> (r: Result<ObjectHandle, RuntimeErrorKind>)
        requires
            old(heap).wf(),
        ensures
            final(heap).wf(),
            ObjectHeap::only_adds(old(heap), final(heap)),
            match (list_arg(old(heap), lhs), list_arg(old(heap), rhs)) {
                (None, _) => not_a(old(heap), lhs, "list"@, r) && *final(heap) == *old(heap),
                (Some(_), None) => r matches Err(RuntimeErrorKind::BinaryOpTypeMismatch(o, t, u))
                    && o@ == "add"@ && t@ == "list"@ && u@ == type_name_of(old(heap), rhs)
                    && *final(heap) == *old(heap),
                (Some(a), Some(b)) => r matches Ok(h) && ObjectHeap::fresh_slot(old(heap), final(heap), h)
                    && list_arg(final(heap), h) == Some(a + b),
            },
    {
        let mut items = list_items(heap, lhs)?;
        let more = match heap.get_list_instance(rhs) {
            Some(v) => v.clone(),
            None => return Err(RuntimeErrorKind::BinaryOpTypeMismatch("add", "list", heap.type_of(rhs))),
        };
        let ghost start = items@;
        let mut i: usize = 0;
        while i < more.len()
            invariant
                i <= more@.len(),
                items@ == start + more@.subrange(0, i as int),
            decreases more@.len() - i,
        {
            items.push(more[i]);
            i = i + 1;
            proof {
                assert(items@ =~= start + more@.subrange(0, i as int));
            }
        }
        proof {
            assert(more@.subrange(0, more@.len() as int) =~= more@);
        }
        let h = heap.alloc_list_instance(items);
        proof {
            lemma_fresh_only_adds(old(heap), heap, h);
        }
        Ok(h)
    }

    /// `list[i]`: the item at `i`; a negative `i` counts from the end.
    pub fn __getitem__(heap: &mut ObjectHeap, receiver: ObjectHandle, idx_handle: ObjectHandle) -> (r: Result<ObjectHandle, RuntimeErrorKind>)
        requires
            old(heap).wf(),
        ensures
            *final(heap) == *old(heap),
            match (list_arg(old(heap), receiver), index_arg(old(heap), idx_handle)) {
                (None, _) => not_a(old(heap), receiver, "list"@, r),
                (Some(_), None) => not_a(old(heap), idx_handle, "int"@, r),
                (Some(items), Some(v)) => {
                    let i = resolved_index(items.len() as int, v);
                    if 0 <= i < items.len() {
                        r == Ok::<ObjectHandle, RuntimeErrorKind>(items[i])
                    } else {
                        r == Err::<ObjectHandle, RuntimeErrorKind>(RuntimeErrorKind::IndexOutOfRange(i as i64, items.len() as usize))
                    }
                },
            },
    {
        let items = list_items(heap, receiver)?;
        let v = index_value(heap, idx_handle)?;
        let len = items.len();
        let i: i128 = if v < 0 { len as i128 + v as i128 } else { v as i128 };
        if i < 0 || i >= len as i128 {
            return Err(RuntimeErrorKind::IndexOutOfRange(i as i64, len));
        }
        Ok(items[i as usize])
    }

    /// `list[i] = value`: replace the item at `i` (a negative `i` counts
    /// from the end); the value is returned.
    pub fn __setitem__(heap: &mut ObjectHeap, receiver: ObjectHandle, idx_handle: ObjectHandle, value: ObjectHandle) -> (r: Result<ObjectHandle, RuntimeErrorKind>)
        requires
            old(heap).wf(),
        ensures
            final(heap).wf(),
            match (index_arg(old(heap), idx_handle), list_arg(old(heap), receiver)) {
                (None, _) => not_a(old(heap), idx_handle, "int"@, r) && *final(heap) == *old(heap),
                (Some(_), None) => not_a(old(heap), receiver, "list"@, r) && *final(heap) == *old(heap),
                (Some(v), Some(items)) => {
                    let i = resolved_index(items.len() as int, v);
                    if 0 <= i < items.len() {
                        r == Ok::<ObjectHandle, RuntimeErrorKind>(value)
                            && list_changed(old(heap), final(heap), receiver, items.update(i, value))
                    } else {
                        r == Err::<ObjectHandle, RuntimeErrorKind>(RuntimeErrorKind::IndexOutOfRange(i as i64, items.len() as usize))
                            && *final(heap) == *old(heap)
                    }
                },
            },
    {
        let v = index_value(heap, idx_handle)?;
        let mut items = list_items(heap, receiver)?;
        let len = items.len();
        let i: i128 = if v < 0 { len as i128 + v as i128 } else { v as i128 };
        if i < 0 || i >= len as i128 {
            return Err(RuntimeErrorKind::IndexOutOfRange(i as i64, len));
        }
        items.set(i as usize, value);
        store_items(heap, receiver, items);
        Ok(value)
    }

    /// `list.append(value)`: add `value` at the end; the value is returned.
    pub fn append(heap: &mut ObjectHeap, receiver: ObjectHandle, value: ObjectHandle) -> (r: Result<ObjectHandle, RuntimeErrorKind>)
        requires
            old(heap).wf(),
        ensures
            final(heap).wf(),
            match list_arg(old(heap), receiver) {
                None => not_a(old(heap), receiver, "list"@, r) && *final(heap) == *old(heap),
                Some(items) => r == Ok::<ObjectHandle, RuntimeErrorKind>(value)
                    && list_changed(old(heap), final(heap), receiver, items.push(value)),
            },
    {
        let mut items = list_items(heap, receiver)?;
        items.push(value);
        store_items(heap, receiver, items);
        Ok(value)
    }

    /// `list.pop()`: remove and return the last item.
    pub fn pop(heap: &mut ObjectHeap, receiver: ObjectHandle) -> (r: Result<ObjectHandle, RuntimeErrorKind>)
        requires
            old(heap).wf(),
        ensures
            final(heap).wf(),
            match list_arg(old(heap), receiver) {
                None => not_a(old(heap), receiver, "list"@, r) && *final(heap) == *old(heap),
                Some(items) => if items.len() == 0 {
                    r == Err::<ObjectHandle, RuntimeErrorKind>(RuntimeErrorKind::EmptyPop) && *final(heap) == *old(heap)
                } else {
                    r == Ok::<ObjectHandle, RuntimeErrorKind>(items.last())
                        && list_changed(old(heap), final(heap), receiver, items.drop_last())
                },
            },
    {
        let mut items = list_items(heap, receiver)?;
        match items.pop() {
            Some(last) => {
                store_items(heap, receiver, items);
                Ok(last)
            },
            None => Err(RuntimeErrorKind::EmptyPop),
        }
    }

    /// `list.extend(other)`: add the items of the list `other` at the end;
    /// returns `nil`.
    pub fn extend(heap: &mut ObjectHeap, receiver: ObjectHandle, other: ObjectHandle) -> (r: Result<ObjectHandle, RuntimeErrorKind>)
        requires
            old(heap).wf(),
        ensures
            final(heap).wf(),
            match (list_arg(old(heap), other), list_arg(old(heap), receiver)) {
                (None, _) => not_a(old(heap), other, "list"@, r) && *final(heap) == *old(heap),
                (Some(_), None) => not_a(old(heap), receiver, "list"@, r) && *final(heap) == *old(heap),
                (Some(more), Some(items)) => r == Ok::<ObjectHandle, RuntimeErrorKind>(ObjectHandle(0))
                    && list_changed(old(heap), final(heap), receiver, items + more),
            },
    {
        let more = list_items(heap, other)?;
        let mut items = list_items(heap, receiver)?;
        let ghost start = items@;
        let mut i: usize = 0;
        while i < more.len()
            invariant
                i <= more@.len(),
                items@ == start + more@.subrange(0, i as int),
            decreases more@.len() - i,
        {
            items.push(more[i]);
            i = i + 1;
            proof {
                assert(items@ =~= start + more@.subrange(0, i as int));
            }
        }
        proof {
            assert(more@.subrange(0, more@.len() as int) =~= more@);
        }
        store_items(heap, receiver, items);
        Ok(ObjectHandle::nil())
    }

    /// `list.__iter__()`: an iterator over the items, at the start.
    pub fn __iter__(heap: &mut ObjectHeap, receiver: ObjectHandle) -> (r: Result<ObjectHandle, RuntimeErrorKind>)
        requires
            old(heap).wf(),
        ensures
            final(heap).wf(),
            ObjectHeap::only_adds(old(heap), final(heap)),
            r matches Ok(h) && ObjectHeap::fresh_slot(old(heap), final(heap), h)
                && list_iter_of(final(heap).objs()[h.0 as int]) == Some(ObjectListIterator { list_handle: receiver, index: 0 }),
    {
        let class = heap.list_iter_class();
        let h = heap.alloc_instance(class, InstanceData::ListIter(ObjectListIterator { list_handle: receiver, index: 0 }));
        proof {
            lemma_fresh_only_adds(old(heap), heap, h);
        }
        Ok(h)
    }

    /// `iterator.__next__()`: the next item, moving the iterator on, or the
    /// end-of-iteration marker.
    pub fn iter_next(heap: &mut ObjectHeap, receiver: ObjectHandle) -> (r: Result<ObjectHandle, RuntimeErrorKind>)
        requires
            old(heap).wf(),
        ensures
            final(heap).wf(),
            match live_view(old(heap), receiver, |o: Option<Object>| list_iter_of(o)) {
                None => not_a(old(heap), receiver, "list iterator"@, r) && *final(heap) == *old(heap),
                Some(it) => match list_arg(old(heap), it.list_handle) {
                    None => not_a(old(heap), it.list_handle, "list"@, r) && *final(heap) == *old(heap),
                    Some(items) => if it.index >= items.len() {
                        r == Ok::<ObjectHandle, RuntimeErrorKind>(ObjectHandle(1)) && *final(heap) == *old(heap)
                    } else {
                        &&& r == Ok::<ObjectHandle, RuntimeErrorKind>(items[it.index as int])
                        &&& live_view(final(heap), receiver, |o: Option<Object>| list_iter_of(o))
                            == Some(ObjectListIterator { list_handle: it.list_handle, index: (it.index + 1) as usize })
                        &&& list_arg(final(heap), it.list_handle) == Some(items)
                    },
                },
            },
    {
        let it = match heap.expect_list_iter(receiver) {
            Ok(it) => it,
            Err(e) => return Err(e),
        };
        let items = list_items(heap, it.list_handle)?;
        if it.index >= items.len() {
            return Ok(ObjectHandle::iter_end());
        }
        let value = items[it.index];
        heap.set_instance_data(receiver, InstanceData::ListIter(ObjectListIterator { list_handle: it.list_handle, index: it.index + 1 }));
        Ok(value)
    }
}

} // verus!
