use vstd::prelude::*;
use vstd::hash_map::StringHashMap;

use crate::chunk::Chunk;
use crate::object::{
    InstanceData, Method, Object, ObjectBool, ObjectBoundMethod, ObjectBytes, ObjectClass, ObjectClosure, ObjectDict,
    ObjectFields, ObjectFloat, ObjectFunction, ObjectHandle, ObjectInstance, ObjectInt, ObjectList, ObjectSet,
    ObjectString, ObjectUpvalue, StringMethod, data_refs, lemma_refs_are_stored_handles, object_refs, opt_ref,
    stores_handle,
};

verus! {

/// Smallest integer kept in the small-integer cache.
pub const SMALL_INT_MIN: i64 = -5i64;

/// Largest integer kept in the small-integer cache.
pub const SMALL_INT_MAX: i64 = 256i64;

/// Number of entries of the small-integer cache.
pub const SMALL_INT_COUNT: usize = 262usize;

pub open spec fn is_small_int(v: i64) -> bool {
    SMALL_INT_MIN <= v <= SMALL_INT_MAX
}

/// Is `o` an instance holding the integer `v`?
pub open spec fn is_int_object(o: Option<Object>, v: int) -> bool {
    o matches Some(Object::Instance(inst)) && inst.data matches InstanceData::Int(n) && n.value == v
}

/// Is `o` an instance holding the string `s`?
pub open spec fn is_str_object(o: Option<Object>, s: Seq<char>) -> bool {
    o matches Some(Object::Instance(inst)) && inst.data matches InstanceData::Str(t) && t.value@ == s
}

/// Is `o` an instance holding the boolean `b`?
pub open spec fn is_bool_object(o: Option<Object>, b: bool) -> bool {
    o matches Some(Object::Instance(inst)) && inst.data matches InstanceData::Bool(v) && v.value == b
}

/// The string an instance holds (empty for anything else).
pub open spec fn str_value_of(o: Option<Object>) -> Seq<char> {
    match o {
        Some(Object::Instance(inst)) => match inst.data {
            InstanceData::Str(t) => t.value@,
            _ => Seq::empty(),
        },
        _ => Seq::empty(),
    }
}

pub open spec fn is_class_object(o: Option<Object>) -> bool {
    o matches Some(Object::Class(_))
}

/// The object store.  Slots 0 and 1 stand for the `nil` and end-of-iteration
/// sentinels and never hold an object; freed slots are reused.  Small
/// integers and strings are interned.  A mark-and-sweep collector frees the
/// objects that are not reachable from the marked roots.
pub struct ObjectHeap {
    objects: Vec<Option<Object>>,
    marked: Vec<bool>,
    /// One object's size for each object stored, counted as a `usize`
    /// that wraps.
    bytes_allocated: usize,
    free_slots: Vec<usize>,
    gray_stack: Vec<ObjectHandle>,
    int_cache: Vec<Option<ObjectHandle>>,
    string_cache: StringHashMap<ObjectHandle>,
    /// The handles held by `string_cache`, for marking.
    interned_strings: Vec<ObjectHandle>,
    nil_class: ObjectHandle,
    int_class: ObjectHandle,
    float_class: ObjectHandle,
    bool_class: ObjectHandle,
    string_class: ObjectHandle,
    list_class: ObjectHandle,
    dict_class: ObjectHandle,
    set_class: ObjectHandle,
    bytes_class: ObjectHandle,
    module_class: ObjectHandle,
    true_instance: ObjectHandle,
    false_instance: ObjectHandle,
    list_iter_class: ObjectHandle,
    string_iter_class: ObjectHandle,
    dict_iter_class: ObjectHandle,
    set_iter_class: ObjectHandle,
    bytes_iter_class: ObjectHandle,
}

impl ObjectHeap {
    /// The slots of the heap.
    pub closed spec fn objs(&self) -> Seq<Option<Object>> {
        self.objects@
    }

    /// The count of bytes allocated to objects.
    pub closed spec fn allocated_bytes(&self) -> usize {
        self.bytes_allocated
    }

    /// The count of bytes allocated to objects: one object's size for each
    /// object stored, less one for each object swept.
    pub fn bytes_allocated(&self) -> (r: usize)
        ensures
            r == self.allocated_bytes(),
    {
        self.bytes_allocated
    }

    /// The mark bits.
    pub closed spec fn marks(&self) -> Seq<bool> {
        self.marked@
    }

    /// The objects waiting to have their references marked.
    pub closed spec fn gray(&self) -> Seq<ObjectHandle> {
        self.gray_stack@
    }

    /// The handle interned for the small integer `v`.
    pub closed spec fn cached_int(&self, v: i64) -> Option<ObjectHandle> {
        if is_small_int(v) {
            self.int_cache@[v - SMALL_INT_MIN]
        } else {
            None
        }
    }

    /// The handle interned for the string `s`.
    pub closed spec fn cached_str(&self, s: Seq<char>) -> Option<ObjectHandle> {
        if self.string_cache@.contains_key(s) {
            Some(self.string_cache@[s])
        } else {
            None
        }
    }

    /// The interning caches, as a whole.
    pub closed spec fn caches(&self) -> (Seq<Option<ObjectHandle>>, Map<Seq<char>, ObjectHandle>, Seq<ObjectHandle>) {
        (self.int_cache@, self.string_cache@, self.interned_strings@)
    }

    /// Is `h` the handle of a live object?
    pub open spec fn live(&self, h: ObjectHandle) -> bool {
        0 <= h.0 < self.objs().len() && self.objs()[h.0 as int] is Some
    }

    /// The slots freed for reuse.
    pub closed spec fn free_list(&self) -> Seq<usize> {
        self.free_slots@
    }

    pub closed spec fn spec_true_instance(&self) -> ObjectHandle {
        self.true_instance
    }

    pub closed spec fn spec_false_instance(&self) -> ObjectHandle {
        self.false_instance
    }

    pub closed spec fn class_handles(&self) -> Seq<ObjectHandle> {
        seq![
            self.nil_class, self.int_class, self.float_class, self.bool_class, self.string_class,
            self.list_class, self.dict_class, self.set_class, self.bytes_class, self.module_class,
            self.list_iter_class, self.string_iter_class, self.dict_iter_class, self.set_iter_class,
            self.bytes_iter_class,
        ]
    }

    /// The heap's invariant.
    pub closed spec fn wf(&self) -> bool {
        let n = self.objects@.len();
        &&& n == self.marked@.len()
        &&& 2 <= n
        &&& self.objects@[0] is None
        &&& self.objects@[1] is None
        // free slots are empty, distinct, and not sentinels
        &&& forall|j: int| 0 <= j < self.free_slots@.len() ==>
            2 <= #[trigger] self.free_slots@[j] < n && self.objects@[self.free_slots@[j] as int] is None
        &&& forall|j: int, k: int| 0 <= j < k < self.free_slots@.len() ==>
            self.free_slots@[j] != self.free_slots@[k]
        &&& forall|j: int| 0 <= j < self.gray_stack@.len() ==> (#[trigger] self.gray_stack@[j]).0 < n
        // only live objects are marked
        &&& forall|i: int| 0 <= i < n && #[trigger] self.marked@[i] ==> self.objects@[i] is Some
        // the small-integer cache
        &&& self.int_cache@.len() == SMALL_INT_COUNT
        &&& forall|k: int| 0 <= k < SMALL_INT_COUNT ==> (#[trigger] self.int_cache@[k] matches Some(h) ==> {
            &&& 2 <= h.0 < n
            &&& is_int_object(self.objects@[h.0 as int], k + SMALL_INT_MIN)
        })
        // the string cache and its list of handles
        &&& forall|s: Seq<char>| #[trigger] self.string_cache@.contains_key(s) ==> {
            let h = self.string_cache@[s];
            &&& 2 <= h.0 < n
            &&& is_str_object(self.objects@[h.0 as int], s)
            &&& self.interned_strings@.contains(h)
        }
        &&& forall|j: int| 0 <= j < self.interned_strings@.len() ==> {
            let h = #[trigger] self.interned_strings@[j];
            let s = str_value_of(self.objects@[h.0 as int]);
            &&& 2 <= h.0 < n
            &&& is_str_object(self.objects@[h.0 as int], s)
            &&& self.string_cache@.contains_key(s)
            &&& self.string_cache@[s] == h
        }
        &&& forall|j: int, k: int| 0 <= j < k < self.interned_strings@.len() ==>
            self.interned_strings@[j] != self.interned_strings@[k]
        // the built-in classes and boolean singletons
        &&& forall|j: int| 0 <= j < 15 ==> {
            let h = #[trigger] self.class_handles()[j];
            2 <= h.0 < n && is_class_object(self.objects@[h.0 as int])
        }
        &&& 2 <= self.true_instance.0 < n
        &&& is_bool_object(self.objects@[self.true_instance.0 as int], true)
        &&& 2 <= self.false_instance.0 < n
        &&& is_bool_object(self.objects@[self.false_instance.0 as int], false)
    }

    /// No object is marked and none is waiting to be traced: the state
    /// outside a collection.
    pub open spec fn idle(&self) -> bool {
        &&& self.gray().len() == 0
        &&& forall|i: int| 0 <= i < self.marks().len() ==> !#[trigger] self.marks()[i]
    }

    /// Every marked live object that is not waiting to be traced has all
    /// its live references marked.
    pub open spec fn tricolor(&self) -> bool {
        traced_except(self.objs(), self.marks(), self.gray(), -1)
    }

    /// Every object waiting to be traced is marked.
    pub open spec fn gray_marked(&self) -> bool {
        forall|k: int| 0 <= k < self.gray().len() ==> self.marks()[#[trigger] self.gray()[k].0 as int]
    }

    /// `h` was a free slot (or a new one) and every other slot is unchanged.
    pub open spec fn fresh_slot(old_heap: &ObjectHeap, new_heap: &ObjectHeap, h: ObjectHandle) -> bool {
        &&& 2 <= h.0 < new_heap.objs().len()
        &&& old_heap.objs().len() <= new_heap.objs().len() <= old_heap.objs().len() + 1
        &&& (h.0 < old_heap.objs().len() ==> old_heap.objs()[h.0 as int] is None)
        &&& new_heap.objs()[h.0 as int] is Some
        &&& forall|i: int| 0 <= i < old_heap.objs().len() && i != h.0 ==> new_heap.objs()[i] == old_heap.objs()[i]
    }

    /// Every live object stays as it was; slots may only be added or filled.
    pub open spec fn only_adds(old_heap: &ObjectHeap, new_heap: &ObjectHeap) -> bool {
        &&& old_heap.objs().len() <= new_heap.objs().len()
        &&& forall|i: int| 0 <= i < old_heap.objs().len() && old_heap.objs()[i] is Some
            ==> #[trigger] new_heap.objs()[i] == old_heap.objs()[i]
        &&& ObjectHeap::keeps_builtins(old_heap, new_heap)
        &&& old_heap.idle() ==> new_heap.idle()
    }

    /// Allocation placed `obj` at the fresh slot `h`.
    pub open spec fn allocated(old_heap: &ObjectHeap, new_heap: &ObjectHeap, h: ObjectHandle, obj: Object) -> bool {
        &&& ObjectHeap::fresh_slot(old_heap, new_heap, h)
        &&& new_heap.objs()[h.0 as int] == Some(obj)
    }
}

} // verus!

verus! {

/// `x` holds every in-range reference of every live object it holds.
pub open spec fn closed_under_refs(objs: Seq<Option<Object>>, x: Set<int>) -> bool {
    forall|i: int, j: int|
        #![trigger x.contains(i), object_refs(objs[i]->0)[j]]
        x.contains(i) && 0 <= i < objs.len() && objs[i] is Some && 0 <= j < object_refs(objs[i]->0).len() ==> {
            let c = object_refs(objs[i]->0)[j];
            2 <= c.0 < objs.len() && objs[c.0 as int] is Some ==> x.contains(c.0 as int)
        }
}

/// Slot `i` belongs to every reference-closed set that contains `roots`:
/// it is reachable from the roots.
pub open spec fn reachable_from(objs: Seq<Option<Object>>, roots: Set<int>, i: int) -> bool {
    forall|x: Set<int>| #[trigger] closed_under_refs(objs, x) && roots.subset_of(x) ==> x.contains(i)
}

/// Indices whose mark bit is set.
pub open spec fn marked_set(marks: Seq<bool>) -> Set<int> {
    Set::new(|i: int| 0 <= i < marks.len() && marks[i])
}

/// Number of unmarked slots.
pub open spec fn count_unmarked(marks: Seq<bool>) -> nat
    decreases marks.len(),
{
    if marks.len() == 0 {
        0
    } else {
        count_unmarked(marks.drop_last()) + if marks.last() { 0nat } else { 1nat }
    }
}

proof fn lemma_count_unmarked_set(marks: Seq<bool>, i: int)
    requires
        0 <= i < marks.len(),
        !marks[i],
    ensures
        count_unmarked(marks.update(i, true)) + 1 == count_unmarked(marks),
    decreases marks.len(),
{
    let m2 = marks.update(i, true);
    if i == marks.len() - 1 {
        assert(m2.drop_last() =~= marks.drop_last());
    } else {
        lemma_count_unmarked_set(marks.drop_last(), i);
        assert(m2.drop_last() =~= marks.drop_last().update(i, true));
    }
}

/// Does `o` hold the handle of slot `i`?
pub open spec fn opt_slot_is(o: Option<ObjectHandle>, i: int) -> bool {
    o matches Some(h) && h.0 == i
}

/// Is some handle waiting in `gray` the handle of slot `i`?
pub open spec fn in_gray(gray: Seq<ObjectHandle>, i: int) -> bool {
    exists|k: int| 0 <= k < gray.len() && #[trigger] gray[k].0 == i
}

/// Every marked live object other than slot `skip` that is not waiting in
/// `gray` has all its live references marked.
pub open spec fn traced_except(objs: Seq<Option<Object>>, marks: Seq<bool>, gray: Seq<ObjectHandle>, skip: int) -> bool {
    forall|i: int, j: int|
        0 <= i < objs.len() && i != skip && #[trigger] marks[i] && objs[i] is Some && !in_gray(gray, i)
        && 0 <= j < object_refs(objs[i]->0).len()
        ==> {
            let c = #[trigger] object_refs(objs[i]->0)[j];
            2 <= c.0 < objs.len() && objs[c.0 as int] is Some ==> marks[c.0 as int]
        }
}

/// The marked slots and the waiting handles all lie in `x`.
pub open spec fn within(marks: Seq<bool>, gray: Seq<ObjectHandle>, x: Set<int>) -> bool {
    &&& forall|i: int| 0 <= i < marks.len() && #[trigger] marks[i] ==> x.contains(i)
    &&& forall|k: int| 0 <= k < gray.len() ==> x.contains(#[trigger] gray[k].0 as int)
}

/// Marking more slots keeps the tracing property when every newly marked
/// slot is waiting and nothing stopped waiting.
proof fn lemma_traced_grow(
    objs: Seq<Option<Object>>,
    m1: Seq<bool>,
    g1: Seq<ObjectHandle>,
    m2: Seq<bool>,
    g2: Seq<ObjectHandle>,
    skip: int,
)
    requires
        traced_except(objs, m1, g1, skip),
        m1.len() == objs.len(),
        m2.len() == objs.len(),
        forall|i: int| 0 <= i < m1.len() && #[trigger] m1[i] ==> m2[i],
        forall|i: int| 0 <= i < m2.len() && #[trigger] m2[i] && !m1[i] ==> in_gray(g2, i),
        forall|i: int| #[trigger] in_gray(g1, i) ==> in_gray(g2, i),
    ensures
        traced_except(objs, m2, g2, skip),
{
    assert forall|i: int, j: int|
        0 <= i < objs.len() && i != skip && #[trigger] m2[i] && objs[i] is Some && !in_gray(g2, i)
        && 0 <= j < object_refs(objs[i]->0).len()
        implies {
            let c = #[trigger] object_refs(objs[i]->0)[j];
            2 <= c.0 < objs.len() && objs[c.0 as int] is Some ==> m2[c.0 as int]
        } by {
        assert(m1[i]);
        assert(!in_gray(g1, i));
        let c = object_refs(objs[i]->0)[j];
        if 2 <= c.0 < objs.len() && objs[c.0 as int] is Some {
            assert(m1[c.0 as int]);
        }
    }
}

/// Pushing `h` keeps every waiting handle waiting.
proof fn lemma_in_gray_push(g: Seq<ObjectHandle>, h: ObjectHandle)
    ensures
        forall|i: int| #[trigger] in_gray(g, i) ==> in_gray(g.push(h), i),
        in_gray(g.push(h), h.0 as int),
{
    assert forall|i: int| #[trigger] in_gray(g, i) implies in_gray(g.push(h), i) by {
        let k = choose|k: int| 0 <= k < g.len() && #[trigger] g[k].0 == i;
        assert(g.push(h)[k].0 == i);
    }
    assert(g.push(h)[g.len() as int].0 == h.0);
}

proof fn lemma_count_unmarked_le(marks: Seq<bool>)
    ensures
        count_unmarked(marks) <= marks.len(),
    decreases marks.len(),
{
    if marks.len() > 0 {
        lemma_count_unmarked_le(marks.drop_last());
    }
}

impl ObjectHeap {
    /// The slots the interning caches hold.
    pub closed spec fn cache_roots(&self) -> Set<int> {
        Set::new(|i: int|
            (exists|k: int| 0 <= k < SMALL_INT_COUNT && opt_slot_is(#[trigger] self.int_cache@[k], i))
            || (exists|j: int| 0 <= j < self.interned_strings@.len() && (#[trigger] self.interned_strings@[j]).0 == i))
    }

    /// The built-in classes and the boolean singletons are the same.
    pub open spec fn same_builtins(old_heap: &ObjectHeap, new_heap: &ObjectHeap) -> bool {
        &&& new_heap.spec_true_instance() == old_heap.spec_true_instance()
        &&& new_heap.spec_false_instance() == old_heap.spec_false_instance()
        &&& new_heap.class_handles() == old_heap.class_handles()
    }

    /// The built-in classes and the boolean singletons are kept, and the
    /// interning caches only grow.
    pub open spec fn keeps_builtins(old_heap: &ObjectHeap, new_heap: &ObjectHeap) -> bool {
        &&& ObjectHeap::same_builtins(old_heap, new_heap)
        &&& forall|v: i64| #[trigger] old_heap.cached_int(v) is Some ==> new_heap.cached_int(v) == old_heap.cached_int(v)
        &&& forall|s: Seq<char>| #[trigger] old_heap.cached_str(s) is Some ==> new_heap.cached_str(s) == old_heap.cached_str(s)
    }

    /// Store `obj` in a free slot (reusing a freed one first) and return its
    /// handle.
    pub fn alloc_object(&mut self, obj: Object) -> (h: ObjectHandle)
        requires
            old(self).wf(),
        ensures
            final(self).wf(),
            ObjectHeap::allocated(old(self), final(self), h, obj),
            ObjectHeap::keeps_builtins(old(self), final(self)),
            forall|v: i64| #[trigger] final(self).cached_int(v) == old(self).cached_int(v),
            forall|s: Seq<char>| #[trigger] final(self).cached_str(s) == old(self).cached_str(s),
            final(self).caches() == old(self).caches(),
            final(self).marks().len() == final(self).objs().len(),
            !final(self).marks()[h.0 as int],
            forall|i: int| 0 <= i < old(self).marks().len() && i != h.0 ==> final(self).marks()[i] == old(self).marks()[i],
            final(self).gray() == old(self).gray(),
            old(self).idle() ==> final(self).idle(),
            final(self).allocated_bytes() == vstd::wrapping::usize_specs::wrapping_add(old(self).allocated_bytes(), object_size()),
    {
        let size = std::mem::size_of::<Object>();
        self.bytes_allocated = self.bytes_allocated.wrapping_add(size);
        let ghost n = self.objects@.len();
        match self.free_slots.pop() {
            Some(index) => {
                proof {
                    assert(self.free_slots@.len() + 1 == old(self).free_slots@.len());
                    assert(index == old(self).free_slots@[self.free_slots@.len() as int]);
                    assert forall|j: int| 0 <= j < self.free_slots@.len() implies self.free_slots@[j] != index by {
                        assert(old(self).free_slots@[j] == self.free_slots@[j]);
                    }
                }
                self.objects.set(index, Some(obj));
                self.marked.set(index, false);
                proof {
                    assert forall|k: int| 0 <= k < SMALL_INT_COUNT implies (#[trigger] self.int_cache@[k] matches Some(h) ==> {
                        &&& 2 <= h.0 < self.objects@.len()
                        &&& is_int_object(self.objects@[h.0 as int], k + SMALL_INT_MIN)
                    }) by {
                        if let Some(h) = self.int_cache@[k] {
                            assert(is_int_object(old(self).objects@[h.0 as int], k + SMALL_INT_MIN));
                        }
                    }
                    assert forall|s: Seq<char>| #[trigger] self.string_cache@.contains_key(s) implies {
                        let h = self.string_cache@[s];
                        &&& 2 <= h.0 < self.objects@.len()
                        &&& is_str_object(self.objects@[h.0 as int], s)
                        &&& self.interned_strings@.contains(h)
                    } by {
                        let h = self.string_cache@[s];
                        assert(is_str_object(old(self).objects@[h.0 as int], s));
                    }
                    assert forall|j: int| 0 <= j < self.interned_strings@.len() implies {
                        let h = #[trigger] self.interned_strings@[j];
                        let s = str_value_of(self.objects@[h.0 as int]);
                        &&& 2 <= h.0 < self.objects@.len()
                        &&& is_str_object(self.objects@[h.0 as int], s)
                        &&& self.string_cache@.contains_key(s)
                        &&& self.string_cache@[s] == h
                    } by {
                        let h = self.interned_strings@[j];
                        assert(is_str_object(old(self).objects@[h.0 as int], str_value_of(old(self).objects@[h.0 as int])));
                    }
                    assert forall|j: int| 0 <= j < 15 implies {
                        let h = #[trigger] self.class_handles()[j];
                        2 <= h.0 < self.objects@.len() && is_class_object(self.objects@[h.0 as int])
                    } by {
                        assert(is_class_object(old(self).objects@[old(self).class_handles()[j].0 as int]));
                    }
                }
                ObjectHandle(index)
            },
            None => {
                let index = self.objects.len();
                self.objects.push(Some(obj));
                self.marked.push(false);
                proof {
                    assert forall|k: int| 0 <= k < SMALL_INT_COUNT implies (#[trigger] self.int_cache@[k] matches Some(h) ==> {
                        &&& 2 <= h.0 < self.objects@.len()
                        &&& is_int_object(self.objects@[h.0 as int], k + SMALL_INT_MIN)
                    }) by {
                        if let Some(h) = self.int_cache@[k] {
                            assert(is_int_object(old(self).objects@[h.0 as int], k + SMALL_INT_MIN));
                        }
                    }
                    assert forall|s: Seq<char>| #[trigger] self.string_cache@.contains_key(s) implies {
                        let h = self.string_cache@[s];
                        &&& 2 <= h.0 < self.objects@.len()
                        &&& is_str_object(self.objects@[h.0 as int], s)
                        &&& self.interned_strings@.contains(h)
                    } by {
                        let h = self.string_cache@[s];
                        assert(is_str_object(old(self).objects@[h.0 as int], s));
                    }
                    assert forall|j: int| 0 <= j < self.interned_strings@.len() implies {
                        let h = #[trigger] self.interned_strings@[j];
                        let s = str_value_of(self.objects@[h.0 as int]);
                        &&& 2 <= h.0 < self.objects@.len()
                        &&& is_str_object(self.objects@[h.0 as int], s)
                        &&& self.string_cache@.contains_key(s)
                        &&& self.string_cache@[s] == h
                    } by {
                        let h = self.interned_strings@[j];
                        assert(is_str_object(old(self).objects@[h.0 as int], str_value_of(old(self).objects@[h.0 as int])));
                    }
                    assert forall|j: int| 0 <= j < 15 implies {
                        let h = #[trigger] self.class_handles()[j];
                        2 <= h.0 < self.objects@.len() && is_class_object(self.objects@[h.0 as int])
                    } by {
                        assert(is_class_object(old(self).objects@[old(self).class_handles()[j].0 as int]));
                    }
                }
                ObjectHandle(index)
            },
        }
    }
}

} // verus!

verus! {

/// The integer an instance holds.
pub open spec fn int_of(o: Option<Object>) -> Option<i64> {
    match o {
        Some(Object::Instance(inst)) => match inst.data {
            InstanceData::Int(n) => Some(n.value),
            _ => None,
        },
        _ => None,
    }
}

/// The boolean an instance holds.
pub open spec fn bool_of(o: Option<Object>) -> Option<bool> {
    match o {
        Some(Object::Instance(inst)) => match inst.data {
            InstanceData::Bool(b) => Some(b.value),
            _ => None,
        },
        _ => None,
    }
}

/// The string an instance holds.
pub open spec fn str_of(o: Option<Object>) -> Option<Seq<char>> {
    match o {
        Some(Object::Instance(inst)) => match inst.data {
            InstanceData::Str(t) => Some(t.value@),
            _ => None,
        },
        _ => None,
    }
}

/// The decimal text of a float instance.
pub open spec fn float_of(o: Option<Object>) -> Option<Seq<char>> {
    match o {
        Some(Object::Instance(inst)) => match inst.data {
            InstanceData::Float(f) => Some(f.literal@),
            _ => None,
        },
        _ => None,
    }
}

/// The items of a list instance.
pub open spec fn list_of(o: Option<Object>) -> Option<Seq<ObjectHandle>> {
    match o {
        Some(Object::Instance(inst)) => match inst.data {
            InstanceData::List(l) => Some(l.items@),
            _ => None,
        },
        _ => None,
    }
}

/// The class of an instance.
pub open spec fn class_of(o: Option<Object>) -> Option<ObjectHandle> {
    match o {
        Some(Object::Instance(inst)) => Some(inst.class),
        _ => None,
    }
}

/// The name of a class object.
pub open spec fn class_name_of(o: Option<Object>) -> Option<Seq<char>> {
    match o {
        Some(Object::Class(c)) => Some(c.name@),
        _ => None,
    }
}

/// The names of the built-in classes, in the order of their handles:
/// nil, int, float, bool, string, list, dict, set, bytes, module and the
/// list, string, dict, set and bytes iterators.
pub open spec fn builtin_class_name(j: int) -> Seq<char> {
    seq![
        "Nil"@, "Int"@, "Float"@, "Bool"@, "String"@, "List"@, "Dict"@, "Set"@, "Bytes"@, "Module"@,
        "ObjectListIterator"@, "ObjectStringIterator"@, "ObjectDictIterator"@, "ObjectSetIterator"@,
        "ObjectBytesIterator"@,
    ][j]
}

/// The names and methods of a method table.
pub open spec fn method_table(v: Seq<(String, Method)>) -> Seq<(Seq<char>, Method)> {
    v.map_values(|m: (String, Method)| (m.0@, m.1))
}

/// The method table of a class object.
pub open spec fn methods_of(o: Option<Object>) -> Option<Seq<(Seq<char>, Method)>> {
    match o {
        Some(Object::Class(c)) => Some(method_table(c.methods@)),
        _ => None,
    }
}

/// The methods of the string class: each name with the function it runs.
pub open spec fn string_method_table() -> Seq<(Seq<char>, Method)> {
    seq![
        ("__not__"@, Method::String(StringMethod::Not)),
        ("__add__"@, Method::String(StringMethod::Add)),
        ("__eq__"@, Method::String(StringMethod::Equal)),
        ("__ne__"@, Method::String(StringMethod::NotEqual)),
        ("__gt__"@, Method::String(StringMethod::Greater)),
        ("__ge__"@, Method::String(StringMethod::GreaterEqual)),
        ("__lt__"@, Method::String(StringMethod::Less)),
        ("__le__"@, Method::String(StringMethod::LessEqual)),
        ("__str__"@, Method::String(StringMethod::ToStr)),
        ("__bool__"@, Method::String(StringMethod::ToBool)),
        ("__hash__"@, Method::String(StringMethod::Hash)),
        ("__int__"@, Method::String(StringMethod::ToInt)),
        ("__float__"@, Method::String(StringMethod::ToFloat)),
        ("__len__"@, Method::String(StringMethod::CharCount)),
        ("__getitem__"@, Method::String(StringMethod::GetItem)),
        ("__iter__"@, Method::String(StringMethod::Iter)),
        ("len"@, Method::String(StringMethod::Len)),
        ("byte_len"@, Method::String(StringMethod::ByteLen)),
        ("upper"@, Method::String(StringMethod::Upper)),
        ("lower"@, Method::String(StringMethod::Lower)),
        ("capitalize"@, Method::String(StringMethod::Capitalize)),
        ("casefold"@, Method::String(StringMethod::Casefold)),
        ("swapcase"@, Method::String(StringMethod::Swapcase)),
        ("title"@, Method::String(StringMethod::Title)),
        ("trim"@, Method::String(StringMethod::Trim)),
        ("trim_start"@, Method::String(StringMethod::TrimStart)),
        ("trim_end"@, Method::String(StringMethod::TrimEnd)),
        ("is_empty"@, Method::String(StringMethod::IsEmpty)),
        ("is_alnum"@, Method::String(StringMethod::IsAlnum)),
        ("is_alpha"@, Method::String(StringMethod::IsAlpha)),
        ("is_ascii"@, Method::String(StringMethod::IsAscii)),
        ("is_decimal"@, Method::String(StringMethod::IsDecimal)),
        ("is_digit"@, Method::String(StringMethod::IsDigit)),
        ("is_numeric"@, Method::String(StringMethod::IsNumeric)),
        ("is_whitespace"@, Method::String(StringMethod::IsWhitespace)),
        ("is_lower"@, Method::String(StringMethod::IsLower)),
        ("is_upper"@, Method::String(StringMethod::IsUpper)),
        ("is_title"@, Method::String(StringMethod::IsTitle)),
        ("splitlines"@, Method::String(StringMethod::Splitlines)),
        ("starts_with"@, Method::String(StringMethod::StartsWith)),
        ("ends_with"@, Method::String(StringMethod::EndsWith)),
        ("contains"@, Method::String(StringMethod::Contains)),
        ("split"@, Method::String(StringMethod::Split)),
        ("rsplit"@, Method::String(StringMethod::Rsplit)),
        ("find"@, Method::String(StringMethod::Find)),
        ("rfind"@, Method::String(StringMethod::Rfind)),
        ("count"@, Method::String(StringMethod::Count)),
        ("repeat"@, Method::String(StringMethod::Repeat)),
        ("removeprefix"@, Method::String(StringMethod::Removeprefix)),
        ("removesuffix"@, Method::String(StringMethod::Removesuffix)),
        ("zfill"@, Method::String(StringMethod::Zfill)),
        ("partition"@, Method::String(StringMethod::Partition)),
        ("rpartition"@, Method::String(StringMethod::Rpartition)),
        ("replace"@, Method::String(StringMethod::Replace)),
        ("substr"@, Method::String(StringMethod::Substr)),
        ("center"@, Method::String(StringMethod::Center)),
        ("ljust"@, Method::String(StringMethod::Ljust)),
        ("rjust"@, Method::String(StringMethod::Rjust)),
        ("to_uppercase"@, Method::String(StringMethod::Upper)),
        ("to_lowercase"@, Method::String(StringMethod::Lower)),
        ("strip"@, Method::String(StringMethod::Trim)),
        ("lstrip"@, Method::String(StringMethod::TrimStart)),
        ("rstrip"@, Method::String(StringMethod::TrimEnd)),
        ("index_of"@, Method::String(StringMethod::Find)),
        ("last_index_of"@, Method::String(StringMethod::Rfind)),
    ]
}

/// The methods of the string-iterator class.
pub open spec fn string_iter_method_table() -> Seq<(Seq<char>, Method)> {
    seq![
        ("__iter__"@, Method::String(StringMethod::IterSelf)),
        ("__next__"@, Method::String(StringMethod::IterNext)),
    ]
}

/// The method table of the string class.
fn string_methods() -> (v: Vec<(String, Method)>)
    ensures
        method_table(v@) == string_method_table(),
{
    let mut v: Vec<(String, Method)> = Vec::new();
    v.push(("__not__".to_owned(), Method::String(StringMethod::Not)));
    v.push(("__add__".to_owned(), Method::String(StringMethod::Add)));
    v.push(("__eq__".to_owned(), Method::String(StringMethod::Equal)));
    v.push(("__ne__".to_owned(), Method::String(StringMethod::NotEqual)));
    v.push(("__gt__".to_owned(), Method::String(StringMethod::Greater)));
    v.push(("__ge__".to_owned(), Method::String(StringMethod::GreaterEqual)));
    v.push(("__lt__".to_owned(), Method::String(StringMethod::Less)));
    v.push(("__le__".to_owned(), Method::String(StringMethod::LessEqual)));
    v.push(("__str__".to_owned(), Method::String(StringMethod::ToStr)));
    v.push(("__bool__".to_owned(), Method::String(StringMethod::ToBool)));
    v.push(("__hash__".to_owned(), Method::String(StringMethod::Hash)));
    v.push(("__int__".to_owned(), Method::String(StringMethod::ToInt)));
    v.push(("__float__".to_owned(), Method::String(StringMethod::ToFloat)));
    v.push(("__len__".to_owned(), Method::String(StringMethod::CharCount)));
    v.push(("__getitem__".to_owned(), Method::String(StringMethod::GetItem)));
    v.push(("__iter__".to_owned(), Method::String(StringMethod::Iter)));
    v.push(("len".to_owned(), Method::String(StringMethod::Len)));
    v.push(("byte_len".to_owned(), Method::String(StringMethod::ByteLen)));
    v.push(("upper".to_owned(), Method::String(StringMethod::Upper)));
    v.push(("lower".to_owned(), Method::String(StringMethod::Lower)));
    v.push(("capitalize".to_owned(), Method::String(StringMethod::Capitalize)));
    v.push(("casefold".to_owned(), Method::String(StringMethod::Casefold)));
    v.push(("swapcase".to_owned(), Method::String(StringMethod::Swapcase)));
    v.push(("title".to_owned(), Method::String(StringMethod::Title)));
    v.push(("trim".to_owned(), Method::String(StringMethod::Trim)));
    v.push(("trim_start".to_owned(), Method::String(StringMethod::TrimStart)));
    v.push(("trim_end".to_owned(), Method::String(StringMethod::TrimEnd)));
    v.push(("is_empty".to_owned(), Method::String(StringMethod::IsEmpty)));
    v.push(("is_alnum".to_owned(), Method::String(StringMethod::IsAlnum)));
    v.push(("is_alpha".to_owned(), Method::String(StringMethod::IsAlpha)));
    v.push(("is_ascii".to_owned(), Method::String(StringMethod::IsAscii)));
    v.push(("is_decimal".to_owned(), Method::String(StringMethod::IsDecimal)));
    v.push(("is_digit".to_owned(), Method::String(StringMethod::IsDigit)));
    v.push(("is_numeric".to_owned(), Method::String(StringMethod::IsNumeric)));
    v.push(("is_whitespace".to_owned(), Method::String(StringMethod::IsWhitespace)));
    v.push(("is_lower".to_owned(), Method::String(StringMethod::IsLower)));
    v.push(("is_upper".to_owned(), Method::String(StringMethod::IsUpper)));
    v.push(("is_title".to_owned(), Method::String(StringMethod::IsTitle)));
    v.push(("splitlines".to_owned(), Method::String(StringMethod::Splitlines)));
    v.push(("starts_with".to_owned(), Method::String(StringMethod::StartsWith)));
    v.push(("ends_with".to_owned(), Method::String(StringMethod::EndsWith)));
    v.push(("contains".to_owned(), Method::String(StringMethod::Contains)));
    v.push(("split".to_owned(), Method::String(StringMethod::Split)));
    v.push(("rsplit".to_owned(), Method::String(StringMethod::Rsplit)));
    v.push(("find".to_owned(), Method::String(StringMethod::Find)));
    v.push(("rfind".to_owned(), Method::String(StringMethod::Rfind)));
    v.push(("count".to_owned(), Method::String(StringMethod::Count)));
    v.push(("repeat".to_owned(), Method::String(StringMethod::Repeat)));
    v.push(("removeprefix".to_owned(), Method::String(StringMethod::Removeprefix)));
    v.push(("removesuffix".to_owned(), Method::String(StringMethod::Removesuffix)));
    v.push(("zfill".to_owned(), Method::String(StringMethod::Zfill)));
    v.push(("partition".to_owned(), Method::String(StringMethod::Partition)));
    v.push(("rpartition".to_owned(), Method::String(StringMethod::Rpartition)));
    v.push(("replace".to_owned(), Method::String(StringMethod::Replace)));
    v.push(("substr".to_owned(), Method::String(StringMethod::Substr)));
    v.push(("center".to_owned(), Method::String(StringMethod::Center)));
    v.push(("ljust".to_owned(), Method::String(StringMethod::Ljust)));
    v.push(("rjust".to_owned(), Method::String(StringMethod::Rjust)));
    v.push(("to_uppercase".to_owned(), Method::String(StringMethod::Upper)));
    v.push(("to_lowercase".to_owned(), Method::String(StringMethod::Lower)));
    v.push(("strip".to_owned(), Method::String(StringMethod::Trim)));
    v.push(("lstrip".to_owned(), Method::String(StringMethod::TrimStart)));
    v.push(("rstrip".to_owned(), Method::String(StringMethod::TrimEnd)));
    v.push(("index_of".to_owned(), Method::String(StringMethod::Find)));
    v.push(("last_index_of".to_owned(), Method::String(StringMethod::Rfind)));
    proof {
        assert(method_table(v@) =~= string_method_table());
    }
    v
}

/// The method table of the string-iterator class.
fn string_iter_methods() -> (v: Vec<(String, Method)>)
    ensures
        method_table(v@) == string_iter_method_table(),
{
    let mut v: Vec<(String, Method)> = Vec::new();
    v.push(("__iter__".to_owned(), Method::String(StringMethod::IterSelf)));
    v.push(("__next__".to_owned(), Method::String(StringMethod::IterNext)));
    proof {
        assert(method_table(v@) =~= string_iter_method_table());
    }
    v
}

/// A built-in class named `name`: no methods, no superclass, no module.
fn make_class(name: &str) -> (o: Option<Object>)
    ensures
        is_class_object(o),
        o matches Some(Object::Class(c)) && c.name@ == name@ && c.methods@.len() == 0
            && c.superclass is None && c.module is None,
{
    Some(Object::Class(ObjectClass::new(name.to_owned(), None)))
}

impl ObjectHeap {
    /// A heap holding the built-in classes and the two boolean singletons.
    pub fn new() -> (heap: Self)
        ensures
            heap.wf(),
            heap.idle(),
            forall|v: i64| #[trigger] heap.cached_int(v) is None,
            forall|s: Seq<char>| #[trigger] heap.cached_str(s) is None,
            heap.spec_true_instance().0 >= 2,
            heap.spec_false_instance().0 >= 2,
            heap.spec_true_instance() != heap.spec_false_instance(),
            heap.allocated_bytes() == vstd::wrapping::usize_specs::wrapping_mul(object_size(), 17),
            bool_of(heap.objs()[heap.spec_true_instance().0 as int]) == Some(true),
            bool_of(heap.objs()[heap.spec_false_instance().0 as int]) == Some(false),
            forall|j: int| 0 <= j < 15 ==> #[trigger] heap.class_handles()[j].0 >= 2
                && class_name_of(heap.objs()[heap.class_handles()[j].0 as int]) == Some(builtin_class_name(j)),
            forall|j: int, k: int| 0 <= j < k < 15 ==> #[trigger] heap.class_handles()[j] != #[trigger] heap.class_handles()[k],
            methods_of(heap.objs()[heap.class_handles()[4].0 as int]) == Some(string_method_table()),
            methods_of(heap.objs()[heap.class_handles()[11].0 as int]) == Some(string_iter_method_table()),
            forall|j: int| 0 <= j < 15 && j != 4 && j != 11
                ==> #[trigger] methods_of(heap.objs()[heap.class_handles()[j].0 as int]) == Some(Seq::<(Seq<char>, Method)>::empty()),
    {
        let mut int_cache: Vec<Option<ObjectHandle>> = Vec::new();
        let mut k: usize = 0;
        while k < SMALL_INT_COUNT
            invariant
                k <= SMALL_INT_COUNT,
                int_cache@.len() == k,
                forall|j: int| 0 <= j < k ==> #[trigger] int_cache@[j] is None,
            decreases SMALL_INT_COUNT - k,
        {
            int_cache.push(None);
            k = k + 1;
        }
        // Slots 0 and 1 are the nil and end-of-iteration sentinels.
        let mut objects: Vec<Option<Object>> = Vec::new();
        objects.push(None);
        objects.push(None);
        objects.push(make_class("Nil"));
        objects.push(make_class("Int"));
        objects.push(make_class("Float"));
        objects.push(make_class("Bool"));
        objects.push(Some(Object::Class(ObjectClass {
            name: "String".to_owned(),
            methods: string_methods(),
            superclass: None,
            module: None,
        })));
        objects.push(make_class("List"));
        objects.push(make_class("Dict"));
        objects.push(make_class("Set"));
        objects.push(make_class("Bytes"));
        objects.push(make_class("Module"));
        objects.push(make_class("ObjectListIterator"));
        objects.push(Some(Object::Class(ObjectClass {
            name: "ObjectStringIterator".to_owned(),
            methods: string_iter_methods(),
            superclass: None,
            module: None,
        })));
        objects.push(make_class("ObjectDictIterator"));
        objects.push(make_class("ObjectSetIterator"));
        objects.push(make_class("ObjectBytesIterator"));
        // Singleton booleans, instances of Bool (slot 5).
        objects.push(Some(Object::Instance(ObjectInstance::new(ObjectHandle(5), InstanceData::Bool(ObjectBool::new(true))))));
        objects.push(Some(Object::Instance(ObjectInstance::new(ObjectHandle(5), InstanceData::Bool(ObjectBool::new(false))))));
        let mut marked: Vec<bool> = Vec::new();
        let mut i: usize = 0;
        while i < 19
            invariant
                i <= 19,
                marked@.len() == i,
                forall|j: int| 0 <= j < i ==> !#[trigger] marked@[j],
            decreases 19 - i,
        {
            marked.push(false);
            i = i + 1;
        }
        let size = std::mem::size_of::<Object>();
        let heap = ObjectHeap {
            objects,
            marked,
            bytes_allocated: size.wrapping_mul(17),
            free_slots: Vec::new(),
            gray_stack: Vec::new(),
            int_cache,
            string_cache: StringHashMap::new(),
            interned_strings: Vec::new(),
            nil_class: ObjectHandle(2),
            int_class: ObjectHandle(3),
            float_class: ObjectHandle(4),
            bool_class: ObjectHandle(5),
            string_class: ObjectHandle(6),
            list_class: ObjectHandle(7),
            dict_class: ObjectHandle(8),
            set_class: ObjectHandle(9),
            bytes_class: ObjectHandle(10),
            module_class: ObjectHandle(11),
            list_iter_class: ObjectHandle(12),
            string_iter_class: ObjectHandle(13),
            dict_iter_class: ObjectHandle(14),
            set_iter_class: ObjectHandle(15),
            bytes_iter_class: ObjectHandle(16),
            true_instance: ObjectHandle(17),
            false_instance: ObjectHandle(18),
        };
        proof {
            assert forall|j: int| 0 <= j < 15 implies {
                let h = #[trigger] heap.class_handles()[j];
                2 <= h.0 < heap.objects@.len() && is_class_object(heap.objects@[h.0 as int])
            } by {
                assert(heap.class_handles()[j].0 == j + 2);
            }
            assert forall|j: int| 0 <= j < 15 implies #[trigger] heap.class_handles()[j].0 >= 2
                && class_name_of(heap.objs()[heap.class_handles()[j].0 as int]) == Some(builtin_class_name(j)) by {
                assert(heap.class_handles()[j].0 == j + 2);
            }
            assert forall|j: int, k: int| 0 <= j < k < 15 implies #[trigger] heap.class_handles()[j] != #[trigger] heap.class_handles()[k] by {
                assert(heap.class_handles()[j].0 == j + 2);
                assert(heap.class_handles()[k].0 == k + 2);
            }
        }
        heap
    }

    pub fn int_class(&self) -> (h: ObjectHandle)
        requires
            self.wf(),
        ensures
            h == self.class_handles()[1],
    {
        self.int_class
    }

    pub fn float_class(&self) -> (h: ObjectHandle)
        ensures
            h == self.class_handles()[2],
    {
        self.float_class
    }

    pub fn bool_class(&self) -> (h: ObjectHandle)
        ensures
            h == self.class_handles()[3],
    {
        self.bool_class
    }

    pub fn string_class(&self) -> (h: ObjectHandle)
        ensures
            h == self.class_handles()[4],
    {
        self.string_class
    }

    pub fn list_class(&self) -> (h: ObjectHandle)
        ensures
            h == self.class_handles()[5],
    {
        self.list_class
    }

    pub fn dict_class(&self) -> (h: ObjectHandle)
        ensures
            h == self.class_handles()[6],
    {
        self.dict_class
    }

    pub fn set_class(&self) -> (h: ObjectHandle)
        ensures
            h == self.class_handles()[7],
    {
        self.set_class
    }

    pub fn bytes_class(&self) -> (h: ObjectHandle)
        ensures
            h == self.class_handles()[8],
    {
        self.bytes_class
    }

    pub fn module_class(&self) -> (h: ObjectHandle)
        ensures
            h == self.class_handles()[9],
    {
        self.module_class
    }

    /// The singleton `true`.
    pub fn true_instance(&self) -> (h: ObjectHandle)
        requires
            self.wf(),
        ensures
            h == self.spec_true_instance(),
            bool_of(self.objs()[h.0 as int]) == Some(true),
            self.live(h),
    {
        self.true_instance
    }

    /// The singleton `false`.
    pub fn false_instance(&self) -> (h: ObjectHandle)
        requires
            self.wf(),
        ensures
            h == self.spec_false_instance(),
            bool_of(self.objs()[h.0 as int]) == Some(false),
            self.live(h),
    {
        self.false_instance
    }

    /// The singleton boolean for `v`; nothing is allocated.
    pub fn alloc_bool_instance(&self, v: bool) -> (h: ObjectHandle)
        requires
            self.wf(),
        ensures
            bool_of(self.objs()[h.0 as int]) == Some(v),
            self.live(h),
            h == if v { self.spec_true_instance() } else { self.spec_false_instance() },
    {
        if v {
            self.true_instance
        } else {
            self.false_instance
        }
    }

    /// `nil` is the sentinel handle 0; nothing is allocated.
    pub fn alloc_nil(&self) -> (h: ObjectHandle)
        ensures
            h.0 == 0,
    {
        ObjectHandle(0)
    }

    /// Allocate an instance of `class` holding `data`.
    pub fn alloc_instance(&mut self, class: ObjectHandle, data: InstanceData) -> (h: ObjectHandle)
        requires
            old(self).wf(),
        ensures
            final(self).wf(),
            ObjectHeap::allocated(old(self), final(self), h, Object::Instance(ObjectInstance { class, data })),
            ObjectHeap::keeps_builtins(old(self), final(self)),
            final(self).caches() == old(self).caches(),
            forall|v: i64| #[trigger] final(self).cached_int(v) == old(self).cached_int(v),
            forall|s: Seq<char>| #[trigger] final(self).cached_str(s) == old(self).cached_str(s),
            old(self).idle() ==> final(self).idle(),
    {
        self.alloc_object(Object::Instance(ObjectInstance::new(class, data)))
    }

    /// Allocate a closure over `function` with no captured upvalues.
    pub fn alloc_closure(&mut self, function: ObjectHandle) -> (h: ObjectHandle)
        requires
            old(self).wf(),
        ensures
            final(self).wf(),
            ObjectHeap::fresh_slot(old(self), final(self), h),
            final(self).objs()[h.0 as int] matches Some(Object::Closure(c)) && c.function == function && c.upvalues@.len() == 0,
            ObjectHeap::keeps_builtins(old(self), final(self)),
            old(self).idle() ==> final(self).idle(),
    {
        self.alloc_object(Object::Closure(ObjectClosure::new(function)))
    }

    /// Allocate a compiled function.
    pub fn alloc_function(
        &mut self,
        name: String,
        arity: usize,
        required_arity: usize,
        param_names: Vec<String>,
        defaults: Vec<ObjectHandle>,
        chunk: Chunk,
    ) -> (h: ObjectHandle)
        requires
            old(self).wf(),
        ensures
            final(self).wf(),
            ObjectHeap::allocated(old(self), final(self), h, Object::Function(ObjectFunction {
                name, arity, required_arity, param_names, defaults, chunk,
            })),
            ObjectHeap::only_adds(old(self), final(self)),
            ObjectHeap::keeps_builtins(old(self), final(self)),
            old(self).idle() ==> final(self).idle(),
    {
        self.alloc_object(Object::Function(ObjectFunction { name, arity, required_arity, param_names, defaults, chunk }))
    }

    /// Allocate an open upvalue for stack slot `location` (or a closed one).
    pub fn alloc_upvalue(&mut self, location: Option<usize>) -> (h: ObjectHandle)
        requires
            old(self).wf(),
        ensures
            final(self).wf(),
            ObjectHeap::allocated(old(self), final(self), h, Object::Upvalue(ObjectUpvalue {
                location, closed: ObjectHandle(0), next: None,
            })),
            ObjectHeap::keeps_builtins(old(self), final(self)),
            old(self).idle() ==> final(self).idle(),
    {
        self.alloc_object(Object::Upvalue(ObjectUpvalue { location, closed: ObjectHandle(0), next: None }))
    }

    /// Allocate a class without methods.
    pub fn alloc_class(&mut self, name: String) -> (h: ObjectHandle)
        requires
            old(self).wf(),
        ensures
            final(self).wf(),
            ObjectHeap::fresh_slot(old(self), final(self), h),
            final(self).objs()[h.0 as int] matches Some(Object::Class(c)) && c.name@ == name@
                && c.methods@.len() == 0 && c.superclass is None && c.module is None,
            ObjectHeap::keeps_builtins(old(self), final(self)),
            old(self).idle() ==> final(self).idle(),
    {
        self.alloc_object(Object::Class(ObjectClass::new(name, None)))
    }

    /// Allocate a method bound to `receiver`.
    pub fn alloc_bound_method(&mut self, receiver: ObjectHandle, method: Method) -> (h: ObjectHandle)
        requires
            old(self).wf(),
        ensures
            final(self).wf(),
            ObjectHeap::allocated(old(self), final(self), h, Object::BoundMethod(ObjectBoundMethod { receiver, method })),
            ObjectHeap::keeps_builtins(old(self), final(self)),
            old(self).idle() ==> final(self).idle(),
    {
        self.alloc_object(Object::BoundMethod(ObjectBoundMethod::new(receiver, method)))
    }

    /// Allocate an instance of `class` with the given fields.
    pub fn alloc_fields_instance(&mut self, class: ObjectHandle, fields: Vec<(String, ObjectHandle)>) -> (h: ObjectHandle)
        requires
            old(self).wf(),
        ensures
            final(self).wf(),
            ObjectHeap::allocated(old(self), final(self), h, Object::Instance(ObjectInstance {
                class, data: InstanceData::Fields(ObjectFields { fields }),
            })),
            ObjectHeap::keeps_builtins(old(self), final(self)),
            old(self).idle() ==> final(self).idle(),
    {
        self.alloc_instance(class, InstanceData::Fields(ObjectFields { fields }))
    }

    /// Allocate a float holding the decimal text `literal`.
    pub fn alloc_float_instance(&mut self, literal: String) -> (h: ObjectHandle)
        requires
            old(self).wf(),
        ensures
            final(self).wf(),
            ObjectHeap::allocated(old(self), final(self), h, Object::Instance(ObjectInstance {
                class: old(self).class_handles()[2], data: InstanceData::Float(ObjectFloat { literal }),
            })),
            ObjectHeap::only_adds(old(self), final(self)),
            ObjectHeap::keeps_builtins(old(self), final(self)),
            old(self).idle() ==> final(self).idle(),
    {
        let class = self.float_class;
        self.alloc_instance(class, InstanceData::Float(ObjectFloat { literal }))
    }

    /// Allocate a list.
    pub fn alloc_list_instance(&mut self, items: Vec<ObjectHandle>) -> (h: ObjectHandle)
        requires
            old(self).wf(),
        ensures
            final(self).wf(),
            ObjectHeap::allocated(old(self), final(self), h, Object::Instance(ObjectInstance {
                class: old(self).class_handles()[5], data: InstanceData::List(ObjectList { items }),
            })),
            ObjectHeap::keeps_builtins(old(self), final(self)),
            old(self).idle() ==> final(self).idle(),
    {
        let class = self.list_class;
        self.alloc_instance(class, InstanceData::List(ObjectList { items }))
    }

    /// Allocate a dictionary.
    pub fn alloc_dict_instance(&mut self, entries: Vec<(u64, ObjectHandle, ObjectHandle)>) -> (h: ObjectHandle)
        requires
            old(self).wf(),
        ensures
            final(self).wf(),
            ObjectHeap::allocated(old(self), final(self), h, Object::Instance(ObjectInstance {
                class: old(self).class_handles()[6], data: InstanceData::Dict(ObjectDict { entries }),
            })),
            ObjectHeap::keeps_builtins(old(self), final(self)),
            old(self).idle() ==> final(self).idle(),
    {
        let class = self.dict_class;
        self.alloc_instance(class, InstanceData::Dict(ObjectDict { entries }))
    }

    /// Allocate a set.
    pub fn alloc_set_instance(&mut self, entries: Vec<(u64, ObjectHandle)>) -> (h: ObjectHandle)
        requires
            old(self).wf(),
        ensures
            final(self).wf(),
            ObjectHeap::allocated(old(self), final(self), h, Object::Instance(ObjectInstance {
                class: old(self).class_handles()[7], data: InstanceData::SetOf(ObjectSet { entries }),
            })),
            ObjectHeap::keeps_builtins(old(self), final(self)),
            old(self).idle() ==> final(self).idle(),
    {
        let class = self.set_class;
        self.alloc_instance(class, InstanceData::SetOf(ObjectSet { entries }))
    }

    /// Allocate a byte string.
    pub fn alloc_bytes_instance(&mut self, data: Vec<u8>) -> (h: ObjectHandle)
        requires
            old(self).wf(),
        ensures
            final(self).wf(),
            ObjectHeap::allocated(old(self), final(self), h, Object::Instance(ObjectInstance {
                class: old(self).class_handles()[8], data: InstanceData::Bytes(ObjectBytes { data }),
            })),
            ObjectHeap::keeps_builtins(old(self), final(self)),
            old(self).idle() ==> final(self).idle(),
    {
        let class = self.bytes_class;
        self.alloc_instance(class, InstanceData::Bytes(ObjectBytes { data }))
    }

    /// An integer instance holding `v`.  Integers from -5 to 256 are
    /// interned: the first request allocates, later ones return the same
    /// handle and allocate nothing.
    pub fn alloc_integer_instance(&mut self, v: i64) -> (h: ObjectHandle)
        requires
            old(self).wf(),
        ensures
            final(self).wf(),
            int_of(final(self).objs()[h.0 as int]) == Some(v),
            class_of(final(self).objs()[h.0 as int]) == Some(old(self).class_handles()[1]) || old(self).cached_int(v) is Some,
            final(self).live(h),
            h.0 >= 2,
            old(self).cached_int(v) matches Some(c) ==> h == c && final(self).objs() == old(self).objs(),
            old(self).cached_int(v) is None ==> ObjectHeap::fresh_slot(old(self), final(self), h),
            is_small_int(v) ==> final(self).cached_int(v) == Some(h),
            forall|w: i64| w != v ==> #[trigger] final(self).cached_int(w) == old(self).cached_int(w),
            forall|s: Seq<char>| #[trigger] final(self).cached_str(s) == old(self).cached_str(s),
            ObjectHeap::only_adds(old(self), final(self)),
            ObjectHeap::keeps_builtins(old(self), final(self)),
            old(self).idle() ==> final(self).idle(),
    {
        if v >= SMALL_INT_MIN && v <= SMALL_INT_MAX {
            let idx = (v - SMALL_INT_MIN) as usize;
            match self.int_cache[idx] {
                Some(h) => {
                    return h;
                },
                None => {},
            }
            let class = self.int_class;
            let h = self.alloc_instance(class, InstanceData::Int(ObjectInt::new(v)));
            let ghost mid_marks = self.marks();
            let ghost mid_gray = self.gray();
            self.int_cache.set(idx, Some(h));
            proof {
                assert(self.marks() == mid_marks);
                assert(self.gray() == mid_gray);
                assert forall|k: int| 0 <= k < SMALL_INT_COUNT implies (#[trigger] self.int_cache@[k] matches Some(h2) ==> {
                    &&& 2 <= h2.0 < self.objects@.len()
                    &&& is_int_object(self.objects@[h2.0 as int], k + SMALL_INT_MIN)
                }) by {
                    if k != idx {
                        if let Some(h2) = self.int_cache@[k] {
                            assert(old(self).int_cache@[k] == Some(h2));
                            assert(h2 != h);
                            assert(is_int_object(old(self).objects@[h2.0 as int], k + SMALL_INT_MIN));
                        }
                    }
                }
                assert forall|w: i64| w != v implies #[trigger] self.cached_int(w) == old(self).cached_int(w) by {
                    if is_small_int(w) {
                        assert(w - SMALL_INT_MIN != idx);
                    }
                }
            }
            h
        } else {
            let class = self.int_class;
            self.alloc_instance(class, InstanceData::Int(ObjectInt::new(v)))
        }
    }

    /// A string instance holding `s`.  Strings are interned: equal strings
    /// share one handle, allocated on the first request.
    pub fn alloc_string_instance(&mut self, s: String) -> (h: ObjectHandle)
        requires
            old(self).wf(),
        ensures
            final(self).wf(),
            str_of(final(self).objs()[h.0 as int]) == Some(s@),
            final(self).live(h),
            h.0 >= 2,
            final(self).cached_str(s@) == Some(h),
            old(self).cached_str(s@) matches Some(c) ==> h == c && final(self).objs() == old(self).objs(),
            old(self).cached_str(s@) is None ==> ObjectHeap::fresh_slot(old(self), final(self), h)
                && class_of(final(self).objs()[h.0 as int]) == Some(old(self).class_handles()[4]),
            forall|t: Seq<char>| t != s@ ==> #[trigger] final(self).cached_str(t) == old(self).cached_str(t),
            forall|w: i64| #[trigger] final(self).cached_int(w) == old(self).cached_int(w),
            ObjectHeap::only_adds(old(self), final(self)),
            ObjectHeap::keeps_builtins(old(self), final(self)),
            old(self).idle() ==> final(self).idle(),
    {
        match self.string_cache.get(s.as_str()) {
            Some(h) => {
                return *h;
            },
            None => {},
        }
        let key = s.clone();
        let class = self.string_class;
        let h = self.alloc_instance(class, InstanceData::Str(ObjectString::new(s)));
        let ghost before = self.interned_strings@;
        let ghost mid_marks = self.marks();
        let ghost mid_gray = self.gray();
        proof {
            assert(before == old(self).interned_strings@);
            assert forall|j: int| 0 <= j < before.len() implies before[j] != h by {
                let t = str_value_of(old(self).objects@[before[j].0 as int]);
                assert(is_str_object(old(self).objects@[before[j].0 as int], t));
            }
        }
        self.string_cache.insert(key, h);
        self.interned_strings.push(h);
        proof {
            assert(self.marks() == mid_marks);
            assert(self.gray() == mid_gray);
            assert forall|t: Seq<char>| #[trigger] self.string_cache@.contains_key(t) implies {
                let h2 = self.string_cache@[t];
                &&& 2 <= h2.0 < self.objects@.len()
                &&& is_str_object(self.objects@[h2.0 as int], t)
                &&& self.interned_strings@.contains(h2)
            } by {
                if t != s@ {
                    let h2 = self.string_cache@[t];
                    assert(is_str_object(old(self).objects@[h2.0 as int], t));
                    assert(old(self).interned_strings@.contains(h2));
                    let j = choose|j: int| 0 <= j < before.len() && before[j] == h2;
                    assert(self.interned_strings@[j] == h2);
                } else {
                    assert(self.interned_strings@[before.len() as int] == h);
                }
            }
            assert forall|j: int| 0 <= j < self.interned_strings@.len() implies {
                let h2 = #[trigger] self.interned_strings@[j];
                let t = str_value_of(self.objects@[h2.0 as int]);
                &&& 2 <= h2.0 < self.objects@.len()
                &&& is_str_object(self.objects@[h2.0 as int], t)
                &&& self.string_cache@.contains_key(t)
                &&& self.string_cache@[t] == h2
            } by {
                let h2 = self.interned_strings@[j];
                if j < before.len() {
                    assert(h2 == before[j]);
                    let t = str_value_of(old(self).objects@[h2.0 as int]);
                    assert(is_str_object(old(self).objects@[h2.0 as int], t));
                    assert(old(self).string_cache@[t] == h2);
                    assert(t != s@);
                }
            }
            assert forall|j: int, k: int| 0 <= j < k < self.interned_strings@.len() implies
                self.interned_strings@[j] != self.interned_strings@[k] by {
                if k == before.len() {
                    assert(before[j] != h);
                }
            }
        }
        h
    }

    // ================================================================== //
    //           Reading
    // ================================================================== //

    /// The object behind `h`; `None` for the sentinels and free slots.
    pub fn get(&self, h: ObjectHandle) -> (r: Option<&Object>)
        ensures
            match r {
                Some(o) => self.live(h) && self.objs()[h.0 as int] == Some(*o),
                None => !self.live(h),
            },
    {
        if h.0 >= self.objects.len() {
            return None;
        }
        match &self.objects[h.0] {
            Some(o) => Some(o),
            None => None,
        }
    }

    /// The function behind `h`, if it is one.
    pub fn get_function(&self, h: ObjectHandle) -> (r: Option<&ObjectFunction>)
        ensures
            match r {
                Some(f) => self.live(h) && self.objs()[h.0 as int] == Some(Object::Function(*f)),
                None => !(self.live(h) && self.objs()[h.0 as int] matches Some(Object::Function(_))),
            },
    {
        match self.get(h) {
            Some(Object::Function(f)) => Some(f),
            _ => None,
        }
    }

    /// The class behind `h`, if it is one.
    pub fn get_class(&self, h: ObjectHandle) -> (r: Option<&ObjectClass>)
        ensures
            match r {
                Some(c) => self.live(h) && self.objs()[h.0 as int] == Some(Object::Class(*c)),
                None => !(self.live(h) && self.objs()[h.0 as int] matches Some(Object::Class(_))),
            },
    {
        match self.get(h) {
            Some(Object::Class(c)) => Some(c),
            _ => None,
        }
    }

    /// The instance behind `h`, if it is one.
    pub fn get_instance(&self, h: ObjectHandle) -> (r: Option<&ObjectInstance>)
        ensures
            match r {
                Some(i) => self.live(h) && self.objs()[h.0 as int] == Some(Object::Instance(*i)),
                None => !(self.live(h) && self.objs()[h.0 as int] matches Some(Object::Instance(_))),
            },
    {
        match self.get(h) {
            Some(Object::Instance(i)) => Some(i),
            _ => None,
        }
    }

    /// The integer held by the instance behind `h`.
    pub fn get_integer_instance(&self, h: ObjectHandle) -> (r: Option<i64>)
        ensures
            r == (if self.live(h) { int_of(self.objs()[h.0 as int]) } else { None }),
    {
        match self.get(h) {
            Some(Object::Instance(inst)) => match &inst.data {
                InstanceData::Int(n) => Some(n.value),
                _ => None,
            },
            _ => None,
        }
    }

    /// The boolean held by the instance behind `h`.
    pub fn get_bool_instance(&self, h: ObjectHandle) -> (r: Option<bool>)
        ensures
            r == (if self.live(h) { bool_of(self.objs()[h.0 as int]) } else { None }),
    {
        match self.get(h) {
            Some(Object::Instance(inst)) => match &inst.data {
                InstanceData::Bool(b) => Some(b.value),
                _ => None,
            },
            _ => None,
        }
    }

    /// The string held by the instance behind `h`.
    pub fn get_string_instance(&self, h: ObjectHandle) -> (r: Option<&String>)
        ensures
            match r {
                Some(s) => self.live(h) && str_of(self.objs()[h.0 as int]) == Some(s@),
                None => !self.live(h) || str_of(self.objs()[h.0 as int]) is None,
            },
    {
        match self.get(h) {
            Some(Object::Instance(inst)) => match &inst.data {
                InstanceData::Str(t) => Some(&t.value),
                _ => None,
            },
            _ => None,
        }
    }

    /// The decimal text of the float behind `h`.
    pub fn get_float_instance(&self, h: ObjectHandle) -> (r: Option<&String>)
        ensures
            match r {
                Some(s) => self.live(h) && float_of(self.objs()[h.0 as int]) == Some(s@),
                None => !self.live(h) || float_of(self.objs()[h.0 as int]) is None,
            },
    {
        match self.get(h) {
            Some(Object::Instance(inst)) => match &inst.data {
                InstanceData::Float(f) => Some(&f.literal),
                _ => None,
            },
            _ => None,
        }
    }

    /// The items of the list behind `h`.
    pub fn get_list_instance(&self, h: ObjectHandle) -> (r: Option<&Vec<ObjectHandle>>)
        ensures
            match r {
                Some(v) => self.live(h) && list_of(self.objs()[h.0 as int]) == Some(v@),
                None => !self.live(h) || list_of(self.objs()[h.0 as int]) is None,
            },
    {
        match self.get(h) {
            Some(Object::Instance(inst)) => match &inst.data {
                InstanceData::List(l) => Some(&l.items),
                _ => None,
            },
            _ => None,
        }
    }

    /// Number of slots, free ones and the two sentinels included.
    pub fn slot_count(&self) -> (n: usize)
        ensures
            n == self.objs().len(),
    {
        self.objects.len()
    }

    /// The class of list iterators.
    pub fn list_iter_class(&self) -> (h: ObjectHandle)
        ensures
            h == self.class_handles()[10],
    {
        self.list_iter_class
    }

    /// The class of string iterators.
    pub fn string_iter_class(&self) -> (h: ObjectHandle)
        ensures
            h == self.class_handles()[11],
    {
        self.string_iter_class
    }

    /// The class of byte-string iterators.
    pub fn bytes_iter_class(&self) -> (h: ObjectHandle)
        ensures
            h == self.class_handles()[14],
    {
        self.bytes_iter_class
    }

    /// Replace the data of the mutable instance behind `h` (a container or
    /// an iterator) by `data`; the instance keeps its class.
    pub fn set_instance_data(&mut self, h: ObjectHandle, data: InstanceData)
        requires
            old(self).wf(),
            old(self).live(h),
            old(self).objs()[h.0 as int] matches Some(Object::Instance(i)) && is_mutable_data(i.data),
            is_mutable_data(data),
        ensures
            final(self).wf(),
            final(self).objs() == old(self).objs().update(h.0 as int, Some(Object::Instance(ObjectInstance {
                class: class_of(old(self).objs()[h.0 as int]).unwrap(),
                data,
            }))),
            final(self).marks() == old(self).marks(),
            final(self).gray() == old(self).gray(),
            final(self).caches() == old(self).caches(),
            ObjectHeap::keeps_builtins(old(self), final(self)),
            forall|v: i64| #[trigger] final(self).cached_int(v) == old(self).cached_int(v),
            forall|t: Seq<char>| #[trigger] final(self).cached_str(t) == old(self).cached_str(t),
    {
        let class = match &self.objects[h.0] {
            Some(Object::Instance(i)) => i.class,
            _ => h,
        };
        self.objects.set(h.0, Some(Object::Instance(ObjectInstance::new(class, data))));
        proof {
            let n = self.objects@.len();
            assert forall|k: int| 0 <= k < SMALL_INT_COUNT implies (#[trigger] self.int_cache@[k] matches Some(c) ==> {
                &&& 2 <= c.0 < n
                &&& is_int_object(self.objects@[c.0 as int], k + SMALL_INT_MIN)
            }) by {
                if let Some(c) = self.int_cache@[k] {
                    assert(is_int_object(old(self).objects@[c.0 as int], k + SMALL_INT_MIN));
                }
            }
            assert forall|t: Seq<char>| #[trigger] self.string_cache@.contains_key(t) implies {
                let c = self.string_cache@[t];
                &&& 2 <= c.0 < n
                &&& is_str_object(self.objects@[c.0 as int], t)
                &&& self.interned_strings@.contains(c)
            } by {
                let c = self.string_cache@[t];
                assert(is_str_object(old(self).objects@[c.0 as int], t));
            }
            assert forall|j: int| 0 <= j < self.interned_strings@.len() implies {
                let c = #[trigger] self.interned_strings@[j];
                let t = str_value_of(self.objects@[c.0 as int]);
                &&& 2 <= c.0 < n
                &&& is_str_object(self.objects@[c.0 as int], t)
                &&& self.string_cache@.contains_key(t)
                &&& self.string_cache@[t] == c
            } by {
                let c = self.interned_strings@[j];
                let t = str_value_of(old(self).objects@[c.0 as int]);
                assert(is_str_object(old(self).objects@[c.0 as int], t));
            }
            assert forall|j: int| 0 <= j < 15 implies {
                let c = #[trigger] self.class_handles()[j];
                2 <= c.0 < n && is_class_object(self.objects@[c.0 as int])
            } by {
                assert(self.class_handles() == old(self).class_handles());
                let c = old(self).class_handles()[j];
                assert(2 <= c.0 < n && is_class_object(old(self).objects@[c.0 as int]));
            }
        }
    }
}

/// Is `d` the data of a container or an iterator, which methods change in
/// place?
pub open spec fn is_mutable_data(d: InstanceData) -> bool {
    ||| d is List
    ||| d is Dict
    ||| d is SetOf
    ||| d is Fields
    ||| d is ListIter
    ||| d is StringIter
    ||| d is BytesIter
    ||| d is SetIter
    ||| d is DictIter
}

} // verus!

verus! {

fn push_handles(out: &mut Vec<ObjectHandle>, src: &Vec<ObjectHandle>)
    ensures
        final(out)@ == old(out)@ + src@,
{
    let mut i: usize = 0;
    while i < src.len()
        invariant
            i <= src@.len(),
            out@ == old(out)@ + src@.subrange(0, i as int),
        decreases src@.len() - i,
    {
        out.push(src[i]);
        i = i + 1;
        proof {
            assert(src@.subrange(0, i as int) =~= src@.subrange(0, i - 1) + seq![src@[i - 1]]);
        }
    }
    proof {
        assert(src@.subrange(0, src@.len() as int) =~= src@);
    }
}

fn push_opt(out: &mut Vec<ObjectHandle>, o: Option<ObjectHandle>)
    ensures
        final(out)@ == old(out)@ + opt_ref(o),
{
    if let Some(h) = o {
        out.push(h);
    }
    proof {
        assert(final(out)@ =~= old(out)@ + opt_ref(o));
    }
}

fn push_dict_refs(out: &mut Vec<ObjectHandle>, src: &Vec<(u64, ObjectHandle, ObjectHandle)>, value: bool)
    ensures
        final(out)@ == old(out)@ + if value {
            src@.map_values(|e: (u64, ObjectHandle, ObjectHandle)| e.2)
        } else {
            src@.map_values(|e: (u64, ObjectHandle, ObjectHandle)| e.1)
        },
{
    let ghost target = if value {
        src@.map_values(|e: (u64, ObjectHandle, ObjectHandle)| e.2)
    } else {
        src@.map_values(|e: (u64, ObjectHandle, ObjectHandle)| e.1)
    };
    let mut i: usize = 0;
    while i < src.len()
        invariant
            i <= src@.len(),
            target.len() == src@.len(),
            target == if value {
                src@.map_values(|e: (u64, ObjectHandle, ObjectHandle)| e.2)
            } else {
                src@.map_values(|e: (u64, ObjectHandle, ObjectHandle)| e.1)
            },
            out@ == old(out)@ + target.subrange(0, i as int),
        decreases src@.len() - i,
    {
        let e = src[i];
        if value {
            out.push(e.2);
        } else {
            out.push(e.1);
        }
        i = i + 1;
        proof {
            assert(target.subrange(0, i as int) =~= target.subrange(0, i - 1) + seq![target[i - 1]]);
        }
    }
    proof {
        assert(target.subrange(0, src@.len() as int) =~= target);
    }
}

fn push_set_refs(out: &mut Vec<ObjectHandle>, src: &Vec<(u64, ObjectHandle)>)
    ensures
        final(out)@ == old(out)@ + src@.map_values(|e: (u64, ObjectHandle)| e.1),
{
    let ghost target = src@.map_values(|e: (u64, ObjectHandle)| e.1);
    let mut i: usize = 0;
    while i < src.len()
        invariant
            i <= src@.len(),
            target == src@.map_values(|e: (u64, ObjectHandle)| e.1),
            out@ == old(out)@ + target.subrange(0, i as int),
        decreases src@.len() - i,
    {
        out.push(src[i].1);
        i = i + 1;
        proof {
            assert(target.subrange(0, i as int) =~= target.subrange(0, i - 1) + seq![target[i - 1]]);
        }
    }
    proof {
        assert(target.subrange(0, src@.len() as int) =~= target);
    }
}

fn push_field_refs(out: &mut Vec<ObjectHandle>, src: &Vec<(String, ObjectHandle)>)
    ensures
        final(out)@ == old(out)@ + src@.map_values(|e: (String, ObjectHandle)| e.1),
{
    let ghost target = src@.map_values(|e: (String, ObjectHandle)| e.1);
    let mut i: usize = 0;
    while i < src.len()
        invariant
            i <= src@.len(),
            target == src@.map_values(|e: (String, ObjectHandle)| e.1),
            out@ == old(out)@ + target.subrange(0, i as int),
        decreases src@.len() - i,
    {
        out.push(src[i].1);
        i = i + 1;
        proof {
            assert(target.subrange(0, i as int) =~= target.subrange(0, i - 1) + seq![target[i - 1]]);
        }
    }
    proof {
        assert(target.subrange(0, src@.len() as int) =~= target);
    }
}

fn push_method_refs(out: &mut Vec<ObjectHandle>, src: &Vec<(String, Method)>)
    ensures
        final(out)@ == old(out)@ + src@.map_values(|m: (String, Method)| m.1.handle()),
{
    let ghost target = src@.map_values(|m: (String, Method)| m.1.handle());
    let mut i: usize = 0;
    while i < src.len()
        invariant
            i <= src@.len(),
            target == src@.map_values(|m: (String, Method)| m.1.handle()),
            out@ == old(out)@ + target.subrange(0, i as int),
        decreases src@.len() - i,
    {
        let h = match src[i].1 {
            Method::User(h) => h,
            Method::Native(h) => h,
            Method::String(_) => ObjectHandle(0),
        };
        out.push(h);
        i = i + 1;
        proof {
            assert(target.subrange(0, i as int) =~= target.subrange(0, i - 1) + seq![target[i - 1]]);
        }
    }
    proof {
        assert(target.subrange(0, src@.len() as int) =~= target);
    }
}

/// The handles `o` refers to.
fn refs_of(o: &Object) -> (v: Vec<ObjectHandle>)
    ensures
        v@ == object_refs(*o),
{
    let mut out: Vec<ObjectHandle> = Vec::new();
    match o {
        Object::Function(f) => {
            push_handles(&mut out, &f.chunk.constants);
            push_handles(&mut out, &f.defaults);
        },
        Object::Closure(c) => {
            out.push(c.function);
            push_handles(&mut out, &c.upvalues);
        },
        Object::Upvalue(u) => {
            out.push(u.closed);
            push_opt(&mut out, u.next);
        },
        Object::Class(c) => {
            push_opt(&mut out, c.superclass);
            push_opt(&mut out, c.module);
            push_method_refs(&mut out, &c.methods);
        },
        Object::Instance(inst) => {
            out.push(inst.class);
            match &inst.data {
                InstanceData::List(l) => push_handles(&mut out, &l.items),
                InstanceData::Dict(d) => {
                    push_dict_refs(&mut out, &d.entries, false);
                    push_dict_refs(&mut out, &d.entries, true);
                },
                InstanceData::SetOf(s) => push_set_refs(&mut out, &s.entries),
                InstanceData::Fields(f) => push_field_refs(&mut out, &f.fields),
                InstanceData::ListIter(it) => out.push(it.list_handle),
                InstanceData::StringIter(it) => out.push(it.string_handle),
                InstanceData::BytesIter(it) => out.push(it.bytes_handle),
                InstanceData::SetIter(it) => push_handles(&mut out, &it.items),
                InstanceData::DictIter(it) => push_handles(&mut out, &it.keys),
                _ => {},
            }
        },
        Object::BoundMethod(b) => {
            let m = match b.method {
                Method::User(h) => h,
                Method::Native(h) => h,
                Method::String(_) => ObjectHandle(0),
            };
            out.push(m);
            out.push(b.receiver);
        },
    }
    proof {
        match o {
            Object::Closure(c) => {
                assert(out@ =~= seq![c.function] + c.upvalues@);
            },
            Object::Upvalue(u) => {
                assert(out@ =~= seq![u.closed] + opt_ref(u.next));
            },
            Object::Class(c) => {
                assert(out@ =~= opt_ref(c.superclass) + opt_ref(c.module)
                    + c.methods@.map_values(|m: (String, Method)| m.1.handle()));
            },
            Object::Instance(inst) => {
                assert(out@ =~= seq![inst.class] + data_refs(inst.data));
            },
            Object::BoundMethod(b) => {
                assert(out@ =~= seq![b.method.handle(), b.receiver]);
            },
            Object::Function(f) => {
                assert(out@ =~= f.chunk.constants@ + f.defaults@);
            },
        }
    }
    out
}

/// A traced state with nothing left waiting has a reference-closed set of
/// marked slots.
proof fn lemma_closed_when_traced(objs: Seq<Option<Object>>, marks: Seq<bool>, gray: Seq<ObjectHandle>)
    requires
        traced_except(objs, marks, gray, -1),
        gray.len() == 0,
        marks.len() == objs.len(),
    ensures
        closed_under_refs(objs, marked_set(marks)),
{
    let x = marked_set(marks);
    assert forall|i: int, j: int|
        #![trigger x.contains(i), object_refs(objs[i]->0)[j]]
        x.contains(i) && 0 <= i < objs.len() && objs[i] is Some && 0 <= j < object_refs(objs[i]->0).len() implies {
            let c = object_refs(objs[i]->0)[j];
            2 <= c.0 < objs.len() && objs[c.0 as int] is Some ==> x.contains(c.0 as int)
        } by {
        assert(marks[i]);
        assert(!in_gray(gray, i));
        let c = object_refs(objs[i]->0)[j];
        if 2 <= c.0 < objs.len() && objs[c.0 as int] is Some {
            assert(marks[c.0 as int]);
        }
    }
}

impl ObjectHeap {
    /// Slots that are never freed: the built-in classes and the boolean
    /// singletons, which the heap itself refers to.
    pub closed spec fn permanent(&self, i: int) -> bool {
        ||| exists|k: int| 0 <= k < 15 && (#[trigger] self.class_handles()[k]).0 == i
        ||| i == self.true_instance.0
        ||| i == self.false_instance.0
    }

    /// The roots a collection starts from: the marked slots, the interned
    /// objects, and the permanent ones.
    pub closed spec fn gc_roots(&self) -> Set<int> {
        marked_set(self.marked@).union(self.cache_roots()).union(Set::new(|i: int| self.permanent(i)))
    }

    /// Would a sweep free slot `i`: a live object that is not marked?
    pub open spec fn sweepable(&self, i: int) -> bool {
        &&& 0 <= i < self.objs().len()
        &&& self.objs()[i] is Some
        &&& !self.marks()[i]
    }

    /// The heap's own objects, the built-in classes and the two booleans,
    /// are marked: they are roots of every collection.
    pub open spec fn permanent_marked(&self) -> bool {
        forall|i: int| 0 <= i < self.marks().len() && #[trigger] self.permanent(i) ==> self.marks()[i]
    }

    /// The handles of the permanent objects.
    fn permanent_handles(&self) -> (v: Vec<ObjectHandle>)
        ensures
            v@ == self.class_handles() + seq![self.spec_true_instance(), self.spec_false_instance()],
    {
        let v = vec![
            self.nil_class, self.int_class, self.float_class, self.bool_class, self.string_class,
            self.list_class, self.dict_class, self.set_class, self.bytes_class, self.module_class,
            self.list_iter_class, self.string_iter_class, self.dict_iter_class, self.set_iter_class,
            self.bytes_iter_class, self.true_instance, self.false_instance,
        ];
        proof {
            assert(v@ =~= self.class_handles() + seq![self.spec_true_instance(), self.spec_false_instance()]);
        }
        v
    }

    /// Mark the live object `h` and queue it for tracing.  The sentinels,
    /// free slots and already-marked objects are left alone.
    pub fn mark_object(&mut self, h: ObjectHandle)
        requires
            old(self).wf(),
        ensures
            final(self).wf(),
            final(self).objs() == old(self).objs(),
            final(self).caches() == old(self).caches(),
            ObjectHeap::keeps_builtins(old(self), final(self)),
            if old(self).live(h) && 2 <= h.0 && !old(self).marks()[h.0 as int] {
                &&& final(self).marks() == old(self).marks().update(h.0 as int, true)
                &&& final(self).gray() == old(self).gray().push(h)
            } else {
                &&& final(self).marks() == old(self).marks()
                &&& final(self).gray() == old(self).gray()
            },
            count_unmarked(final(self).marks()) + final(self).gray().len()
                == count_unmarked(old(self).marks()) + old(self).gray().len(),
    {
        if h.0 < 2 || h.0 >= self.marked.len() {
            return;
        }
        if self.objects[h.0].is_none() {
            return;
        }
        if self.marked[h.0] {
            return;
        }
        self.marked.set(h.0, true);
        self.gray_stack.push(h);
        proof {
            lemma_count_unmarked_set(old(self).marked@, h.0 as int);
            let n = self.objects@.len();
            assert forall|j: int| 0 <= j < self.gray_stack@.len() implies (#[trigger] self.gray_stack@[j]).0 < n by {
                if j < old(self).gray_stack@.len() {
                    assert(self.gray_stack@[j] == old(self).gray_stack@[j]);
                }
            }
            assert forall|i: int| 0 <= i < n && #[trigger] self.marked@[i] implies self.objects@[i] is Some by {
                if i != h.0 {
                    assert(old(self).marked@[i]);
                }
            }
            assert(self.class_handles() == old(self).class_handles());
        }
    }

    /// After a call of `mark_object` the tracing facts still hold.
    proof fn lemma_mark_step(before: &ObjectHeap, after: &ObjectHeap, h: ObjectHandle, skip: int, x: Set<int>)
        requires
            before.wf(),
            after.objs() == before.objs(),
            after.marks().len() == before.marks().len(),
            if before.live(h) && 2 <= h.0 && !before.marks()[h.0 as int] {
                &&& after.marks() == before.marks().update(h.0 as int, true)
                &&& after.gray() == before.gray().push(h)
            } else {
                &&& after.marks() == before.marks()
                &&& after.gray() == before.gray()
            },
        ensures
            traced_except(before.objs(), before.marks(), before.gray(), skip)
                ==> traced_except(after.objs(), after.marks(), after.gray(), skip),
            forall|i: int| 0 <= i < before.marks().len() && #[trigger] before.marks()[i] ==> after.marks()[i],
            before.live(h) && 2 <= h.0 ==> after.marks()[h.0 as int],
            within(before.marks(), before.gray(), x) && (before.live(h) && 2 <= h.0 ==> x.contains(h.0 as int))
                ==> within(after.marks(), after.gray(), x),
            forall|k: int| 0 <= k < before.gray().len() ==> before.marks()[#[trigger] before.gray()[k].0 as int]
                ==> after.marks()[before.gray()[k].0 as int],
            (forall|k: int| 0 <= k < before.gray().len() ==> before.marks()[#[trigger] before.gray()[k].0 as int])
                ==> (forall|k: int| 0 <= k < after.gray().len() ==> after.marks()[#[trigger] after.gray()[k].0 as int]),
    {
        if before.live(h) && 2 <= h.0 && !before.marks()[h.0 as int] {
            lemma_in_gray_push(before.gray(), h);
            if traced_except(before.objs(), before.marks(), before.gray(), skip) {
                lemma_traced_grow(before.objs(), before.marks(), before.gray(), after.marks(), after.gray(), skip);
            }
            if (forall|k: int| 0 <= k < before.gray().len() ==> before.marks()[#[trigger] before.gray()[k].0 as int]) {
                assert forall|k: int| 0 <= k < after.gray().len() implies after.marks()[#[trigger] after.gray()[k].0 as int] by {
                    if k < before.gray().len() {
                        assert(after.gray()[k] == before.gray()[k]);
                    }
                }
            }
            if within(before.marks(), before.gray(), x) && x.contains(h.0 as int) {
                assert forall|k: int| 0 <= k < after.gray().len() implies x.contains(#[trigger] after.gray()[k].0 as int) by {
                    if k < before.gray().len() {
                        assert(after.gray()[k] == before.gray()[k]);
                    }
                }
            }
        }
    }
}

/// Taking the last waiting handle `h` off leaves every other slot traced.
proof fn lemma_traced_pop(objs: Seq<Option<Object>>, marks: Seq<bool>, gray: Seq<ObjectHandle>)
    requires
        traced_except(objs, marks, gray, -1),
        gray.len() > 0,
    ensures
        traced_except(objs, marks, gray.drop_last(), gray.last().0 as int),
{
    let g2 = gray.drop_last();
    let h = gray.last();
    assert forall|i: int, j: int|
        0 <= i < objs.len() && i != h.0 && #[trigger] marks[i] && objs[i] is Some && !in_gray(g2, i)
        && 0 <= j < object_refs(objs[i]->0).len()
        implies {
            let c = #[trigger] object_refs(objs[i]->0)[j];
            2 <= c.0 < objs.len() && objs[c.0 as int] is Some ==> marks[c.0 as int]
        } by {
        if in_gray(gray, i) {
            let k = choose|k: int| 0 <= k < gray.len() && #[trigger] gray[k].0 == i;
            if k < g2.len() {
                assert(g2[k] == gray[k]);
            }
        }
    }
}

/// A slot all of whose live references are marked may leave the
/// exception list.
proof fn lemma_traced_close(objs: Seq<Option<Object>>, marks: Seq<bool>, gray: Seq<ObjectHandle>, s: int)
    requires
        traced_except(objs, marks, gray, s),
        0 <= s < objs.len(),
        objs[s] is Some ==> forall|j: int| 0 <= j < object_refs(objs[s]->0).len() ==> {
            let c = #[trigger] object_refs(objs[s]->0)[j];
            2 <= c.0 < objs.len() && objs[c.0 as int] is Some ==> marks[c.0 as int]
        },
    ensures
        traced_except(objs, marks, gray, -1),
{
    assert forall|i: int, j: int|
        0 <= i < objs.len() && i != -1 && #[trigger] marks[i] && objs[i] is Some && !in_gray(gray, i)
        && 0 <= j < object_refs(objs[i]->0).len()
        implies {
            let c = #[trigger] object_refs(objs[i]->0)[j];
            2 <= c.0 < objs.len() && objs[c.0 as int] is Some ==> marks[c.0 as int]
        } by {
        if i == s {
            let c = object_refs(objs[s]->0)[j];
            assert(2 <= c.0 < objs.len() && objs[c.0 as int] is Some ==> marks[c.0 as int]);
        }
    }
}

impl ObjectHeap {
    /// Mark every object that `h` refers to.
    fn blacken_object(&mut self, h: ObjectHandle)
        requires
            old(self).wf(),
            h.0 < old(self).objs().len(),
        ensures
            final(self).wf(),
            final(self).objs() == old(self).objs(),
            final(self).caches() == old(self).caches(),
            ObjectHeap::keeps_builtins(old(self), final(self)),
            final(self).marks().len() == old(self).marks().len(),
            count_unmarked(final(self).marks()) + final(self).gray().len()
                == count_unmarked(old(self).marks()) + old(self).gray().len(),
            forall|i: int| 0 <= i < old(self).marks().len() && #[trigger] old(self).marks()[i] ==> final(self).marks()[i],
            traced_except(old(self).objs(), old(self).marks(), old(self).gray(), h.0 as int) ==> final(self).tricolor(),
            old(self).gray_marked() ==> final(self).gray_marked(),
            forall|x: Set<int>|
                #[trigger] closed_under_refs(old(self).objs(), x) && within(old(self).marks(), old(self).gray(), x)
                && x.contains(h.0 as int) ==> within(final(self).marks(), final(self).gray(), x),
    {
        let refs = match &self.objects[h.0] {
            Some(o) => refs_of(o),
            None => Vec::new(),
        };
        let ghost objs = self.objs();
        let ghost pre = traced_except(objs, old(self).marks(), old(self).gray(), h.0 as int);
        let mut k: usize = 0;
        while k < refs.len()
            invariant
                self.wf(),
                self.objs() == objs,
                objs == old(self).objs(),
                self.caches() == old(self).caches(),
                ObjectHeap::keeps_builtins(old(self), self),
                h.0 < objs.len(),
                k <= refs@.len(),
                objs[h.0 as int] is Some ==> refs@ == object_refs(objs[h.0 as int]->0),
                objs[h.0 as int] is None ==> refs@.len() == 0,
                self.marks().len() == old(self).marks().len(),
                count_unmarked(self.marks()) + self.gray().len() == count_unmarked(old(self).marks()) + old(self).gray().len(),
                forall|i: int| 0 <= i < old(self).marks().len() && #[trigger] old(self).marks()[i] ==> self.marks()[i],
                pre ==> traced_except(objs, self.marks(), self.gray(), h.0 as int),
                pre == traced_except(objs, old(self).marks(), old(self).gray(), h.0 as int),
                forall|j: int| 0 <= j < k ==> {
                    let c = #[trigger] refs@[j];
                    2 <= c.0 < objs.len() && objs[c.0 as int] is Some ==> self.marks()[c.0 as int]
                },
                old(self).gray_marked() ==> self.gray_marked(),
                forall|x: Set<int>|
                    #[trigger] closed_under_refs(objs, x) && within(old(self).marks(), old(self).gray(), x)
                    && x.contains(h.0 as int) ==> within(self.marks(), self.gray(), x),
            decreases refs@.len() - k,
        {
            let c = refs[k];
            let ghost before = *self;
            self.mark_object(c);
            proof {
                ObjectHeap::lemma_mark_step(&before, self, c, h.0 as int, Set::empty());
                assert forall|x: Set<int>|
                    #[trigger] closed_under_refs(objs, x) && within(old(self).marks(), old(self).gray(), x)
                    && x.contains(h.0 as int) implies within(self.marks(), self.gray(), x) by {
                    ObjectHeap::lemma_mark_step(&before, self, c, h.0 as int, x);
                    if before.live(c) && 2 <= c.0 {
                        assert(object_refs(objs[h.0 as int]->0)[k as int] == c);
                        assert(x.contains(c.0 as int));
                    }
                }
                assert forall|j: int| 0 <= j < k + 1 implies {
                    let c2 = #[trigger] refs@[j];
                    2 <= c2.0 < objs.len() && objs[c2.0 as int] is Some ==> self.marks()[c2.0 as int]
                } by {
                    if j < k {
                        let c2 = refs@[j];
                        if 2 <= c2.0 < objs.len() && objs[c2.0 as int] is Some {
                            assert(before.marks()[c2.0 as int]);
                        }
                    }
                }
            }
            k = k + 1;
        }
        proof {
            if pre {
                lemma_traced_close(objs, self.marks(), self.gray(), h.0 as int);
            }
        }
    }

    /// Trace from the waiting objects until none is left; everything they
    /// reach gets marked.
    pub fn trace_references(&mut self)
        requires
            old(self).wf(),
        ensures
            final(self).wf(),
            final(self).objs() == old(self).objs(),
            final(self).caches() == old(self).caches(),
            ObjectHeap::keeps_builtins(old(self), final(self)),
            final(self).gray().len() == 0,
            final(self).marks().len() == old(self).marks().len(),
            forall|i: int| 0 <= i < old(self).marks().len() && #[trigger] old(self).marks()[i] ==> final(self).marks()[i],
            old(self).tricolor() ==> final(self).tricolor(),
            forall|x: Set<int>|
                #[trigger] closed_under_refs(old(self).objs(), x) && within(old(self).marks(), old(self).gray(), x)
                ==> within(final(self).marks(), final(self).gray(), x),
    {
        let ghost t0 = old(self).tricolor();
        let ghost objs = old(self).objs();
        loop
            invariant
                self.wf(),
                self.objs() == objs,
                objs == old(self).objs(),
                self.caches() == old(self).caches(),
                ObjectHeap::keeps_builtins(old(self), self),
                self.marks().len() == old(self).marks().len(),
                forall|i: int| 0 <= i < old(self).marks().len() && #[trigger] old(self).marks()[i] ==> self.marks()[i],
                t0 == old(self).tricolor(),
                t0 ==> self.tricolor(),
                forall|x: Set<int>|
                    #[trigger] closed_under_refs(objs, x) && within(old(self).marks(), old(self).gray(), x)
                    ==> within(self.marks(), self.gray(), x),
            ensures
                self.gray().len() == 0,
            decreases count_unmarked(self.marks()) + self.gray().len(),
        {
            let ghost before = *self;
            match self.gray_stack.pop() {
                None => {
                    break;
                },
                Some(h) => {
                    proof {
                        assert(h == before.gray().last());
                        assert(self.gray() == before.gray().drop_last());
                        if t0 {
                            lemma_traced_pop(objs, before.marks(), before.gray());
                        }
                        assert forall|j: int| 0 <= j < self.gray_stack@.len() implies
                            (#[trigger] self.gray_stack@[j]).0 < self.objects@.len() by {
                            assert(self.gray_stack@[j] == before.gray_stack@[j]);
                        }
                        assert(self.class_handles() == before.class_handles());
                        assert forall|x: Set<int>|
                            #[trigger] closed_under_refs(objs, x) && within(before.marks(), before.gray(), x)
                            implies within(self.marks(), self.gray(), x) && x.contains(h.0 as int) by {
                            assert(x.contains(before.gray()[before.gray().len() - 1].0 as int));
                            assert forall|k: int| 0 <= k < self.gray().len() implies x.contains(#[trigger] self.gray()[k].0 as int) by {
                                assert(self.gray()[k] == before.gray()[k]);
                            }
                        }
                    }
                    let ghost mid = *self;
                    self.blacken_object(h);
                    proof {
                        assert forall|x: Set<int>|
                            #[trigger] closed_under_refs(objs, x) && within(old(self).marks(), old(self).gray(), x)
                            implies within(self.marks(), self.gray(), x) by {
                            assert(within(before.marks(), before.gray(), x));
                            assert(within(mid.marks(), mid.gray(), x) && x.contains(h.0 as int));
                        }
                    }
                },
            }
        }
    }
}

/// The size of one object, in bytes.
pub open spec fn object_size() -> usize {
    vstd::layout::size_of::<Object>() as usize
}

/// The byte count `b` less one object's size for each slot from 2 up to
/// `upto` that `heap` would sweep, wrapping as a `usize`.
pub open spec fn bytes_after_sweep(b: usize, heap: ObjectHeap, upto: int) -> usize
    decreases upto,
{
    if upto <= 2 {
        b
    } else {
        let prev = bytes_after_sweep(b, heap, upto - 1);
        if heap.sweepable(upto - 1) {
            vstd::wrapping::usize_specs::wrapping_sub(prev, object_size())
        } else {
            prev
        }
    }
}

/// `o` with the handles of slots below `upto` that `heap` would sweep
/// dropped.
pub open spec fn after_sweep(o: Option<ObjectHandle>, heap: ObjectHeap, upto: int) -> Option<ObjectHandle> {
    match o {
        Some(c) => if c.0 < upto && heap.sweepable(c.0 as int) { None } else { Some(c) },
        None => None,
    }
}

impl ObjectHeap {
    /// Drop every small-integer cache entry that holds `h`.
    fn uncache_int(&mut self, h: ObjectHandle)
        requires
            old(self).wf(),
        ensures
            final(self).wf(),
            final(self).objs() == old(self).objs(),
            final(self).allocated_bytes() == old(self).allocated_bytes(),
            final(self).marks() == old(self).marks(),
            final(self).gray() == old(self).gray(),
            ObjectHeap::same_builtins(old(self), final(self)),
            final(self).string_cache@ == old(self).string_cache@,
            final(self).interned_strings@ == old(self).interned_strings@,
            final(self).free_slots@ == old(self).free_slots@,
            forall|k: int| 0 <= k < SMALL_INT_COUNT ==> #[trigger] final(self).int_cache@[k]
                == if opt_slot_is(old(self).int_cache@[k], h.0 as int) { None } else { old(self).int_cache@[k] },
    {
        let mut k: usize = 0;
        while k < self.int_cache.len()
            invariant
                self.wf(),
                self.objects@ == old(self).objects@,
                self.marked@ == old(self).marked@,
                self.gray_stack@ == old(self).gray_stack@,
                self.free_slots@ == old(self).free_slots@,
                self.string_cache@ == old(self).string_cache@,
                self.interned_strings@ == old(self).interned_strings@,
                self.class_handles() == old(self).class_handles(),
                self.true_instance == old(self).true_instance,
                self.false_instance == old(self).false_instance,
                self.bytes_allocated == old(self).bytes_allocated,
                self.int_cache@.len() == SMALL_INT_COUNT,
                k <= SMALL_INT_COUNT,
                forall|j: int| 0 <= j < SMALL_INT_COUNT ==> #[trigger] self.int_cache@[j]
                    == if j < k && opt_slot_is(old(self).int_cache@[j], h.0 as int) { None } else { old(self).int_cache@[j] },
            decreases SMALL_INT_COUNT - k,
        {
            match self.int_cache[k] {
                Some(c) => {
                    if c.0 == h.0 {
                        self.int_cache.set(k, None);
                        proof {
                            assert forall|j: int| 0 <= j < SMALL_INT_COUNT implies (#[trigger] self.int_cache@[j] matches Some(c2) ==> {
                                &&& 2 <= c2.0 < self.objects@.len()
                                &&& is_int_object(self.objects@[c2.0 as int], j + SMALL_INT_MIN)
                            }) by {
                                if j != k {
                                    assert(self.int_cache@[j] == old(self).int_cache@[j] || self.int_cache@[j] is None);
                                }
                            }
                            assert(self.class_handles() == old(self).class_handles());
                        }
                    }
                },
                None => {},
            }
            k = k + 1;
        }
    }

    /// Drop `h` from the string cache and from the list of interned strings.
    fn uncache_string(&mut self, h: ObjectHandle)
        requires
            old(self).wf(),
        ensures
            final(self).wf(),
            final(self).objs() == old(self).objs(),
            final(self).allocated_bytes() == old(self).allocated_bytes(),
            final(self).marks() == old(self).marks(),
            final(self).gray() == old(self).gray(),
            ObjectHeap::same_builtins(old(self), final(self)),
            final(self).int_cache@ == old(self).int_cache@,
            final(self).free_slots@ == old(self).free_slots@,
            forall|s: Seq<char>| #[trigger] final(self).cached_str(s)
                == if opt_slot_is(old(self).cached_str(s), h.0 as int) { None } else { old(self).cached_str(s) },
            forall|j: int| 0 <= j < final(self).interned_strings@.len() ==> (#[trigger] final(self).interned_strings@[j]).0 != h.0,
            forall|j: int| 0 <= j < final(self).interned_strings@.len() ==> old(self).interned_strings@.contains(#[trigger] final(self).interned_strings@[j]),
    {
        let mut j: usize = 0;
        while j < self.interned_strings.len()
            invariant
                j <= self.interned_strings@.len(),
                forall|m: int| 0 <= m < j ==> (#[trigger] self.interned_strings@[m]).0 != h.0,
            ensures
                j <= self.interned_strings@.len(),
                forall|m: int| 0 <= m < j ==> (#[trigger] self.interned_strings@[m]).0 != h.0,
                j < self.interned_strings@.len() ==> self.interned_strings@[j as int].0 == h.0,
            decreases self.interned_strings@.len() - j,
        {
            if self.interned_strings[j].0 == h.0 {
                break;
            }
            j = j + 1;
        }
        if j == self.interned_strings.len() {
            proof {
                assert forall|s: Seq<char>| #[trigger] self.cached_str(s)
                    == if opt_slot_is(old(self).cached_str(s), h.0 as int) { None } else { old(self).cached_str(s) } by {
                    if self.string_cache@.contains_key(s) && self.string_cache@[s].0 == h.0 {
                        let c = self.string_cache@[s];
                        assert(self.interned_strings@.contains(c));
                        let m = choose|m: int| 0 <= m < self.interned_strings@.len() && self.interned_strings@[m] == c;
                        assert(self.interned_strings@[m].0 != h.0);
                    }
                }
            }
            return;
        }
        let ghost hj = self.interned_strings@[j as int];
        let ghost key_view = str_value_of(self.objects@[hj.0 as int]);
        let key: String = match &self.objects[h.0] {
            Some(Object::Instance(inst)) => match &inst.data {
                InstanceData::Str(t) => t.value.clone(),
                _ => {
                    proof {
                        assert(is_str_object(self.objects@[hj.0 as int], key_view));
                    }
                    return;
                },
            },
            _ => {
                proof {
                    assert(is_str_object(self.objects@[hj.0 as int], key_view));
                }
                return;
            },
        };
        proof {
            assert(hj == h);
            assert(key@ == key_view);
            assert(is_str_object(self.objects@[h.0 as int], key@));
            assert(self.string_cache@[key@] == h);
        }
        self.string_cache.remove(key.as_str());
        let _removed = self.interned_strings.remove(j);
        proof {
            let old_list = old(self).interned_strings@;
            assert forall|m: int| 0 <= m < self.interned_strings@.len() implies
                (#[trigger] self.interned_strings@[m]).0 != h.0 && old_list.contains(self.interned_strings@[m]) by {
                if m < j {
                    assert(self.interned_strings@[m] == old_list[m]);
                    assert(old_list[m] != old_list[j as int]);
                } else {
                    assert(self.interned_strings@[m] == old_list[m + 1]);
                    assert(old_list[m + 1] != old_list[j as int]);
                }
            }
            assert forall|s: Seq<char>| #[trigger] self.string_cache@.contains_key(s) implies {
                let c = self.string_cache@[s];
                &&& 2 <= c.0 < self.objects@.len()
                &&& is_str_object(self.objects@[c.0 as int], s)
                &&& self.interned_strings@.contains(c)
            } by {
                let c = self.string_cache@[s];
                assert(s != key@);
                assert(old(self).string_cache@[s] == c);
                assert(is_str_object(self.objects@[c.0 as int], s));
                assert(c != h);
                assert(old_list.contains(c));
                let m = choose|m: int| 0 <= m < old_list.len() && old_list[m] == c;
                assert(m != j);
                if m < j {
                    assert(self.interned_strings@[m] == c);
                } else {
                    assert(self.interned_strings@[m - 1] == c);
                }
            }
            assert forall|m: int| 0 <= m < self.interned_strings@.len() implies {
                let c = #[trigger] self.interned_strings@[m];
                let t = str_value_of(self.objects@[c.0 as int]);
                &&& 2 <= c.0 < self.objects@.len()
                &&& is_str_object(self.objects@[c.0 as int], t)
                &&& self.string_cache@.contains_key(t)
                &&& self.string_cache@[t] == c
            } by {
                let c = self.interned_strings@[m];
                let idx = if m < j { m } else { m + 1 };
                assert(c == old_list[idx]);
                let t = str_value_of(self.objects@[c.0 as int]);
                assert(old(self).string_cache@[t] == c);
                assert(c != h);
                assert(t != key@);
            }
            assert forall|m1: int, m2: int| 0 <= m1 < m2 < self.interned_strings@.len() implies
                self.interned_strings@[m1] != self.interned_strings@[m2] by {
                let i1 = if m1 < j { m1 } else { m1 + 1 };
                let i2 = if m2 < j { m2 } else { m2 + 1 };
                assert(self.interned_strings@[m1] == old_list[i1]);
                assert(self.interned_strings@[m2] == old_list[i2]);
            }
            assert(self.class_handles() == old(self).class_handles());
            assert forall|s: Seq<char>| #[trigger] self.cached_str(s)
                == if opt_slot_is(old(self).cached_str(s), h.0 as int) { None } else { old(self).cached_str(s) } by {
                if s == key@ {
                } else if old(self).string_cache@.contains_key(s) {
                    let c = old(self).string_cache@[s];
                    if c.0 == h.0 {
                        assert(is_str_object(old(self).objects@[c.0 as int], s));
                        assert(c == h);
                    }
                }
            }
        }
    }
}

impl ObjectHeap {
    /// Free the sweepable slot `i`, dropping it from the interning caches.
    fn release_slot(&mut self, i: usize)
        requires
            old(self).wf(),
            old(self).sweepable(i as int),
            !old(self).permanent(i as int),
        ensures
            final(self).wf(),
            final(self).objs() == old(self).objs().update(i as int, None),
            final(self).free_list() == old(self).free_list().push(i),
            final(self).marks() == old(self).marks(),
            final(self).gray() == old(self).gray(),
            ObjectHeap::same_builtins(old(self), final(self)),
            forall|v: i64| #[trigger] final(self).cached_int(v)
                == if opt_slot_is(old(self).cached_int(v), i as int) { None } else { old(self).cached_int(v) },
            forall|s: Seq<char>| #[trigger] final(self).cached_str(s)
                == if opt_slot_is(old(self).cached_str(s), i as int) { None } else { old(self).cached_str(s) },
            final(self).allocated_bytes() == old(self).allocated_bytes(),
    {
        let h = ObjectHandle(i);
        self.uncache_int(h);
        let ghost mid = *self;
        self.uncache_string(h);
        let ghost mid2 = *self;
        self.objects.set(i, None);
        self.free_slots.push(i);
        proof {
            let n = self.objects@.len();
            assert(mid2.objects@ == old(self).objects@);
            assert forall|j: int| 0 <= j < self.free_slots@.len() implies
                2 <= #[trigger] self.free_slots@[j] < n && self.objects@[self.free_slots@[j] as int] is None by {
                if j < mid2.free_slots@.len() {
                    assert(self.free_slots@[j] == old(self).free_slots@[j]);
                    assert(old(self).objects@[old(self).free_slots@[j] as int] is None);
                }
            }
            assert forall|j: int, k: int| 0 <= j < k < self.free_slots@.len() implies
                self.free_slots@[j] != self.free_slots@[k] by {
                if k == mid2.free_slots@.len() {
                    assert(old(self).objects@[old(self).free_slots@[j] as int] is None);
                }
            }
            assert forall|j: int| 0 <= j < n && #[trigger] self.marked@[j] implies self.objects@[j] is Some by {
                assert(old(self).marked@[j]);
            }
            assert forall|k: int| 0 <= k < SMALL_INT_COUNT implies (#[trigger] self.int_cache@[k] matches Some(c) ==> {
                &&& 2 <= c.0 < n
                &&& is_int_object(self.objects@[c.0 as int], k + SMALL_INT_MIN)
            }) by {
                assert(self.int_cache@[k] == mid.int_cache@[k]);
                if let Some(c) = self.int_cache@[k] {
                    assert(c.0 != i);
                    assert(is_int_object(old(self).objects@[c.0 as int], k + SMALL_INT_MIN));
                }
            }
            assert forall|t: Seq<char>| #[trigger] self.string_cache@.contains_key(t) implies {
                let c = self.string_cache@[t];
                &&& 2 <= c.0 < n
                &&& is_str_object(self.objects@[c.0 as int], t)
                &&& self.interned_strings@.contains(c)
            } by {
                let c = self.string_cache@[t];
                assert(mid2.interned_strings@.contains(c));
                let m = choose|m: int| 0 <= m < mid2.interned_strings@.len() && mid2.interned_strings@[m] == c;
                assert(mid2.interned_strings@[m].0 != i);
                assert(is_str_object(mid2.objects@[c.0 as int], t));
            }
            assert forall|m: int| 0 <= m < self.interned_strings@.len() implies {
                let c = #[trigger] self.interned_strings@[m];
                let t = str_value_of(self.objects@[c.0 as int]);
                &&& 2 <= c.0 < n
                &&& is_str_object(self.objects@[c.0 as int], t)
                &&& self.string_cache@.contains_key(t)
                &&& self.string_cache@[t] == c
            } by {
                let c = self.interned_strings@[m];
                assert(mid2.interned_strings@[m] == c);
                assert(c.0 != i);
                let t = str_value_of(mid2.objects@[c.0 as int]);
                assert(is_str_object(mid2.objects@[c.0 as int], t));
            }
            assert(self.class_handles() == old(self).class_handles());
            assert forall|j: int| 0 <= j < 15 implies {
                let c = #[trigger] self.class_handles()[j];
                2 <= c.0 < n && is_class_object(self.objects@[c.0 as int])
            } by {
                let c = self.class_handles()[j];
                assert(old(self).permanent(c.0 as int));
                assert(is_class_object(old(self).objects@[c.0 as int]));
            }
            assert(old(self).permanent(self.true_instance.0 as int));
            assert(old(self).permanent(self.false_instance.0 as int));
            assert forall|v: i64| #[trigger] self.cached_int(v)
                == if opt_slot_is(old(self).cached_int(v), i as int) { None } else { old(self).cached_int(v) } by {
                if is_small_int(v) {
                    assert(self.int_cache@[v - SMALL_INT_MIN] == mid.int_cache@[v - SMALL_INT_MIN]);
                }
            }
            assert forall|t: Seq<char>| #[trigger] self.cached_str(t)
                == if opt_slot_is(old(self).cached_str(t), i as int) { None } else { old(self).cached_str(t) } by {
                assert(self.cached_str(t) == mid2.cached_str(t));
                assert(mid.cached_str(t) == old(self).cached_str(t));
            }
        }
    }
}

impl ObjectHeap {
    /// Free every live object that is not marked, dropping freed objects
    /// from the interning caches, and clear every mark.  The heap's own
    /// objects are roots, so they are marked when a sweep starts.
    #[verifier::spinoff_prover]
    pub fn sweep(&mut self)
        requires
            old(self).wf(),
            old(self).permanent_marked(),
        ensures
            final(self).wf(),
            final(self).objs().len() == old(self).objs().len(),
            forall|i: int| 0 <= i < old(self).objs().len() ==> #[trigger] final(self).objs()[i]
                == if old(self).sweepable(i) { None } else { old(self).objs()[i] },
            forall|i: int| 0 <= i < final(self).marks().len() ==> !#[trigger] final(self).marks()[i],
            forall|i: int| 0 <= i < old(self).objs().len() && old(self).sweepable(i)
                ==> #[trigger] final(self).free_list().contains(i as usize),
            forall|j: usize| #[trigger] old(self).free_list().contains(j) ==> final(self).free_list().contains(j),
            final(self).gray() == old(self).gray(),
            ObjectHeap::same_builtins(old(self), final(self)),
            forall|v: i64| #[trigger] final(self).cached_int(v) == after_sweep(old(self).cached_int(v), *old(self), old(self).objs().len() as int),
            forall|s: Seq<char>| #[trigger] final(self).cached_str(s) == after_sweep(old(self).cached_str(s), *old(self), old(self).objs().len() as int),
            final(self).allocated_bytes() == bytes_after_sweep(old(self).allocated_bytes(), *old(self), old(self).objs().len() as int),
    {
        let size = std::mem::size_of::<Object>();
        let n = self.objects.len();
        let mut i: usize = 2;
        proof {
            assert(!self.marked@[0] && !self.marked@[1]);
        }
        while i < n
            invariant
                self.wf(),
                2 <= i <= n,
                n == self.objs().len(),
                n == old(self).objs().len(),
                self.marks().len() == n,
                forall|k: int| 0 <= k < n ==> #[trigger] self.objs()[k]
                    == if k < i && old(self).sweepable(k) { None } else { old(self).objs()[k] },
                forall|k: int| 0 <= k < i ==> !#[trigger] self.marks()[k],
                forall|k: int| i <= k < n ==> #[trigger] self.marks()[k] == old(self).marks()[k],
                old(self).permanent_marked(),
                old(self).marks().len() == n,
                forall|k: int| 0 <= k < i && old(self).sweepable(k) ==> #[trigger] self.free_list().contains(k as usize),
                forall|j: usize| #[trigger] old(self).free_list().contains(j) ==> self.free_list().contains(j),
                self.gray() == old(self).gray(),
                ObjectHeap::same_builtins(old(self), self),
                forall|v: i64| #[trigger] self.cached_int(v) == after_sweep(old(self).cached_int(v), *old(self), i as int),
                forall|s: Seq<char>| #[trigger] self.cached_str(s) == after_sweep(old(self).cached_str(s), *old(self), i as int),
                self.allocated_bytes() == bytes_after_sweep(old(self).allocated_bytes(), *old(self), i as int),
                size == object_size(),
            decreases n - i,
        {
            let ghost before = *self;
            proof {
                assert(self.permanent(i as int) == old(self).permanent(i as int));
            }
            if self.objects[i].is_some() {
                if self.marked[i] {
                    self.marked.set(i, false);
                    proof {
                        assert forall|j: int| 0 <= j < n && #[trigger] self.marked@[j] implies self.objects@[j] is Some by {
                            assert(before.marked@[j]);
                        }
                        assert(self.class_handles() == before.class_handles());
                        assert forall|v: i64| #[trigger] self.cached_int(v)
                            == after_sweep(old(self).cached_int(v), *old(self), i + 1) by {
                            assert(self.cached_int(v) == before.cached_int(v));
                        }
                        assert forall|t: Seq<char>| #[trigger] self.cached_str(t)
                            == after_sweep(old(self).cached_str(t), *old(self), i + 1) by {
                            assert(self.cached_str(t) == before.cached_str(t));
                        }
                    }
                } else {
                    proof {
                        assert(self.marks()[i as int] == old(self).marks()[i as int]);
                        assert(!old(self).permanent(i as int));
                        assert(self.permanent(i as int) == old(self).permanent(i as int));
                    }
                    self.bytes_allocated = self.bytes_allocated.wrapping_sub(size);
                    let ghost before_release = *self;
                    proof {
                        assert(before_release.free_list() == before.free_list());
                        assert(before_release.objs() == before.objs());
                        assert(before_release.marks() == before.marks());
                        assert forall|v: i64| #[trigger] before_release.cached_int(v) == before.cached_int(v) by {}
                        assert forall|t: Seq<char>| #[trigger] before_release.cached_str(t) == before.cached_str(t) by {}
                    }
                    self.release_slot(i);
                    proof {
                        assert(self.free_list()[self.free_list().len() - 1] == i);
                        assert forall|k: int| 0 <= k < i + 1 && old(self).sweepable(k) implies #[trigger] self.free_list().contains(k as usize) by {
                            if k < i {
                                assert(before.free_list().contains(k as usize));
                                let w = choose|w: int| 0 <= w < before.free_list().len() && before.free_list()[w] == k as usize;
                                assert(before_release.free_list()[w] == k as usize);
                                assert(self.free_list()[w] == k as usize);
                            } else {
                                assert(k == i);
                                assert(self.free_list()[self.free_list().len() - 1] == k as usize);
                            }
                        }
                        assert forall|j: usize| #[trigger] old(self).free_list().contains(j) implies self.free_list().contains(j) by {
                            assert(before.free_list().contains(j));
                            let w = choose|w: int| 0 <= w < before.free_list().len() && before.free_list()[w] == j;
                            assert(self.free_list()[w] == j);
                        }
                        assert forall|v: i64| #[trigger] self.cached_int(v)
                            == after_sweep(old(self).cached_int(v), *old(self), i + 1) by {
                            assert(before.cached_int(v) == after_sweep(old(self).cached_int(v), *old(self), i as int));
                        }
                        assert forall|t: Seq<char>| #[trigger] self.cached_str(t)
                            == after_sweep(old(self).cached_str(t), *old(self), i + 1) by {
                            assert(before.cached_str(t) == after_sweep(old(self).cached_str(t), *old(self), i as int));
                        }
                    }
                }
            } else {
                proof {
                    assert forall|v: i64| #[trigger] self.cached_int(v)
                        == after_sweep(old(self).cached_int(v), *old(self), i + 1) by {
                        assert(before.cached_int(v) == after_sweep(old(self).cached_int(v), *old(self), i as int));
                    }
                    assert forall|t: Seq<char>| #[trigger] self.cached_str(t)
                        == after_sweep(old(self).cached_str(t), *old(self), i + 1) by {
                        assert(before.cached_str(t) == after_sweep(old(self).cached_str(t), *old(self), i as int));
                    }
                }
            }
            i = i + 1;
        }
    }
}

impl ObjectHeap {
    /// Is slot `i` one that the heap itself keeps: interned or permanent?
    pub open spec fn own_root(&self, i: int) -> bool {
        self.cache_roots().contains(i) || self.permanent(i)
    }

    /// The handles of the interned and the permanent objects.
    fn root_handles(&self) -> (v: Vec<ObjectHandle>)
        requires
            self.wf(),
        ensures
            forall|j: int| 0 <= j < v@.len() ==> self.own_root((#[trigger] v@[j]).0 as int),
            forall|i: int| #[trigger] self.own_root(i) ==> exists|j: int| 0 <= j < v@.len() && v@[j].0 == i,
    {
        let mut v: Vec<ObjectHandle> = Vec::new();
        let mut k: usize = 0;
        while k < self.int_cache.len()
            invariant
                self.wf(),
                k <= SMALL_INT_COUNT,
                forall|j: int| 0 <= j < v@.len() ==> self.own_root((#[trigger] v@[j]).0 as int),
                forall|m: int| 0 <= m < k ==> (#[trigger] self.int_cache@[m] matches Some(c) ==> v@.contains(c)),
            decreases SMALL_INT_COUNT - k,
        {
            match self.int_cache[k] {
                Some(c) => {
                    proof {
                        assert(opt_slot_is(self.int_cache@[k as int], c.0 as int));
                        assert(self.cache_roots().contains(c.0 as int));
                    }
                    let ghost before = v@;
                    v.push(c);
                    proof {
                        assert(v@[v@.len() - 1] == c);
                        assert forall|m: int| 0 <= m < k + 1 implies (#[trigger] self.int_cache@[m] matches Some(c2) ==> v@.contains(c2)) by {
                            if let Some(c2) = self.int_cache@[m] {
                                if m < k {
                                    assert(before.contains(c2));
                                    let w = choose|w: int| 0 <= w < before.len() && before[w] == c2;
                                    assert(v@[w] == c2);
                                }
                            }
                        }
                    }
                },
                None => {},
            }
            k = k + 1;
        }
        let mut j: usize = 0;
        let ghost n_ints = v@.len();
        while j < self.interned_strings.len()
            invariant
                self.wf(),
                j <= self.interned_strings@.len(),
                n_ints <= v@.len(),
                v@.len() == n_ints + j,
                forall|q: int| 0 <= q < v@.len() ==> self.own_root((#[trigger] v@[q]).0 as int),
                forall|m: int| 0 <= m < SMALL_INT_COUNT ==> (#[trigger] self.int_cache@[m] matches Some(c) ==> v@.contains(c)),
                forall|m: int| 0 <= m < j ==> v@[n_ints + m] == #[trigger] self.interned_strings@[m],
            decreases self.interned_strings@.len() - j,
        {
            let c = self.interned_strings[j];
            proof {
                assert(self.cache_roots().contains(c.0 as int));
            }
            let ghost before = v@;
            v.push(c);
            proof {
                assert forall|m: int| 0 <= m < SMALL_INT_COUNT implies (#[trigger] self.int_cache@[m] matches Some(c2) ==> v@.contains(c2)) by {
                    if let Some(c2) = self.int_cache@[m] {
                        let w = choose|w: int| 0 <= w < before.len() && before[w] == c2;
                        assert(v@[w] == c2);
                    }
                }
            }
            j = j + 1;
        }
        let perm = self.permanent_handles();
        let ghost n_cached = v@.len();
        let mut q: usize = 0;
        while q < perm.len()
            invariant
                self.wf(),
                perm@ == self.class_handles() + seq![self.spec_true_instance(), self.spec_false_instance()],
                q <= perm@.len(),
                v@.len() == n_cached + q,
                n_cached == n_ints + self.interned_strings@.len(),
                forall|r: int| 0 <= r < v@.len() ==> self.own_root((#[trigger] v@[r]).0 as int),
                forall|m: int| 0 <= m < SMALL_INT_COUNT ==> (#[trigger] self.int_cache@[m] matches Some(c) ==> v@.contains(c)),
                forall|m: int| 0 <= m < self.interned_strings@.len() ==> v@[n_ints + m] == #[trigger] self.interned_strings@[m],
                forall|m: int| 0 <= m < q ==> v@[n_cached + m] == #[trigger] perm@[m],
            decreases perm@.len() - q,
        {
            let c = perm[q];
            proof {
                if q < 15 {
                    assert(self.class_handles()[q as int] == c);
                }
                assert(self.permanent(c.0 as int));
            }
            let ghost before = v@;
            v.push(c);
            proof {
                assert forall|m: int| 0 <= m < SMALL_INT_COUNT implies (#[trigger] self.int_cache@[m] matches Some(c2) ==> v@.contains(c2)) by {
                    if let Some(c2) = self.int_cache@[m] {
                        let w = choose|w: int| 0 <= w < before.len() && before[w] == c2;
                        assert(v@[w] == c2);
                    }
                }
                assert forall|m: int| 0 <= m < self.interned_strings@.len() implies v@[n_ints + m] == #[trigger] self.interned_strings@[m] by {
                    assert(v@[n_ints + m] == before[n_ints + m]);
                }
            }
            q = q + 1;
        }
        proof {
            assert forall|i: int| #[trigger] self.own_root(i) implies exists|r: int| 0 <= r < v@.len() && v@[r].0 == i by {
                if exists|k: int| 0 <= k < SMALL_INT_COUNT && opt_slot_is(#[trigger] self.int_cache@[k], i) {
                    let k = choose|k: int| 0 <= k < SMALL_INT_COUNT && opt_slot_is(#[trigger] self.int_cache@[k], i);
                    let c = self.int_cache@[k]->0;
                    assert(v@.contains(c));
                    let r = choose|r: int| 0 <= r < v@.len() && v@[r] == c;
                    assert(v@[r].0 == i);
                } else if exists|m: int| 0 <= m < self.interned_strings@.len() && (#[trigger] self.interned_strings@[m]).0 == i {
                    let m = choose|m: int| 0 <= m < self.interned_strings@.len() && (#[trigger] self.interned_strings@[m]).0 == i;
                    assert(v@[n_ints + m] == self.interned_strings@[m]);
                } else if exists|k: int| 0 <= k < 15 && (#[trigger] self.class_handles()[k]).0 == i {
                    let k = choose|k: int| 0 <= k < 15 && (#[trigger] self.class_handles()[k]).0 == i;
                    assert(v@[n_cached + k] == perm@[k]);
                } else if i == self.true_instance.0 {
                    assert(v@[n_cached + 15int] == perm@[15]);
                } else {
                    assert(v@[n_cached + 16int] == perm@[16]);
                }
            }
        }
        v
    }
}

impl ObjectHeap {
    /// Mark every live object among `hs`.
    fn mark_all(&mut self, hs: &Vec<ObjectHandle>)
        requires
            old(self).wf(),
        ensures
            final(self).wf(),
            final(self).objs() == old(self).objs(),
            final(self).caches() == old(self).caches(),
            ObjectHeap::keeps_builtins(old(self), final(self)),
            final(self).marks().len() == old(self).marks().len(),
            forall|i: int| 0 <= i < old(self).marks().len() && #[trigger] old(self).marks()[i] ==> final(self).marks()[i],
            forall|j: int| 0 <= j < hs@.len() && old(self).live(#[trigger] hs@[j]) && 2 <= hs@[j].0
                ==> final(self).marks()[hs@[j].0 as int],
            old(self).tricolor() ==> final(self).tricolor(),
            old(self).gray_marked() ==> final(self).gray_marked(),
            forall|x: Set<int>|
                within(old(self).marks(), old(self).gray(), x) && (forall|j: int| 0 <= j < hs@.len() ==> x.contains(#[trigger] hs@[j].0 as int))
                ==> #[trigger] within(final(self).marks(), final(self).gray(), x),
    {
        let ghost objs = old(self).objs();
        let mut k: usize = 0;
        while k < hs.len()
            invariant
                self.wf(),
                self.objs() == objs,
                objs == old(self).objs(),
                self.caches() == old(self).caches(),
                ObjectHeap::keeps_builtins(old(self), self),
                k <= hs@.len(),
                self.marks().len() == old(self).marks().len(),
                forall|i: int| 0 <= i < old(self).marks().len() && #[trigger] old(self).marks()[i] ==> self.marks()[i],
                forall|j: int| 0 <= j < k && old(self).live(#[trigger] hs@[j]) && 2 <= hs@[j].0 ==> self.marks()[hs@[j].0 as int],
                old(self).tricolor() ==> self.tricolor(),
                old(self).gray_marked() ==> self.gray_marked(),
                forall|x: Set<int>|
                    within(old(self).marks(), old(self).gray(), x) && (forall|j: int| 0 <= j < hs@.len() ==> x.contains(#[trigger] hs@[j].0 as int))
                    ==> #[trigger] within(self.marks(), self.gray(), x),
            decreases hs@.len() - k,
        {
            let c = hs[k];
            let ghost before = *self;
            self.mark_object(c);
            proof {
                ObjectHeap::lemma_mark_step(&before, self, c, -1, Set::empty());
                assert forall|x: Set<int>|
                    within(old(self).marks(), old(self).gray(), x) && (forall|j: int| 0 <= j < hs@.len() ==> x.contains(#[trigger] hs@[j].0 as int))
                    implies #[trigger] within(self.marks(), self.gray(), x) by {
                    assert(within(before.marks(), before.gray(), x));
                    assert(x.contains(hs@[k as int].0 as int));
                    ObjectHeap::lemma_mark_step(&before, self, c, -1, x);
                }
                assert forall|j: int| 0 <= j < k + 1 && old(self).live(#[trigger] hs@[j]) && 2 <= hs@[j].0
                    implies self.marks()[hs@[j].0 as int] by {
                    if j < k {
                        assert(before.marks()[hs@[j].0 as int]);
                    }
                }
            }
            k = k + 1;
        }
    }

    /// Collect garbage: mark the interned and the permanent objects, trace
    /// everything reachable from the marked and waiting objects, and free
    /// the rest.  Marks are cleared afterwards.
    pub fn collect_garbage(&mut self)
        requires
            old(self).wf(),
        ensures
            final(self).wf(),
            final(self).idle(),
            final(self).objs().len() == old(self).objs().len(),
            forall|i: int| 0 <= i < old(self).objs().len() && (#[trigger] final(self).objs()[i]) is Some
                ==> final(self).objs()[i] == old(self).objs()[i],
            ObjectHeap::same_builtins(old(self), final(self)),
            forall|i: int| 0 <= i < old(self).objs().len() && old(self).own_root(i)
                ==> #[trigger] final(self).objs()[i] == old(self).objs()[i],
            forall|v: i64| #[trigger] final(self).cached_int(v) == old(self).cached_int(v),
            forall|s: Seq<char>| #[trigger] final(self).cached_str(s) == old(self).cached_str(s),
            // Starting from a traced state, exactly the objects reachable
            // from the roots survive.
            old(self).tricolor() && old(self).gray_marked() ==> forall|i: int| 0 <= i < old(self).objs().len() ==>
                ((#[trigger] final(self).objs()[i]) is Some
                    <==> old(self).objs()[i] is Some && reachable_from(old(self).objs(), old(self).gc_roots(), i)),
            // So every object a surviving object stores a handle to survives
            // too: a closure keeps its function and its captured upvalues.
            old(self).tricolor() && old(self).gray_marked() ==> forall|i: int, h: ObjectHandle|
                0 <= i < old(self).objs().len() && (#[trigger] final(self).objs()[i]) is Some
                && #[trigger] stores_handle(final(self).objs()[i]->0, h)
                && 2 <= h.0 < old(self).objs().len() && old(self).objs()[h.0 as int] is Some
                ==> final(self).objs()[h.0 as int] is Some,
    {
        let ghost objs = old(self).objs();
        let roots = self.root_handles();
        self.mark_all(&roots);
        let ghost marked1 = *self;
        self.trace_references();
        let ghost traced = *self;
        proof {
            let n = objs.len();
            assert(traced.class_handles() == old(self).class_handles());
            // every own root is marked after the mark phase
            assert forall|i: int| 0 <= i < n && #[trigger] old(self).own_root(i) implies traced.marks()[i] by {
                let j = choose|j: int| 0 <= j < roots@.len() && roots@[j].0 == i;
                if old(self).cache_roots().contains(i) {
                    if exists|k: int| 0 <= k < SMALL_INT_COUNT && opt_slot_is(#[trigger] old(self).int_cache@[k], i) {
                        let k = choose|k: int| 0 <= k < SMALL_INT_COUNT && opt_slot_is(#[trigger] old(self).int_cache@[k], i);
                        assert(is_int_object(old(self).objects@[i], k + SMALL_INT_MIN));
                    } else {
                        let m = choose|m: int| 0 <= m < old(self).interned_strings@.len() && (#[trigger] old(self).interned_strings@[m]).0 == i;
                        let c = old(self).interned_strings@[m];
                        assert(is_str_object(old(self).objects@[i], str_value_of(old(self).objects@[i])));
                    }
                } else {
                    if exists|k: int| 0 <= k < 15 && (#[trigger] old(self).class_handles()[k]).0 == i {
                        let k = choose|k: int| 0 <= k < 15 && (#[trigger] old(self).class_handles()[k]).0 == i;
                        assert(is_class_object(old(self).objects@[old(self).class_handles()[k].0 as int]));
                    }
                }
                assert(old(self).live(roots@[j]) && 2 <= roots@[j].0);
                assert(marked1.marks()[i]);
            }
            assert forall|i: int| 0 <= i < traced.marks().len() && #[trigger] traced.permanent(i) implies traced.marks()[i] by {
                assert(old(self).permanent(i));
                assert(old(self).own_root(i));
            }
        }
        self.sweep();
        proof {
            let n = objs.len();
            assert forall|v: i64| #[trigger] self.cached_int(v) == old(self).cached_int(v) by {
                assert(traced.cached_int(v) == old(self).cached_int(v));
                if let Some(c) = old(self).cached_int(v) {
                    assert(opt_slot_is(old(self).int_cache@[v - SMALL_INT_MIN], c.0 as int));
                    assert(old(self).cache_roots().contains(c.0 as int));
                    assert(old(self).own_root(c.0 as int));
                }
            }
            assert forall|t: Seq<char>| #[trigger] self.cached_str(t) == old(self).cached_str(t) by {
                assert(traced.cached_str(t) == old(self).cached_str(t));
                if let Some(c) = old(self).cached_str(t) {
                    assert(old(self).interned_strings@.contains(c));
                    let m = choose|m: int| 0 <= m < old(self).interned_strings@.len() && old(self).interned_strings@[m] == c;
                    assert((old(self).interned_strings@[m]).0 == c.0);
                    assert(old(self).cache_roots().contains(c.0 as int));
                    assert(old(self).own_root(c.0 as int));
                }
            }
            assert forall|i: int| 0 <= i < n && old(self).own_root(i) implies #[trigger] self.objs()[i] == old(self).objs()[i] by {
                assert(traced.marks()[i]);
            }
            if old(self).tricolor() && old(self).gray_marked() {
                lemma_closed_when_traced(objs, traced.marks(), traced.gray());
                let roots_set = old(self).gc_roots();
                let x_final = marked_set(traced.marks());
                assert forall|i: int| #[trigger] roots_set.contains(i) implies x_final.contains(i) by {
                    if marked_set(old(self).marked@).contains(i) {
                        assert(traced.marks()[i]);
                    } else if old(self).cache_roots().contains(i) {
                        assert(old(self).own_root(i));
                        let j = choose|j: int| 0 <= j < roots@.len() && roots@[j].0 == i;
                        assert(0 <= i < n);
                    } else {
                        assert(old(self).permanent(i));
                        assert(old(self).own_root(i));
                        let j = choose|j: int| 0 <= j < roots@.len() && roots@[j].0 == i;
                        assert(0 <= i < n);
                    }
                }
                assert(roots_set.subset_of(x_final));
                assert forall|i: int| 0 <= i < n implies
                    ((#[trigger] self.objs()[i]) is Some <==> objs[i] is Some && reachable_from(objs, roots_set, i)) by {
                    if self.objs()[i] is Some {
                        assert forall|x: Set<int>| #[trigger] closed_under_refs(objs, x) && roots_set.subset_of(x) implies x.contains(i) by {
                            if old(self).permanent(i) {
                                assert(roots_set.contains(i));
                            } else {
                                assert(traced.marks()[i]);
                                assert forall|k: int| 0 <= k < old(self).gray().len() implies x.contains(#[trigger] old(self).gray()[k].0 as int) by {
                                    let g = old(self).gray()[k];
                                    assert(old(self).marks()[g.0 as int]);
                                    assert(roots_set.contains(g.0 as int));
                                }
                                assert(within(old(self).marks(), old(self).gray(), x));
                                assert forall|j: int| 0 <= j < roots@.len() implies x.contains(#[trigger] roots@[j].0 as int) by {
                                    assert(old(self).own_root(roots@[j].0 as int));
                                    assert(roots_set.contains(roots@[j].0 as int));
                                }
                                assert(within(marked1.marks(), marked1.gray(), x));
                                assert(within(traced.marks(), traced.gray(), x));
                            }
                        }
                    } else if objs[i] is Some {
                        assert(traced.sweepable(i));
                        if reachable_from(objs, roots_set, i) {
                            assert(closed_under_refs(objs, x_final));
                            assert(x_final.contains(i));
                        }
                    }
                }
                assert forall|i: int, h: ObjectHandle|
                    0 <= i < n && (#[trigger] self.objs()[i]) is Some && #[trigger] stores_handle(self.objs()[i]->0, h)
                    && 2 <= h.0 < n && objs[h.0 as int] is Some implies self.objs()[h.0 as int] is Some by {
                    assert(objs[i] is Some && reachable_from(objs, roots_set, i));
                    assert(self.objs()[i] == objs[i]);
                    lemma_reachable_through_stored(objs, roots_set, i, h);
                    assert(0 <= h.0 < n);
                }
            }
        }
    }
}

/// An object that a reachable object stores a handle to is reachable.
pub proof fn lemma_reachable_through_stored(objs: Seq<Option<Object>>, roots: Set<int>, i: int, h: ObjectHandle)
    requires
        0 <= i < objs.len(),
        objs[i] is Some,
        reachable_from(objs, roots, i),
        stores_handle(objs[i]->0, h),
        2 <= h.0 < objs.len(),
        objs[h.0 as int] is Some,
    ensures
        reachable_from(objs, roots, h.0 as int),
{
    let refs = object_refs(objs[i]->0);
    lemma_refs_are_stored_handles(objs[i]->0, h);
    let j = choose|j: int| 0 <= j < refs.len() && refs[j] == h;
    assert forall|x: Set<int>| #[trigger] closed_under_refs(objs, x) && roots.subset_of(x) implies x.contains(h.0 as int) by {
        assert(x.contains(i));
        assert(object_refs(objs[i]->0)[j] == h);
    }
}

/// Nothing changed is only additions.
pub proof fn lemma_only_adds_refl(h: &ObjectHeap)
    ensures
        ObjectHeap::only_adds(h, h),
{
}

} // verus!
