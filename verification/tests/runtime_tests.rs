use taro_lang::builtin::isinstance;
use taro_lang::heap::ObjectHeap;
use taro_lang::numbers::{id, int_to_text, is_iter_end, typeof_val};
use taro_lang::object::{Method, StringMethod};
use taro_lang::object::{InstanceData, Object, ObjectBool, ObjectClass, ObjectFields, ObjectHandle, ObjectInt, ObjectList};
use taro_lang::runtime::RuntimeErrorKind;

fn ints(heap: &mut ObjectHeap, values: &[i64]) -> Vec<ObjectHandle> {
    values.iter().map(|&v| heap.alloc_integer_instance(v)).collect()
}

fn values(heap: &ObjectHeap, list: ObjectHandle) -> Vec<i64> {
    heap.get_list_instance(list).unwrap().iter().map(|&h| heap.get_integer_instance(h).unwrap()).collect()
}

// ---------------------------------------------------------------------------
//  Lists
// ---------------------------------------------------------------------------

#[test]
fn list_index_reads_and_writes_with_negative_indices() {
    let mut heap = ObjectHeap::new();
    let items = ints(&mut heap, &[10, 20, 30]);
    let list = heap.alloc_list_instance(items.clone());
    let last = heap.alloc_integer_instance(-1);
    assert_eq!(ObjectList::__getitem__(&mut heap, list, last), Ok(items[2]));
    let v = heap.alloc_integer_instance(99);
    assert_eq!(ObjectList::__setitem__(&mut heap, list, last, v), Ok(v));
    assert_eq!(values(&heap, list), vec![10, 20, 99]);
    let far = heap.alloc_integer_instance(3);
    assert_eq!(ObjectList::__getitem__(&mut heap, list, far), Err(RuntimeErrorKind::IndexOutOfRange(3, 3)));
    let before = heap.alloc_integer_instance(-4);
    assert_eq!(ObjectList::__setitem__(&mut heap, list, before, v), Err(RuntimeErrorKind::IndexOutOfRange(-1, 3)));
}

#[test]
fn list_append_pop_extend() {
    let mut heap = ObjectHeap::new();
    let list = heap.alloc_list_instance(vec![]);
    assert_eq!(ObjectList::pop(&mut heap, list), Err(RuntimeErrorKind::EmptyPop));
    let a = heap.alloc_integer_instance(1);
    let b = heap.alloc_integer_instance(2);
    assert_eq!(ObjectList::append(&mut heap, list, a), Ok(a));
    assert_eq!(ObjectList::append(&mut heap, list, b), Ok(b));
    assert_eq!(ObjectList::extend(&mut heap, list, list), Ok(ObjectHandle::nil()));
    assert_eq!(values(&heap, list), vec![1, 2, 1, 2]);
    assert_eq!(ObjectList::pop(&mut heap, list), Ok(b));
    assert_eq!(values(&heap, list), vec![1, 2, 1]);
    let n = ObjectList::len(&mut heap, list).unwrap();
    assert_eq!(heap.get_integer_instance(n), Some(3));
    let t = ObjectList::__bool__(&mut heap, list).unwrap();
    assert_eq!(heap.get_bool_instance(t), Some(true));
    let text = heap.alloc_string_instance("x".to_string());
    assert_eq!(
        ObjectList::extend(&mut heap, list, text),
        Err(RuntimeErrorKind::TypeMismatch { expected: "list", found: "string" })
    );
}

#[test]
fn list_add_makes_a_new_list() {
    let mut heap = ObjectHeap::new();
    let xs = ints(&mut heap, &[1, 2]);
    let ys = ints(&mut heap, &[3]);
    let a = heap.alloc_list_instance(xs);
    let b = heap.alloc_list_instance(ys);
    let c = ObjectList::__add__(&mut heap, a, b).unwrap();
    assert_eq!(values(&heap, c), vec![1, 2, 3]);
    assert_eq!(values(&heap, a), vec![1, 2]);
    let n = heap.alloc_integer_instance(1);
    assert_eq!(ObjectList::__add__(&mut heap, a, n), Err(RuntimeErrorKind::BinaryOpTypeMismatch("add", "list", "int")));
    let empty = heap.alloc_list_instance(vec![]);
    let r = ObjectList::__not__(&mut heap, empty).unwrap();
    assert_eq!(heap.get_bool_instance(r), Some(true));
}

#[test]
fn list_iteration_walks_the_items_then_ends() {
    let mut heap = ObjectHeap::new();
    let items = ints(&mut heap, &[5, 6]);
    let list = heap.alloc_list_instance(items.clone());
    let it = ObjectList::__iter__(&mut heap, list).unwrap();
    assert_eq!(ObjectList::iter_next(&mut heap, it), Ok(items[0]));
    assert_eq!(ObjectList::iter_next(&mut heap, it), Ok(items[1]));
    assert!(ObjectList::iter_next(&mut heap, it).unwrap().is_iter_end());
    assert_eq!(
        ObjectList::iter_next(&mut heap, list),
        Err(RuntimeErrorKind::TypeMismatch { expected: "list iterator", found: "list" })
    );
}

// ---------------------------------------------------------------------------
//  isinstance and type
// ---------------------------------------------------------------------------

#[test]
fn isinstance_follows_the_superclass_chain() {
    let mut heap = ObjectHeap::new();
    let base = heap.alloc_class("Base".to_string());
    let derived = heap.alloc_object(Object::Class(ObjectClass {
        name: "Derived".to_string(),
        methods: vec![],
        superclass: Some(base),
        module: None,
    }));
    let other = heap.alloc_class("Other".to_string());
    let obj = heap.alloc_fields_instance(derived, vec![]);
    let t = heap.true_instance();
    let f = heap.false_instance();
    assert_eq!(isinstance(&heap, obj, derived), Ok(t));
    assert_eq!(isinstance(&heap, obj, base), Ok(t));
    assert_eq!(isinstance(&heap, obj, other), Ok(f));
    assert_eq!(isinstance(&heap, ObjectHandle::nil(), base), Ok(f));
    assert_eq!(isinstance(&heap, base, base), Ok(f));
    let n = heap.alloc_integer_instance(7);
    assert_eq!(isinstance(&heap, n, heap.int_class()), Ok(t));
    assert_eq!(isinstance(&heap, n, heap.string_class()), Ok(f));
    assert_eq!(
        isinstance(&heap, obj, n),
        Err(RuntimeErrorKind::TypeMismatch { expected: "class", found: "int" })
    );
}

#[test]
fn type_of_values() {
    let mut heap = ObjectHeap::new();
    let n = heap.alloc_integer_instance(7);
    assert_eq!(typeof_val(&mut heap, n), Ok(heap.int_class()));
    let cls = heap.alloc_class("C".to_string());
    let name = typeof_val(&mut heap, cls).unwrap();
    assert_eq!(heap.get_string_instance(name).unwrap(), "Class");
    let nil = typeof_val(&mut heap, ObjectHandle::nil()).unwrap();
    assert_eq!(heap.get_string_instance(nil).unwrap(), "nil");
    let inst = heap.alloc_instance(cls, InstanceData::Fields(ObjectFields::new()));
    assert_eq!(heap.type_of(inst), "instance");
    let r = is_iter_end(&mut heap, ObjectHandle::iter_end()).unwrap();
    assert_eq!(heap.get_bool_instance(r), Some(true));
    let r = id(&mut heap, n).unwrap();
    assert_eq!(heap.get_integer_instance(r), Some(n.0 as i64));
}

// ---------------------------------------------------------------------------
//  Integers and booleans
// ---------------------------------------------------------------------------

#[test]
fn integer_text_and_negation() {
    assert_eq!(int_to_text(0), "0");
    assert_eq!(int_to_text(-42), "-42");
    assert_eq!(int_to_text(i64::MIN), "-9223372036854775808");
    assert_eq!(int_to_text(i64::MAX), "9223372036854775807");
    let mut heap = ObjectHeap::new();
    let m = heap.alloc_integer_instance(i64::MIN);
    let r = ObjectInt::__neg__(&mut heap, m).unwrap();
    assert_eq!(heap.get_integer_instance(r), Some(i64::MIN));
    let five = heap.alloc_integer_instance(5);
    let r = ObjectInt::__neg__(&mut heap, five).unwrap();
    assert_eq!(heap.get_integer_instance(r), Some(-5));
    let r = ObjectInt::__str__(&mut heap, five).unwrap();
    assert_eq!(heap.get_string_instance(r).unwrap(), "5");
    let zero = heap.alloc_integer_instance(0);
    let r = ObjectInt::__not__(&mut heap, zero).unwrap();
    assert_eq!(heap.get_bool_instance(r), Some(true));
    let r = ObjectInt::__bool__(&mut heap, zero).unwrap();
    assert_eq!(heap.get_bool_instance(r), Some(false));
    let r = ObjectInt::__hash__(&mut heap, five).unwrap();
    assert_eq!(heap.get_integer_instance(r), Some(5));
    assert_eq!(ObjectInt::__int__(&mut heap, five), Ok(five));
    let s = heap.alloc_string_instance("5".to_string());
    assert_eq!(
        ObjectInt::__str__(&mut heap, s),
        Err(RuntimeErrorKind::TypeMismatch { expected: "int", found: "string" })
    );
}

#[test]
fn booleans_as_numbers_and_text() {
    let mut heap = ObjectHeap::new();
    let t = heap.true_instance();
    let f = heap.false_instance();
    let r = ObjectBool::__neg__(&mut heap, t).unwrap();
    assert_eq!(heap.get_integer_instance(r), Some(-1));
    let r = ObjectBool::__not__(&mut heap, t).unwrap();
    assert_eq!(r, f);
    let r = ObjectBool::__str__(&mut heap, f).unwrap();
    assert_eq!(heap.get_string_instance(r).unwrap(), "false");
    let r = ObjectBool::__int__(&mut heap, t).unwrap();
    assert_eq!(heap.get_integer_instance(r), Some(1));
    let r = ObjectBool::__hash__(&mut heap, f).unwrap();
    assert_eq!(heap.get_integer_instance(r), Some(0));
    assert_eq!(ObjectBool::__bool__(&mut heap, t), Ok(t));
}

#[test]
fn a_new_heap_holds_the_builtin_classes_and_booleans() {
    let mut heap = ObjectHeap::new();
    assert_eq!(heap.get_bool_instance(heap.true_instance()), Some(true));
    assert_eq!(heap.get_bool_instance(heap.false_instance()), Some(false));
    let int_class = heap.int_class();
    assert_eq!(heap.get_class(int_class).unwrap().name.as_str(), "Int");
    let string_class = heap.string_class();
    let methods = &heap.get_class(string_class).unwrap().methods;
    assert!(methods.iter().any(|(n, m)| n == "split" && *m == Method::String(StringMethod::Split)));
    assert!(methods.iter().any(|(n, m)| n == "strip" && *m == Method::String(StringMethod::Trim)));
    let iter_class = heap.string_iter_class();
    let iter_methods = &heap.get_class(iter_class).unwrap().methods;
    assert!(iter_methods.iter().any(|(n, m)| n == "__next__" && *m == Method::String(StringMethod::IterNext)));
    assert!(heap.get_class(int_class).unwrap().methods.is_empty());
    let a = heap.alloc_integer_instance(7);
    assert!(a.0 >= 2);
}
