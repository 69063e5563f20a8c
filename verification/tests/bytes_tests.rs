use taro_lang::heap::ObjectHeap;
use taro_lang::object::{ObjectBytes, ObjectHandle};
use taro_lang::runtime::RuntimeErrorKind;

fn get_str(heap: &ObjectHeap, handle: ObjectHandle) -> String {
    heap.get_string_instance(handle).unwrap().as_str().to_string()
}

fn get_int(heap: &ObjectHeap, handle: ObjectHandle) -> i64 {
    heap.get_integer_instance(handle).unwrap()
}

fn get_bool(heap: &ObjectHeap, handle: ObjectHandle) -> bool {
    heap.get_bool_instance(handle).unwrap()
}

fn get_bytes_data(heap: &ObjectHeap, handle: ObjectHandle) -> Vec<u8> {
    heap.get_bytes_instance(handle).unwrap().clone()
}

// ---------------------------------------------------------------------------
//  Construction
// ---------------------------------------------------------------------------

#[test]
fn test_bytes_from_string() {
    let mut heap = ObjectHeap::new();
    let handle = ObjectBytes::from_string(&mut heap, "hello").unwrap();
    assert_eq!(get_bytes_data(&heap, handle), b"hello".to_vec());
}

#[test]
fn test_bytes_from_list_of_ints() {
    let mut heap = ObjectHeap::new();
    let h104 = heap.alloc_integer_instance(104);
    let h101 = heap.alloc_integer_instance(101);
    let h108 = heap.alloc_integer_instance(108);
    let h111 = heap.alloc_integer_instance(111);
    let list_handle = heap.alloc_list_instance(vec![h104, h101, h108, h108, h111]);
    let handle = ObjectBytes::from_list(&mut heap, list_handle).unwrap();
    assert_eq!(get_bytes_data(&heap, handle), b"hello".to_vec());
}

#[test]
fn test_bytes_from_list_out_of_range() {
    let mut heap = ObjectHeap::new();
    let h256 = heap.alloc_integer_instance(256);
    let list_handle = heap.alloc_list_instance(vec![h256]);
    let result = ObjectBytes::from_list(&mut heap, list_handle);
    assert!(result.is_err());
}

// ---------------------------------------------------------------------------
//  __str__
// ---------------------------------------------------------------------------

#[test]
fn test_str_printable() {
    let mut heap = ObjectHeap::new();
    let handle = ObjectBytes::from_string(&mut heap, "hello").unwrap();
    let str_handle = ObjectBytes::__str__(&mut heap, handle).unwrap();
    assert_eq!(get_str(&heap, str_handle), "b\"hello\"");
}

#[test]
fn test_str_empty() {
    let mut heap = ObjectHeap::new();
    let handle = heap.alloc_bytes_instance(vec![]);
    let str_handle = ObjectBytes::__str__(&mut heap, handle).unwrap();
    assert_eq!(get_str(&heap, str_handle), "b\"\"");
}

#[test]
fn test_str_with_special_chars() {
    let mut heap = ObjectHeap::new();
    let data = vec![0, 10, 13, 9, 92, 34, 255];
    let handle = heap.alloc_bytes_instance(data);
    let str_handle = ObjectBytes::__str__(&mut heap, handle).unwrap();
    let s = get_str(&heap, str_handle);
    assert!(s.contains("\\0"), "expected \\0 in: {s}");
    assert!(s.contains("\\n"), "expected \\n in: {s}");
    assert!(s.contains("\\r"), "expected \\r in: {s}");
    assert!(s.contains("\\t"), "expected \\t in: {s}");
    assert!(s.contains("\\\\"), "expected \\\\ in: {s}");
    assert!(s.contains("\\\""), "expected \\\" in: {s}");
    assert!(s.contains("\\xff"), "expected \\xff in: {s}");
}

// ---------------------------------------------------------------------------
//  __bool__ / __not__
// ---------------------------------------------------------------------------

#[test]
fn test_bool_nonempty() {
    let mut heap = ObjectHeap::new();
    let handle = ObjectBytes::from_string(&mut heap, "x").unwrap();
    let result = ObjectBytes::__bool__(&mut heap, handle).unwrap();
    assert!(get_bool(&heap, result));
}

#[test]
fn test_bool_empty() {
    let mut heap = ObjectHeap::new();
    let handle = heap.alloc_bytes_instance(vec![]);
    let result = ObjectBytes::__bool__(&mut heap, handle).unwrap();
    assert!(!get_bool(&heap, result));
}

// ---------------------------------------------------------------------------
//  __len__
// ---------------------------------------------------------------------------

#[test]
fn test_len() {
    let mut heap = ObjectHeap::new();
    let handle = ObjectBytes::from_string(&mut heap, "abc").unwrap();
    let result = ObjectBytes::__len__(&mut heap, handle).unwrap();
    assert_eq!(get_int(&heap, result), 3);
}

// ---------------------------------------------------------------------------
//  __getitem__
// ---------------------------------------------------------------------------

#[test]
fn test_index_positive() {
    let mut heap = ObjectHeap::new();
    let handle = ObjectBytes::from_string(&mut heap, "abc").unwrap();
    let idx = heap.alloc_integer_instance(1);
    let result = ObjectBytes::__getitem__(&mut heap, handle, idx).unwrap();
    assert_eq!(get_int(&heap, result), b'b' as i64);
}

#[test]
fn test_index_negative() {
    let mut heap = ObjectHeap::new();
    let handle = ObjectBytes::from_string(&mut heap, "abc").unwrap();
    let idx = heap.alloc_integer_instance(-1);
    let result = ObjectBytes::__getitem__(&mut heap, handle, idx).unwrap();
    assert_eq!(get_int(&heap, result), b'c' as i64);
}

#[test]
fn test_index_out_of_bounds() {
    let mut heap = ObjectHeap::new();
    let handle = ObjectBytes::from_string(&mut heap, "abc").unwrap();
    let idx = heap.alloc_integer_instance(10);
    let result = ObjectBytes::__getitem__(&mut heap, handle, idx);
    assert!(result.is_err());
}

// ---------------------------------------------------------------------------
//  __eq__ / __ne__
// ---------------------------------------------------------------------------

#[test]
fn test_eq() {
    let mut heap = ObjectHeap::new();
    let a = ObjectBytes::from_string(&mut heap, "hello").unwrap();
    let b = ObjectBytes::from_string(&mut heap, "hello").unwrap();
    let c = ObjectBytes::from_string(&mut heap, "world").unwrap();
    let r1 = ObjectBytes::__eq__(&mut heap, a, b).unwrap();
    assert!(get_bool(&heap, r1));
    let r2 = ObjectBytes::__eq__(&mut heap, a, c).unwrap();
    assert!(!get_bool(&heap, r2));
}

#[test]
fn test_eq_different_type() {
    let mut heap = ObjectHeap::new();
    let a = ObjectBytes::from_string(&mut heap, "x").unwrap();
    let s = heap.alloc_string_instance("x".into());
    let r = ObjectBytes::__eq__(&mut heap, a, s).unwrap();
    assert!(!get_bool(&heap, r));
}

// ---------------------------------------------------------------------------
//  __add__
// ---------------------------------------------------------------------------

#[test]
fn test_add() {
    let mut heap = ObjectHeap::new();
    let a = ObjectBytes::from_string(&mut heap, "ab").unwrap();
    let b = ObjectBytes::from_string(&mut heap, "cd").unwrap();
    let result = ObjectBytes::__add__(&mut heap, a, b).unwrap();
    assert_eq!(get_bytes_data(&heap, result), b"abcd".to_vec());
}

#[test]
fn test_add_wrong_type() {
    let mut heap = ObjectHeap::new();
    let a = ObjectBytes::from_string(&mut heap, "ab").unwrap();
    let s = heap.alloc_string_instance("cd".into());
    let result = ObjectBytes::__add__(&mut heap, a, s);
    assert!(result.is_err());
}

// ---------------------------------------------------------------------------
//  __contains__
// ---------------------------------------------------------------------------

#[test]
fn test_contains_true() {
    let mut heap = ObjectHeap::new();
    let handle = ObjectBytes::from_string(&mut heap, "hello").unwrap();
    let item = heap.alloc_integer_instance(b'e' as i64);
    let r = ObjectBytes::__contains__(&mut heap, handle, item).unwrap();
    assert!(get_bool(&heap, r));
}

#[test]
fn test_contains_false() {
    let mut heap = ObjectHeap::new();
    let handle = ObjectBytes::from_string(&mut heap, "hello").unwrap();
    let item = heap.alloc_integer_instance(b'z' as i64);
    let r = ObjectBytes::__contains__(&mut heap, handle, item).unwrap();
    assert!(!get_bool(&heap, r));
}

// ---------------------------------------------------------------------------
//  __hash__
// ---------------------------------------------------------------------------

#[test]
fn test_hash_same_data_same_hash() {
    let mut heap = ObjectHeap::new();
    let a = ObjectBytes::from_string(&mut heap, "hello").unwrap();
    let b = ObjectBytes::from_string(&mut heap, "hello").unwrap();
    let ra = ObjectBytes::__hash__(&mut heap, a).unwrap();
    let rb = ObjectBytes::__hash__(&mut heap, b).unwrap();
    assert_eq!(get_int(&heap, ra), get_int(&heap, rb));
}

// ---------------------------------------------------------------------------
//  decode
// ---------------------------------------------------------------------------

#[test]
fn test_decode_utf8() {
    let mut heap = ObjectHeap::new();
    let handle = ObjectBytes::from_string(&mut heap, "café").unwrap();
    let enc = heap.alloc_string_instance("utf-8".into());
    let result = ObjectBytes::decode(&mut heap, handle, enc).unwrap();
    assert_eq!(get_str(&heap, result), "café");
}

#[test]
fn test_decode_invalid_utf8() {
    let mut heap = ObjectHeap::new();
    let handle = heap.alloc_bytes_instance(vec![0xff, 0xfe, 0xfd]);
    let enc = heap.alloc_string_instance("utf-8".into());
    let result = ObjectBytes::decode(&mut heap, handle, enc);
    assert!(result.is_err());
}

// ---------------------------------------------------------------------------
//  hex
// ---------------------------------------------------------------------------

#[test]
fn test_hex() {
    let mut heap = ObjectHeap::new();
    let handle = heap.alloc_bytes_instance(vec![0xde, 0xad, 0xbe, 0xef]);
    let result = ObjectBytes::hex(&mut heap, handle).unwrap();
    assert_eq!(get_str(&heap, result), "deadbeef");
}

// ---------------------------------------------------------------------------
//  Further cases
// ---------------------------------------------------------------------------

#[test]
fn bytes_from_list_reports_the_first_bad_item() {
    let mut heap = ObjectHeap::new();
    let ok = heap.alloc_integer_instance(7);
    let text = heap.alloc_string_instance("x".into());
    let big = heap.alloc_integer_instance(300);
    let list_handle = heap.alloc_list_instance(vec![ok, text, big]);
    match ObjectBytes::from_list(&mut heap, list_handle) {
        Err(RuntimeErrorKind::TypeMismatch { expected, found }) => {
            assert_eq!(expected, "int");
            assert_eq!(found, "string");
        }
        other => panic!("unexpected result: {:?}", other),
    }
    let list_handle = heap.alloc_list_instance(vec![ok, big, text]);
    match ObjectBytes::from_list(&mut heap, list_handle) {
        Err(RuntimeErrorKind::UnexpectedType(expected, found)) => {
            assert_eq!(expected, "byte value in range 0-255");
            assert_eq!(found, "int");
        }
        other => panic!("unexpected result: {:?}", other),
    }
}

#[test]
fn bytes_from_list_of_non_list_is_a_type_mismatch() {
    let mut heap = ObjectHeap::new();
    let n = heap.alloc_integer_instance(3);
    match ObjectBytes::from_list(&mut heap, n) {
        Err(RuntimeErrorKind::TypeMismatch { expected, found }) => {
            assert_eq!(expected, "list");
            assert_eq!(found, "int");
        }
        other => panic!("unexpected result: {:?}", other),
    }
}

#[test]
fn bytes_str_escapes_exactly() {
    let mut heap = ObjectHeap::new();
    let handle = heap.alloc_bytes_instance(vec![b'a', 0, 10, 13, 9, 92, 34, 0x7f, 0x01, b'~', b' ']);
    let s = ObjectBytes::__str__(&mut heap, handle).unwrap();
    assert_eq!(get_str(&heap, s), "b\"a\\0\\n\\r\\t\\\\\\\"\\x7f\\x01~ \"");
}

#[test]
fn bytes_index_error_carries_index_and_length() {
    let mut heap = ObjectHeap::new();
    let handle = ObjectBytes::from_string(&mut heap, "abc").unwrap();
    let idx = heap.alloc_integer_instance(-4);
    assert_eq!(ObjectBytes::__getitem__(&mut heap, handle, idx), Err(RuntimeErrorKind::IndexOutOfRange(-1, 3)));
    let idx = heap.alloc_integer_instance(3);
    assert_eq!(ObjectBytes::__getitem__(&mut heap, handle, idx), Err(RuntimeErrorKind::IndexOutOfRange(3, 3)));
    let idx = heap.alloc_integer_instance(-3);
    let r = ObjectBytes::__getitem__(&mut heap, handle, idx).unwrap();
    assert_eq!(get_int(&heap, r), b'a' as i64);
}

#[test]
fn bytes_not_and_ne() {
    let mut heap = ObjectHeap::new();
    let empty = heap.alloc_bytes_instance(vec![]);
    let full = heap.alloc_bytes_instance(vec![1]);
    let r = ObjectBytes::__not__(&mut heap, empty).unwrap();
    assert!(get_bool(&heap, r));
    let r = ObjectBytes::__not__(&mut heap, full).unwrap();
    assert!(!get_bool(&heap, r));
    let r = ObjectBytes::__ne__(&mut heap, empty, full).unwrap();
    assert!(get_bool(&heap, r));
    let n = heap.alloc_integer_instance(1);
    let r = ObjectBytes::__ne__(&mut heap, full, n).unwrap();
    assert!(get_bool(&heap, r));
}

#[test]
fn bytes_add_wrong_type_names_the_operands() {
    let mut heap = ObjectHeap::new();
    let a = heap.alloc_bytes_instance(vec![1]);
    let n = heap.alloc_integer_instance(1);
    assert_eq!(
        ObjectBytes::__add__(&mut heap, a, n),
        Err(RuntimeErrorKind::BinaryOpTypeMismatch("add", "bytes", "int"))
    );
}

#[test]
fn bytes_contains_out_of_range_is_false() {
    let mut heap = ObjectHeap::new();
    let handle = heap.alloc_bytes_instance(vec![0, 255]);
    let item = heap.alloc_integer_instance(256);
    let r = ObjectBytes::__contains__(&mut heap, handle, item).unwrap();
    assert!(!get_bool(&heap, r));
    let item = heap.alloc_integer_instance(255);
    let r = ObjectBytes::__contains__(&mut heap, handle, item).unwrap();
    assert!(get_bool(&heap, r));
}

#[test]
fn bytes_decode_accepts_encoding_names_in_any_case() {
    let mut heap = ObjectHeap::new();
    let handle = ObjectBytes::from_string(&mut heap, "héllo").unwrap();
    let enc = heap.alloc_string_instance("UTF8".into());
    let result = ObjectBytes::decode(&mut heap, handle, enc).unwrap();
    assert_eq!(get_str(&heap, result), "héllo");
    let enc = heap.alloc_string_instance("latin-1".into());
    assert_eq!(
        ObjectBytes::decode(&mut heap, handle, enc),
        Err(RuntimeErrorKind::TypeMismatch { expected: "encoding 'utf-8'", found: "other encoding" })
    );
}

#[test]
fn bytes_to_list_and_iteration() {
    let mut heap = ObjectHeap::new();
    let handle = heap.alloc_bytes_instance(vec![3, 200]);
    let list = ObjectBytes::to_list(&mut heap, handle).unwrap();
    let items = heap.get_list_instance(list).unwrap().clone();
    assert_eq!(items.len(), 2);
    assert_eq!(get_int(&heap, items[0]), 3);
    assert_eq!(get_int(&heap, items[1]), 200);
    let it = ObjectBytes::__iter__(&mut heap, handle).unwrap();
    let a = ObjectBytes::iter_next(&mut heap, it).unwrap();
    assert_eq!(get_int(&heap, a), 3);
    let b = ObjectBytes::iter_next(&mut heap, it).unwrap();
    assert_eq!(get_int(&heap, b), 200);
    let end = ObjectBytes::iter_next(&mut heap, it).unwrap();
    assert!(end.is_iter_end());
    let end = ObjectBytes::iter_next(&mut heap, it).unwrap();
    assert!(end.is_iter_end());
}

#[test]
fn bytes_hex_of_small_values_keeps_leading_zeros() {
    let mut heap = ObjectHeap::new();
    let handle = heap.alloc_bytes_instance(vec![0, 1, 0x0a, 0xf0]);
    let result = ObjectBytes::hex(&mut heap, handle).unwrap();
    assert_eq!(get_str(&heap, result), "00010af0");
}

#[test]
fn bytes_methods_on_a_non_bytes_value_report_its_type() {
    let mut heap = ObjectHeap::new();
    let s = heap.alloc_string_instance("abc".into());
    assert_eq!(
        ObjectBytes::__len__(&mut heap, s),
        Err(RuntimeErrorKind::TypeMismatch { expected: "bytes", found: "string" })
    );
    assert_eq!(heap.type_of(ObjectHandle::nil()), "nil");
}
