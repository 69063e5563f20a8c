use taro_lang::heap::ObjectHeap;
use taro_lang::object::{ObjectHandle, ObjectString};
use taro_lang::runtime::RuntimeErrorKind;

// Helper: allocate a string and return its handle.
fn str_handle(heap: &mut ObjectHeap, s: &str) -> ObjectHandle {
    heap.alloc_string_instance(s.to_string().into())
}

// Helper: call a native a1 method and extract the returned string.
fn call_a1_str(
    heap: &mut ObjectHeap,
    f: fn(&mut ObjectHeap, ObjectHandle) -> Result<ObjectHandle, RuntimeErrorKind>,
    input: &str,
) -> String {
    let h = str_handle(heap, input);
    let r = f(heap, h).unwrap();
    heap.get_string_instance(r).unwrap().as_str().to_string()
}

// Helper: call a native a1 method and extract the returned bool.
fn call_a1_bool(heap: &mut ObjectHeap, f: fn(&mut ObjectHeap, ObjectHandle) -> Result<ObjectHandle, RuntimeErrorKind>, input: &str) -> bool {
    let h = str_handle(heap, input);
    let r = f(heap, h).unwrap();
    heap.get_bool_instance(r).unwrap()
}

// Helper: call a native a1 method and extract the returned int.
fn call_a1_int(heap: &mut ObjectHeap, f: fn(&mut ObjectHeap, ObjectHandle) -> Result<ObjectHandle, RuntimeErrorKind>, input: &str) -> i64 {
    let h = str_handle(heap, input);
    let r = f(heap, h).unwrap();
    heap.get_integer_instance(r).unwrap()
}

// Helper: call a2 method with string+string args and extract the returned string.
fn call_a2_str(
    heap: &mut ObjectHeap,
    f: fn(&mut ObjectHeap, ObjectHandle, ObjectHandle) -> Result<ObjectHandle, RuntimeErrorKind>,
    input: &str,
    arg: &str,
) -> String {
    let h = str_handle(heap, input);
    let a = str_handle(heap, arg);
    let r = f(heap, h, a).unwrap();
    heap.get_string_instance(r).unwrap().as_str().to_string()
}

// Helper: call a2 method with string+string args and extract the returned bool.
fn call_a2_bool(
    heap: &mut ObjectHeap,
    f: fn(&mut ObjectHeap, ObjectHandle, ObjectHandle) -> Result<ObjectHandle, RuntimeErrorKind>,
    input: &str,
    arg: &str,
) -> bool {
    let h = str_handle(heap, input);
    let a = str_handle(heap, arg);
    let r = f(heap, h, a).unwrap();
    heap.get_bool_instance(r).unwrap()
}

// Helper: call a2 method with string+string args and extract the returned int.
fn call_a2_int(
    heap: &mut ObjectHeap,
    f: fn(&mut ObjectHeap, ObjectHandle, ObjectHandle) -> Result<ObjectHandle, RuntimeErrorKind>,
    input: &str,
    arg: &str,
) -> i64 {
    let h = str_handle(heap, input);
    let a = str_handle(heap, arg);
    let r = f(heap, h, a).unwrap();
    heap.get_integer_instance(r).unwrap()
}

// Helper: call a2 method and get the returned list as Vec<String>.
fn call_a2_list(
    heap: &mut ObjectHeap,
    f: fn(&mut ObjectHeap, ObjectHandle, ObjectHandle) -> Result<ObjectHandle, RuntimeErrorKind>,
    input: &str,
    arg: &str,
) -> Vec<String> {
    let h = str_handle(heap, input);
    let a = str_handle(heap, arg);
    let r = f(heap, h, a).unwrap();
    heap
        .get_list_instance(r)
        .unwrap()
        .iter()
        .map(|&item| heap.get_string_instance(item).unwrap().as_str().to_string())
        .collect()
}

// Helper: call a1 method and get the returned list as Vec<String>.
fn call_a1_list(
    heap: &mut ObjectHeap,
    f: fn(&mut ObjectHeap, ObjectHandle) -> Result<ObjectHandle, RuntimeErrorKind>,
    input: &str,
) -> Vec<String> {
    let h = str_handle(heap, input);
    let r = f(heap, h).unwrap();
    heap
        .get_list_instance(r)
        .unwrap()
        .iter()
        .map(|&item| heap.get_string_instance(item).unwrap().as_str().to_string())
        .collect()
}

// ======================================================================
//  len / byte_len
// ======================================================================

#[test]
fn test_len_ascii() {
    let mut heap = ObjectHeap::new();
    assert_eq!(call_a1_int(&mut heap, ObjectString::len, "hello"), 5);
    assert_eq!(call_a1_int(&mut heap, ObjectString::len, ""), 0);
}

#[test]
fn test_len_unicode() {
    let mut heap = ObjectHeap::new();
    // "你好" = 2 chars, 6 bytes
    assert_eq!(call_a1_int(&mut heap, ObjectString::len, "你好"), 2);
    // "café" = 4 chars, 5 bytes
    assert_eq!(call_a1_int(&mut heap, ObjectString::len, "café"), 4);
    // emoji: "🙂" = 1 char, 4 bytes
    assert_eq!(call_a1_int(&mut heap, ObjectString::len, "🙂"), 1);
    // mixed: "a你好b" = 4 chars
    assert_eq!(call_a1_int(&mut heap, ObjectString::len, "a你好b"), 4);
}

#[test]
fn test_byte_len() {
    let mut heap = ObjectHeap::new();
    assert_eq!(call_a1_int(&mut heap, ObjectString::byte_len, "hello"), 5);
    assert_eq!(call_a1_int(&mut heap, ObjectString::byte_len, ""), 0);
    assert_eq!(call_a1_int(&mut heap, ObjectString::byte_len, "你好"), 6);
    assert_eq!(call_a1_int(&mut heap, ObjectString::byte_len, "café"), 5);
    assert_eq!(call_a1_int(&mut heap, ObjectString::byte_len, "🙂"), 4);
}

// ======================================================================
//  upper / lower / capitalize / casefold / swapcase / title
// ======================================================================

#[test]
fn test_upper() {
    let mut heap = ObjectHeap::new();
    assert_eq!(call_a1_str(&mut heap, ObjectString::upper, "hello"), "HELLO");
    assert_eq!(call_a1_str(&mut heap, ObjectString::upper, "Hello"), "HELLO");
    assert_eq!(call_a1_str(&mut heap, ObjectString::upper, "HELLO"), "HELLO");
    assert_eq!(call_a1_str(&mut heap, ObjectString::upper, "hello world"), "HELLO WORLD");
}

#[test]
fn test_lower() {
    let mut heap = ObjectHeap::new();
    assert_eq!(call_a1_str(&mut heap, ObjectString::lower, "HELLO"), "hello");
    assert_eq!(call_a1_str(&mut heap, ObjectString::lower, "Hello"), "hello");
    assert_eq!(call_a1_str(&mut heap, ObjectString::lower, "hello"), "hello");
}

#[test]
fn test_capitalize() {
    let mut heap = ObjectHeap::new();
    assert_eq!(call_a1_str(&mut heap, ObjectString::capitalize, "hello"), "Hello");
    assert_eq!(call_a1_str(&mut heap, ObjectString::capitalize, "HELLO"), "Hello");
    assert_eq!(call_a1_str(&mut heap, ObjectString::capitalize, "hELLO"), "Hello");
    assert_eq!(call_a1_str(&mut heap, ObjectString::capitalize, ""), "");
    assert_eq!(call_a1_str(&mut heap, ObjectString::capitalize, "a"), "A");
    assert_eq!(call_a1_str(&mut heap, ObjectString::capitalize, "123"), "123");
}

#[test]
fn test_casefold() {
    let mut heap = ObjectHeap::new();
    assert_eq!(call_a1_str(&mut heap, ObjectString::casefold, "HELLO"), "hello");
    assert_eq!(call_a1_str(&mut heap, ObjectString::casefold, "Straße"), "straße");
}

#[test]
fn test_swapcase() {
    let mut heap = ObjectHeap::new();
    assert_eq!(call_a1_str(&mut heap, ObjectString::swapcase, "Hello"), "hELLO");
    assert_eq!(call_a1_str(&mut heap, ObjectString::swapcase, "HELLO"), "hello");
    assert_eq!(call_a1_str(&mut heap, ObjectString::swapcase, "hello"), "HELLO");
    assert_eq!(call_a1_str(&mut heap, ObjectString::swapcase, "hELLo"), "HellO");
    assert_eq!(call_a1_str(&mut heap, ObjectString::swapcase, "123"), "123");
}

#[test]
fn test_title() {
    let mut heap = ObjectHeap::new();
    assert_eq!(call_a1_str(&mut heap, ObjectString::title, "hello world"), "Hello World");
    assert_eq!(call_a1_str(&mut heap, ObjectString::title, "HELLO WORLD"), "Hello World");
    assert_eq!(call_a1_str(&mut heap, ObjectString::title, "hELLo wORLD"), "Hello World");
    assert_eq!(call_a1_str(&mut heap, ObjectString::title, "hello-world"), "Hello-World");
    assert_eq!(call_a1_str(&mut heap, ObjectString::title, ""), "");
}

// ======================================================================
//  trim / trim_start / trim_end (and aliases)
// ======================================================================

#[test]
fn test_trim() {
    let mut heap = ObjectHeap::new();
    assert_eq!(call_a1_str(&mut heap, ObjectString::trim, "  hello  "), "hello");
    assert_eq!(call_a1_str(&mut heap, ObjectString::trim, "hello"), "hello");
    assert_eq!(call_a1_str(&mut heap, ObjectString::trim, "   "), "");
    assert_eq!(call_a1_str(&mut heap, ObjectString::trim, "\t\nhello\r\n"), "hello");
}

#[test]
fn test_trim_start() {
    let mut heap = ObjectHeap::new();
    assert_eq!(call_a1_str(&mut heap, ObjectString::trim_start, "  hello  "), "hello  ");
    assert_eq!(call_a1_str(&mut heap, ObjectString::trim_start, "hello"), "hello");
}

#[test]
fn test_trim_end() {
    let mut heap = ObjectHeap::new();
    assert_eq!(call_a1_str(&mut heap, ObjectString::trim_end, "  hello  "), "  hello");
    assert_eq!(call_a1_str(&mut heap, ObjectString::trim_end, "hello"), "hello");
}

// ======================================================================
//  starts_with / ends_with / contains
// ======================================================================

#[test]
fn test_starts_with() {
    let mut heap = ObjectHeap::new();
    assert!(call_a2_bool(&mut heap, ObjectString::starts_with, "hello", "hel"));
    assert!(call_a2_bool(&mut heap, ObjectString::starts_with, "hello", ""));
    assert!(!call_a2_bool(&mut heap, ObjectString::starts_with, "hello", "lo"));
    assert!(call_a2_bool(&mut heap, ObjectString::starts_with, "你好世界", "你好"));
    assert!(!call_a2_bool(&mut heap, ObjectString::starts_with, "你好世界", "世界"));
}

#[test]
fn test_ends_with() {
    let mut heap = ObjectHeap::new();
    assert!(call_a2_bool(&mut heap, ObjectString::ends_with, "hello", "lo"));
    assert!(call_a2_bool(&mut heap, ObjectString::ends_with, "hello", ""));
    assert!(!call_a2_bool(&mut heap, ObjectString::ends_with, "hello", "hel"));
}

#[test]
fn test_contains() {
    let mut heap = ObjectHeap::new();
    assert!(call_a2_bool(&mut heap, ObjectString::contains, "hello", "ell"));
    assert!(call_a2_bool(&mut heap, ObjectString::contains, "hello", ""));
    assert!(!call_a2_bool(&mut heap, ObjectString::contains, "hello", "xyz"));
    assert!(call_a2_bool(&mut heap, ObjectString::contains, "你好世界", "世界"));
}

// ======================================================================
//  replace
// ======================================================================

#[test]
fn test_replace() {
    let mut heap = ObjectHeap::new();
    let h = str_handle(&mut heap, "hello world");
    let old = str_handle(&mut heap, "world");
    let new = str_handle(&mut heap, "taro");
    let r = ObjectString::replace(&mut heap, h, old, new).unwrap();
    assert_eq!(heap.get_string_instance(r).unwrap().as_str(), "hello taro");

    // replace all occurrences
    let h = str_handle(&mut heap, "aaa");
    let old = str_handle(&mut heap, "a");
    let new = str_handle(&mut heap, "b");
    let r = ObjectString::replace(&mut heap, h, old, new).unwrap();
    assert_eq!(heap.get_string_instance(r).unwrap().as_str(), "bbb");

    // no match
    let h = str_handle(&mut heap, "hello");
    let old = str_handle(&mut heap, "xyz");
    let new = str_handle(&mut heap, "abc");
    let r = ObjectString::replace(&mut heap, h, old, new).unwrap();
    assert_eq!(heap.get_string_instance(r).unwrap().as_str(), "hello");
}

// ======================================================================
//  split / rsplit / splitlines / partition / rpartition
// ======================================================================

#[test]
fn test_split() {
    let mut heap = ObjectHeap::new();
    let parts = call_a2_list(&mut heap, ObjectString::split, "a,b,c", ",");
    assert_eq!(parts, vec!["a", "b", "c"]);

    let parts = call_a2_list(&mut heap, ObjectString::split, "hello", ",");
    assert_eq!(parts, vec!["hello"]);

    let parts = call_a2_list(&mut heap, ObjectString::split, "", ",");
    assert_eq!(parts, vec![""]);
}

#[test]
fn test_rsplit() {
    let mut heap = ObjectHeap::new();
    let parts = call_a2_list(&mut heap, ObjectString::rsplit, "a,b,c", ",");
    assert_eq!(parts, vec!["a", "b", "c"]);

    // Difference visible with maxsplit, but that's not implemented; still
    // verify correct basic behaviour.
    let parts = call_a2_list(&mut heap, ObjectString::rsplit, "a.b.c", ".");
    assert_eq!(parts, vec!["a", "b", "c"]);
}

#[test]
fn test_splitlines() {
    let mut heap = ObjectHeap::new();
    let parts = call_a1_list(&mut heap, ObjectString::splitlines, "a\nb\nc");
    assert_eq!(parts, vec!["a", "b", "c"]);

    let parts = call_a1_list(&mut heap, ObjectString::splitlines, "hello");
    assert_eq!(parts, vec!["hello"]);

    let parts = call_a1_list(&mut heap, ObjectString::splitlines, "");
    assert_eq!(parts, Vec::<String>::new());

    let parts = call_a1_list(&mut heap, ObjectString::splitlines, "line1\r\nline2");
    assert_eq!(parts, vec!["line1", "line2"]);
}

#[test]
fn test_partition() {
    let mut heap = ObjectHeap::new();
    let parts = call_a2_list(&mut heap, ObjectString::partition, "hello world", " ");
    assert_eq!(parts, vec!["hello", " ", "world"]);

    // sep not found: [string, "", ""]
    let parts = call_a2_list(&mut heap, ObjectString::partition, "hello", ",");
    assert_eq!(parts, vec!["hello", "", ""]);

    // first occurrence only
    let parts = call_a2_list(&mut heap, ObjectString::partition, "a.b.c", ".");
    assert_eq!(parts, vec!["a", ".", "b.c"]);
}

#[test]
fn test_rpartition() {
    let mut heap = ObjectHeap::new();
    let parts = call_a2_list(&mut heap, ObjectString::rpartition, "hello world", " ");
    assert_eq!(parts, vec!["hello", " ", "world"]);

    // sep not found: ["", "", string]
    let parts = call_a2_list(&mut heap, ObjectString::rpartition, "hello", ",");
    assert_eq!(parts, vec!["", "", "hello"]);

    // last occurrence
    let parts = call_a2_list(&mut heap, ObjectString::rpartition, "a.b.c", ".");
    assert_eq!(parts, vec!["a.b", ".", "c"]);
}

// ======================================================================
//  substr
// ======================================================================

#[test]
fn test_substr_ascii() {
    let mut heap = ObjectHeap::new();
    let h = str_handle(&mut heap, "hello");
    let start = heap.alloc_integer_instance(1);
    let len = heap.alloc_integer_instance(3);
    let r = ObjectString::substr(&mut heap, h, start, len).unwrap();
    assert_eq!(heap.get_string_instance(r).unwrap().as_str(), "ell");

    // negative start
    let start = heap.alloc_integer_instance(-2);
    let len = heap.alloc_integer_instance(2);
    let r = ObjectString::substr(&mut heap, h, start, len).unwrap();
    assert_eq!(heap.get_string_instance(r).unwrap().as_str(), "lo");

    // length zero or negative → empty
    let start = heap.alloc_integer_instance(0);
    let len = heap.alloc_integer_instance(0);
    let r = ObjectString::substr(&mut heap, h, start, len).unwrap();
    assert_eq!(heap.get_string_instance(r).unwrap().as_str(), "");

    let len = heap.alloc_integer_instance(-1);
    let r = ObjectString::substr(&mut heap, h, start, len).unwrap();
    assert_eq!(heap.get_string_instance(r).unwrap().as_str(), "");
}

#[test]
fn test_substr_unicode() {
    let mut heap = ObjectHeap::new();
    // "你好世界" = 4 chars
    let h = str_handle(&mut heap, "你好世界");
    let start = heap.alloc_integer_instance(1);
    let len = heap.alloc_integer_instance(2);
    let r = ObjectString::substr(&mut heap, h, start, len).unwrap();
    assert_eq!(heap.get_string_instance(r).unwrap().as_str(), "好世");

    // negative start
    let start = heap.alloc_integer_instance(-1);
    let len = heap.alloc_integer_instance(1);
    let r = ObjectString::substr(&mut heap, h, start, len).unwrap();
    assert_eq!(heap.get_string_instance(r).unwrap().as_str(), "界");
}

// ======================================================================
//  find / rfind
// ======================================================================

#[test]
fn test_find() {
    let mut heap = ObjectHeap::new();
    assert_eq!(call_a2_int(&mut heap, ObjectString::find, "hello", "l"), 2);
    assert_eq!(call_a2_int(&mut heap, ObjectString::find, "hello", "h"), 0);
    assert_eq!(call_a2_int(&mut heap, ObjectString::find, "hello", "o"), 4);
    assert_eq!(call_a2_int(&mut heap, ObjectString::find, "hello", "xyz"), -1);
    assert_eq!(call_a2_int(&mut heap, ObjectString::find, "hello", ""), 0);
}

#[test]
fn test_find_unicode() {
    let mut heap = ObjectHeap::new();
    // "你好世界" = 好 is at char index 1
    assert_eq!(call_a2_int(&mut heap, ObjectString::find, "你好世界", "好"), 1);
    assert_eq!(call_a2_int(&mut heap, ObjectString::find, "你好世界", "世界"), 2);
    assert_eq!(call_a2_int(&mut heap, ObjectString::find, "你好世界", "啊"), -1);
}

#[test]
fn test_rfind() {
    let mut heap = ObjectHeap::new();
    assert_eq!(call_a2_int(&mut heap, ObjectString::rfind, "hello", "l"), 3);
    assert_eq!(call_a2_int(&mut heap, ObjectString::rfind, "hello", "h"), 0);
    assert_eq!(call_a2_int(&mut heap, ObjectString::rfind, "hello", "xyz"), -1);
    assert_eq!(call_a2_int(&mut heap, ObjectString::rfind, "hello", ""), 5);
}

#[test]
fn test_rfind_unicode() {
    let mut heap = ObjectHeap::new();
    // "你好世界你好" = 6 chars; first "好" at index 1, last at index 5
    assert_eq!(call_a2_int(&mut heap, ObjectString::rfind, "你好世界你好", "好"), 5);
    assert_eq!(call_a2_int(&mut heap, ObjectString::rfind, "你好世界", "界"), 3);
}

// ======================================================================
//  count
// ======================================================================

#[test]
fn test_count() {
    let mut heap = ObjectHeap::new();
    assert_eq!(call_a2_int(&mut heap, ObjectString::count, "hello", "l"), 2);
    assert_eq!(call_a2_int(&mut heap, ObjectString::count, "hello", "h"), 1);
    assert_eq!(call_a2_int(&mut heap, ObjectString::count, "hello", "xyz"), 0);
    assert_eq!(call_a2_int(&mut heap, ObjectString::count, "aaa", "aa"), 1); // non-overlapping
    assert_eq!(call_a2_int(&mut heap, ObjectString::count, "aaaa", "aa"), 2);
    assert_eq!(call_a2_int(&mut heap, ObjectString::count, "你好你好", "你好"), 2);
}

// ======================================================================
//  is_empty
// ======================================================================

#[test]
fn test_is_empty() {
    let mut heap = ObjectHeap::new();
    assert!(call_a1_bool(&mut heap, ObjectString::is_empty, ""));
    assert!(!call_a1_bool(&mut heap, ObjectString::is_empty, "a"));
    assert!(!call_a1_bool(&mut heap, ObjectString::is_empty, " "));
}

// ======================================================================
//  repeat
// ======================================================================

#[test]
fn test_repeat() {
    let mut heap = ObjectHeap::new();
    let h = str_handle(&mut heap, "ab");
    let n = heap.alloc_integer_instance(3);
    let r = ObjectString::repeat(&mut heap, h, n).unwrap();
    assert_eq!(heap.get_string_instance(r).unwrap().as_str(), "ababab");

    let n = heap.alloc_integer_instance(0);
    let r = ObjectString::repeat(&mut heap, h, n).unwrap();
    assert_eq!(heap.get_string_instance(r).unwrap().as_str(), "");
}

#[test]
fn test_repeat_negative_errors() {
    let mut heap = ObjectHeap::new();
    let h = str_handle(&mut heap, "ab");
    let n = heap.alloc_integer_instance(-1);
    assert!(ObjectString::repeat(&mut heap, h, n).is_err());
}

// ======================================================================
//  removeprefix / removesuffix
// ======================================================================

#[test]
fn test_removeprefix() {
    let mut heap = ObjectHeap::new();
    assert_eq!(call_a2_str(&mut heap, ObjectString::removeprefix, "hello", "hel"), "lo");
    assert_eq!(call_a2_str(&mut heap, ObjectString::removeprefix, "hello", "xyz"), "hello");
    assert_eq!(call_a2_str(&mut heap, ObjectString::removeprefix, "hello", ""), "hello");
}

#[test]
fn test_removesuffix() {
    let mut heap = ObjectHeap::new();
    assert_eq!(call_a2_str(&mut heap, ObjectString::removesuffix, "hello", "lo"), "hel");
    assert_eq!(call_a2_str(&mut heap, ObjectString::removesuffix, "hello", "xyz"), "hello");
    assert_eq!(call_a2_str(&mut heap, ObjectString::removesuffix, "hello", ""), "hello");
}

// ======================================================================
//  center / ljust / rjust / zfill
// ======================================================================

fn call_justify_str(
    heap: &mut ObjectHeap,
    f: fn(&mut ObjectHeap, ObjectHandle, ObjectHandle, ObjectHandle) -> Result<ObjectHandle, RuntimeErrorKind>,
    input: &str,
    width: i64,
    fillchar: &str,
) -> String {
    let h = str_handle(heap, input);
    let w = heap.alloc_integer_instance(width);
    let fc = str_handle(heap, fillchar);
    let r = f(heap, h, w, fc).unwrap();
    heap.get_string_instance(r).unwrap().as_str().to_string()
}

#[test]
fn test_center() {
    let mut heap = ObjectHeap::new();
    assert_eq!(call_justify_str(&mut heap, ObjectString::center, "hi", 6, "-"), "--hi--");
    assert_eq!(call_justify_str(&mut heap, ObjectString::center, "hi", 5, "-"), "-hi--"); // left bias
    assert_eq!(call_justify_str(&mut heap, ObjectString::center, "hi", 2, "-"), "hi");
    assert_eq!(call_justify_str(&mut heap, ObjectString::center, "hi", 0, "-"), "hi");
}

#[test]
fn test_ljust() {
    let mut heap = ObjectHeap::new();
    assert_eq!(call_justify_str(&mut heap, ObjectString::ljust, "hi", 6, "-"), "hi----");
    assert_eq!(call_justify_str(&mut heap, ObjectString::ljust, "hi", 2, "-"), "hi");
}

#[test]
fn test_rjust() {
    let mut heap = ObjectHeap::new();
    assert_eq!(call_justify_str(&mut heap, ObjectString::rjust, "hi", 6, "-"), "----hi");
    assert_eq!(call_justify_str(&mut heap, ObjectString::rjust, "hi", 2, "-"), "hi");
}

#[test]
fn test_zfill() {
    let mut heap = ObjectHeap::new();
    let h = str_handle(&mut heap, "42");
    let w = heap.alloc_integer_instance(5);
    let r = ObjectString::zfill(&mut heap, h, w).unwrap();
    assert_eq!(heap.get_string_instance(r).unwrap().as_str(), "00042");

    // width <= len → unchanged
    let h = str_handle(&mut heap, "hello");
    let w = heap.alloc_integer_instance(3);
    let r = ObjectString::zfill(&mut heap, h, w).unwrap();
    assert_eq!(heap.get_string_instance(r).unwrap().as_str(), "hello");
}

// ======================================================================
//  Character-class predicates
// ======================================================================

#[test]
fn test_is_alnum() {
    let mut heap = ObjectHeap::new();
    assert!(call_a1_bool(&mut heap, ObjectString::is_alnum, "hello123"));
    assert!(!call_a1_bool(&mut heap, ObjectString::is_alnum, "hello 123"));
    assert!(!call_a1_bool(&mut heap, ObjectString::is_alnum, ""));
}

#[test]
fn test_is_alpha() {
    let mut heap = ObjectHeap::new();
    assert!(call_a1_bool(&mut heap, ObjectString::is_alpha, "hello"));
    assert!(!call_a1_bool(&mut heap, ObjectString::is_alpha, "hello123"));
    assert!(!call_a1_bool(&mut heap, ObjectString::is_alpha, ""));
}

#[test]
fn test_is_ascii() {
    let mut heap = ObjectHeap::new();
    assert!(call_a1_bool(&mut heap, ObjectString::is_ascii, "hello"));
    assert!(!call_a1_bool(&mut heap, ObjectString::is_ascii, "你好"));
    assert!(call_a1_bool(&mut heap, ObjectString::is_ascii, ""));
}

#[test]
fn test_is_decimal() {
    let mut heap = ObjectHeap::new();
    assert!(call_a1_bool(&mut heap, ObjectString::is_decimal, "12345"));
    assert!(!call_a1_bool(&mut heap, ObjectString::is_decimal, "12.34"));
    assert!(!call_a1_bool(&mut heap, ObjectString::is_decimal, ""));
    assert!(!call_a1_bool(&mut heap, ObjectString::is_decimal, " 123 "));
}

#[test]
fn test_is_digit() {
    let mut heap = ObjectHeap::new();
    assert!(call_a1_bool(&mut heap, ObjectString::is_digit, "12345"));
    assert!(!call_a1_bool(&mut heap, ObjectString::is_digit, "12a45"));
    assert!(!call_a1_bool(&mut heap, ObjectString::is_digit, ""));
}

#[test]
fn test_is_numeric() {
    let mut heap = ObjectHeap::new();
    assert!(call_a1_bool(&mut heap, ObjectString::is_numeric, "12345"));
    assert!(!call_a1_bool(&mut heap, ObjectString::is_numeric, "12.34"));
    assert!(!call_a1_bool(&mut heap, ObjectString::is_numeric, ""));
}

#[test]
fn test_is_space() {
    let mut heap = ObjectHeap::new();
    assert!(call_a1_bool(&mut heap, ObjectString::is_whitespace, "   "));
    assert!(call_a1_bool(&mut heap, ObjectString::is_whitespace, "\t\n\r"));
    assert!(!call_a1_bool(&mut heap, ObjectString::is_whitespace, " a "));
    assert!(!call_a1_bool(&mut heap, ObjectString::is_whitespace, ""));
}

#[test]
fn test_is_lower() {
    let mut heap = ObjectHeap::new();
    assert!(call_a1_bool(&mut heap, ObjectString::is_lower, "hello"));
    assert!(call_a1_bool(&mut heap, ObjectString::is_lower, "hello world"));
    assert!(!call_a1_bool(&mut heap, ObjectString::is_lower, "Hello"));
    assert!(!call_a1_bool(&mut heap, ObjectString::is_lower, ""));
    assert!(!call_a1_bool(&mut heap, ObjectString::is_lower, "123")); // no cased chars
}

#[test]
fn test_is_upper() {
    let mut heap = ObjectHeap::new();
    assert!(call_a1_bool(&mut heap, ObjectString::is_upper, "HELLO"));
    assert!(call_a1_bool(&mut heap, ObjectString::is_upper, "HELLO WORLD"));
    assert!(!call_a1_bool(&mut heap, ObjectString::is_upper, "Hello"));
    assert!(!call_a1_bool(&mut heap, ObjectString::is_upper, ""));
    assert!(!call_a1_bool(&mut heap, ObjectString::is_upper, "123")); // no cased chars
}

#[test]
fn test_is_title() {
    let mut heap = ObjectHeap::new();
    assert!(call_a1_bool(&mut heap, ObjectString::is_title, "Hello World"));
    assert!(call_a1_bool(&mut heap, ObjectString::is_title, "Hello"));
    assert!(!call_a1_bool(&mut heap, ObjectString::is_title, "hello world"));
    assert!(!call_a1_bool(&mut heap, ObjectString::is_title, "Hello world"));
    assert!(!call_a1_bool(&mut heap, ObjectString::is_title, "HELLO WORLD"));
    assert!(!call_a1_bool(&mut heap, ObjectString::is_title, ""));
    assert!(!call_a1_bool(&mut heap, ObjectString::is_title, "123")); // no cased chars
    assert!(call_a1_bool(&mut heap, ObjectString::is_title, "A1 B2"));
}

// ======================================================================
//  __getitem__ (character indexing)
// ======================================================================

#[test]
fn test_getitem_ascii() {
    let mut heap = ObjectHeap::new();
    let h = str_handle(&mut heap, "hello");
    let idx = heap.alloc_integer_instance(0);
    let r = ObjectString::__getitem__(&mut heap, h, idx).unwrap();
    assert_eq!(heap.get_string_instance(r).unwrap().as_str(), "h");

    let idx = heap.alloc_integer_instance(4);
    let r = ObjectString::__getitem__(&mut heap, h, idx).unwrap();
    assert_eq!(heap.get_string_instance(r).unwrap().as_str(), "o");

    // negative index
    let idx = heap.alloc_integer_instance(-1);
    let r = ObjectString::__getitem__(&mut heap, h, idx).unwrap();
    assert_eq!(heap.get_string_instance(r).unwrap().as_str(), "o");
}

#[test]
fn test_getitem_unicode() {
    let mut heap = ObjectHeap::new();
    let h = str_handle(&mut heap, "你好世界");
    let idx = heap.alloc_integer_instance(0);
    let r = ObjectString::__getitem__(&mut heap, h, idx).unwrap();
    assert_eq!(heap.get_string_instance(r).unwrap().as_str(), "你");

    let idx = heap.alloc_integer_instance(3);
    let r = ObjectString::__getitem__(&mut heap, h, idx).unwrap();
    assert_eq!(heap.get_string_instance(r).unwrap().as_str(), "界");

    let idx = heap.alloc_integer_instance(-1);
    let r = ObjectString::__getitem__(&mut heap, h, idx).unwrap();
    assert_eq!(heap.get_string_instance(r).unwrap().as_str(), "界");
}

#[test]
fn test_getitem_out_of_bounds() {
    let mut heap = ObjectHeap::new();
    let h = str_handle(&mut heap, "hi");
    let idx = heap.alloc_integer_instance(5);
    assert!(ObjectString::__getitem__(&mut heap, h, idx).is_err());

    let idx = heap.alloc_integer_instance(-3);
    assert!(ObjectString::__getitem__(&mut heap, h, idx).is_err());
}

// ======================================================================
//  Iterator
// ======================================================================

#[test]
fn test_iter_ascii() {
    let mut heap = ObjectHeap::new();
    let h = str_handle(&mut heap, "hi");
    let iter = ObjectString::__iter__(&mut heap, h).unwrap();
    let r1 = ObjectString::iter_next(&mut heap, iter).unwrap();
    assert_eq!(heap.get_string_instance(r1).unwrap().as_str(), "h");
    let r2 = ObjectString::iter_next(&mut heap, iter).unwrap();
    assert_eq!(heap.get_string_instance(r2).unwrap().as_str(), "i");
    let r3 = ObjectString::iter_next(&mut heap, iter).unwrap();
    assert!(r3.is_iter_end());
}

#[test]
fn test_iter_unicode() {
    let mut heap = ObjectHeap::new();
    let h = str_handle(&mut heap, "a你b");
    let iter = ObjectString::__iter__(&mut heap, h).unwrap();
    let r1 = ObjectString::iter_next(&mut heap, iter).unwrap();
    assert_eq!(heap.get_string_instance(r1).unwrap().as_str(), "a");
    let r2 = ObjectString::iter_next(&mut heap, iter).unwrap();
    assert_eq!(heap.get_string_instance(r2).unwrap().as_str(), "你");
    let r3 = ObjectString::iter_next(&mut heap, iter).unwrap();
    assert_eq!(heap.get_string_instance(r3).unwrap().as_str(), "b");
    let r4 = ObjectString::iter_next(&mut heap, iter).unwrap();
    assert!(r4.is_iter_end());
}

// ======================================================================
//  Magic methods
// ======================================================================

#[test]
fn test_bool_magic() {
    let mut heap = ObjectHeap::new();
    let h = str_handle(&mut heap, "hello");
    let r = ObjectString::__bool__(&mut heap, h).unwrap();
    assert!(heap.get_bool_instance(r).unwrap());

    let h = str_handle(&mut heap, "");
    let r = ObjectString::__bool__(&mut heap, h).unwrap();
    assert!(!heap.get_bool_instance(r).unwrap());
}

#[test]
fn test_not_magic() {
    let mut heap = ObjectHeap::new();
    let h = str_handle(&mut heap, "hello");
    let r = ObjectString::__not__(&mut heap, h).unwrap();
    assert!(!heap.get_bool_instance(r).unwrap());

    let h = str_handle(&mut heap, "");
    let r = ObjectString::__not__(&mut heap, h).unwrap();
    assert!(heap.get_bool_instance(r).unwrap());
}

#[test]
fn test_int_magic() {
    let mut heap = ObjectHeap::new();
    let h = str_handle(&mut heap, "42");
    let r = ObjectString::__int__(&mut heap, h).unwrap();
    assert_eq!(heap.get_integer_instance(r).unwrap(), 42);
}

#[test]
fn test_int_magic_invalid() {
    let mut heap = ObjectHeap::new();
    let h = str_handle(&mut heap, "hello");
    assert!(ObjectString::__int__(&mut heap, h).is_err());
}

#[test]
fn test_hash_magic() {
    let mut heap = ObjectHeap::new();
    let h1 = str_handle(&mut heap, "hello");
    let h2 = str_handle(&mut heap, "hello");
    let r1 = ObjectString::__hash__(&mut heap, h1).unwrap();
    let r2 = ObjectString::__hash__(&mut heap, h2).unwrap();
    assert_eq!(heap.get_integer_instance(r1).unwrap(), heap.get_integer_instance(r2).unwrap(),);
}

#[test]
fn test_str_magic() {
    let mut heap = ObjectHeap::new();
    let h = str_handle(&mut heap, "hello");
    let r = ObjectString::__str__(&mut heap, h).unwrap();
    // __str__ returns the receiver unchanged
    assert_eq!(r, h);
}

#[test]
fn test_add_magic() {
    let mut heap = ObjectHeap::new();
    let h1 = str_handle(&mut heap, "hello");
    let h2 = str_handle(&mut heap, " world");
    let r = ObjectString::__add__(&mut heap, h1, h2).unwrap();
    assert_eq!(heap.get_string_instance(r).unwrap().as_str(), "hello world");
}

#[test]
fn test_cmp_magic() {
    let mut heap = ObjectHeap::new();
    let a = str_handle(&mut heap, "abc");
    let b = str_handle(&mut heap, "abc");
    let c = str_handle(&mut heap, "xyz");

    let r = ObjectString::__eq__(&mut heap, a, b).unwrap();
    assert!(heap.get_bool_instance(r).unwrap());
    let r = ObjectString::__eq__(&mut heap, a, c).unwrap();
    assert!(!heap.get_bool_instance(r).unwrap());

    let r = ObjectString::__ne__(&mut heap, a, c).unwrap();
    assert!(heap.get_bool_instance(r).unwrap());

    let r = ObjectString::__lt__(&mut heap, a, c).unwrap();
    assert!(heap.get_bool_instance(r).unwrap());
    let r = ObjectString::__lt__(&mut heap, c, a).unwrap();
    assert!(!heap.get_bool_instance(r).unwrap());

    let r = ObjectString::__gt__(&mut heap, c, a).unwrap();
    assert!(heap.get_bool_instance(r).unwrap());
}

// ======================================================================
//  Further cases
// ======================================================================

#[test]
fn string_split_with_empty_delimiter_splits_between_characters() {
    let mut heap = ObjectHeap::new();
    let parts = call_a2_list(&mut heap, ObjectString::split, "abc", "");
    assert_eq!(parts, vec!["", "a", "b", "c", ""]);
    let parts = call_a2_list(&mut heap, ObjectString::split, "a,,b,", ",");
    assert_eq!(parts, vec!["a", "", "b", ""]);
    let parts = call_a2_list(&mut heap, ObjectString::split, "a--b--c", "--");
    assert_eq!(parts, vec!["a", "b", "c"]);
}

#[test]
fn string_replace_with_empty_pattern_inserts_everywhere() {
    let mut heap = ObjectHeap::new();
    let h = str_handle(&mut heap, "ab");
    let old = str_handle(&mut heap, "");
    let new = str_handle(&mut heap, "-");
    let r = ObjectString::replace(&mut heap, h, old, new).unwrap();
    assert_eq!(heap.get_string_instance(r).unwrap().as_str(), "-a-b-");
    let h = str_handle(&mut heap, "aaaa");
    let old = str_handle(&mut heap, "aa");
    let new = str_handle(&mut heap, "b");
    let r = ObjectString::replace(&mut heap, h, old, new).unwrap();
    assert_eq!(heap.get_string_instance(r).unwrap().as_str(), "bb");
}

#[test]
fn string_count_of_empty_pattern_is_length_plus_one() {
    let mut heap = ObjectHeap::new();
    assert_eq!(call_a2_int(&mut heap, ObjectString::count, "abc", ""), 4);
    assert_eq!(call_a2_int(&mut heap, ObjectString::count, "", ""), 1);
}

#[test]
fn string_splitlines_keeps_a_final_carriage_return() {
    let mut heap = ObjectHeap::new();
    let parts = call_a1_list(&mut heap, ObjectString::splitlines, "a\n\nb\r\n");
    assert_eq!(parts, vec!["a", "", "b"]);
    let parts = call_a1_list(&mut heap, ObjectString::splitlines, "a\r");
    assert_eq!(parts, vec!["a\r"]);
    let parts = call_a1_list(&mut heap, ObjectString::splitlines, "\n");
    assert_eq!(parts, vec![""]);
}

#[test]
fn string_partition_with_empty_separator() {
    let mut heap = ObjectHeap::new();
    let parts = call_a2_list(&mut heap, ObjectString::partition, "abc", "");
    assert_eq!(parts, vec!["", "", "abc"]);
    let parts = call_a2_list(&mut heap, ObjectString::rpartition, "abc", "");
    assert_eq!(parts, vec!["abc", "", ""]);
}

#[test]
fn string_substr_clamps_to_the_string() {
    let mut heap = ObjectHeap::new();
    let h = str_handle(&mut heap, "hello");
    let start = heap.alloc_integer_instance(3);
    let len = heap.alloc_integer_instance(i64::MAX);
    let r = ObjectString::substr(&mut heap, h, start, len).unwrap();
    assert_eq!(heap.get_string_instance(r).unwrap().as_str(), "lo");
    let start = heap.alloc_integer_instance(-10);
    let len = heap.alloc_integer_instance(2);
    let r = ObjectString::substr(&mut heap, h, start, len).unwrap();
    assert_eq!(heap.get_string_instance(r).unwrap().as_str(), "he");
    let start = heap.alloc_integer_instance(9);
    let r = ObjectString::substr(&mut heap, h, start, len).unwrap();
    assert_eq!(heap.get_string_instance(r).unwrap().as_str(), "");
}

#[test]
fn string_int_reads_signs_and_limits() {
    let mut heap = ObjectHeap::new();
    let h = str_handle(&mut heap, "-9223372036854775808");
    let r = ObjectString::__int__(&mut heap, h).unwrap();
    assert_eq!(heap.get_integer_instance(r).unwrap(), i64::MIN);
    let h = str_handle(&mut heap, "+17");
    let r = ObjectString::__int__(&mut heap, h).unwrap();
    assert_eq!(heap.get_integer_instance(r).unwrap(), 17);
    for bad in ["9223372036854775808", "-", "", "12a", " 1"] {
        let h = str_handle(&mut heap, bad);
        assert_eq!(ObjectString::__int__(&mut heap, h), Err(RuntimeErrorKind::BadIntResult("string")));
    }
}

#[test]
fn string_methods_report_wrong_types() {
    let mut heap = ObjectHeap::new();
    let n = heap.alloc_integer_instance(1);
    let s = str_handle(&mut heap, "x");
    assert_eq!(
        ObjectString::upper(&mut heap, n),
        Err(RuntimeErrorKind::TypeMismatch { expected: "string", found: "int" })
    );
    assert_eq!(
        ObjectString::find(&mut heap, s, n),
        Err(RuntimeErrorKind::TypeMismatch { expected: "string", found: "int" })
    );
    assert_eq!(
        ObjectString::__add__(&mut heap, s, n),
        Err(RuntimeErrorKind::BinaryOpTypeMismatch("add", "string", "int"))
    );
    assert_eq!(
        ObjectString::__le__(&mut heap, s, n),
        Err(RuntimeErrorKind::BinaryOpTypeMismatch("le", "string", "int"))
    );
    let k = heap.alloc_integer_instance(-2);
    assert_eq!(ObjectString::repeat(&mut heap, s, k), Err(RuntimeErrorKind::IndexOutOfRange(-2, 0)));
}

#[test]
fn string_order_is_by_code_point() {
    let mut heap = ObjectHeap::new();
    let a = str_handle(&mut heap, "ab");
    let b = str_handle(&mut heap, "abc");
    let c = str_handle(&mut heap, "b");
    let r = ObjectString::__lt__(&mut heap, a, b).unwrap();
    assert!(heap.get_bool_instance(r).unwrap());
    let r = ObjectString::__le__(&mut heap, a, a).unwrap();
    assert!(heap.get_bool_instance(r).unwrap());
    let r = ObjectString::__ge__(&mut heap, b, c).unwrap();
    assert!(!heap.get_bool_instance(r).unwrap());
    let r = ObjectString::__gt__(&mut heap, c, b).unwrap();
    assert!(heap.get_bool_instance(r).unwrap());
}

#[test]
fn string_padding_returns_the_receiver_when_wide_enough() {
    let mut heap = ObjectHeap::new();
    let h = str_handle(&mut heap, "abc");
    let w = heap.alloc_integer_instance(2);
    let f = str_handle(&mut heap, "");
    assert_eq!(ObjectString::center(&mut heap, h, w, f), Ok(h));
    let w = heap.alloc_integer_instance(5);
    let r = ObjectString::center(&mut heap, h, w, f).unwrap();
    assert_eq!(heap.get_string_instance(r).unwrap().as_str(), " abc ");
}

#[test]
fn split_pieces_join_back_without_the_delimiter() {
    let mut heap = ObjectHeap::new();
    for (text, delim) in [("a,,b,", ","), ("xx--yy----z", "--"), ("aaa", "aa"), ("", ";")] {
        let parts = call_a2_list(&mut heap, ObjectString::split, text, delim);
        assert!(!parts.is_empty());
        assert!(parts.iter().all(|p| !p.contains(delim)));
        assert_eq!(parts.join(delim), text);
    }
}
