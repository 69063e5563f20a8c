use vstd::prelude::*;

use crate::heap::{ObjectHeap, int_of, bool_of, str_of, list_of};
use crate::object::{InstanceData, Object, ObjectBytesIterator, ObjectClass, ObjectHandle, ObjectListIterator, ObjectStringIterator};

verus! {

/// The errors the built-in methods report.
#[derive(Debug, Clone, Copy, PartialEq, Eq)]
pub enum RuntimeErrorKind {
    /// A value of one type was expected and a value of another was found.
    TypeMismatch { expected: &'static str, found: &'static str },
    /// A binary operator got a right operand it does not take: the
    /// operator, the type of the left operand, the type of the right one.
    BinaryOpTypeMismatch(&'static str, &'static str, &'static str),
    /// A value outside what is accepted: what was expected, the type found.
    UnexpectedType(&'static str, &'static str),
    /// An index outside a sequence: the index, the length.
    IndexOutOfRange(i64, usize),
    /// A value of the named type does not convert to an integer.
    BadIntResult(&'static str),
    /// `pop` on an empty list.
    EmptyPop,
}

/// Is `e` the type mismatch between `expected` and `found`?
pub open spec fn is_type_mismatch(e: RuntimeErrorKind, expected: Seq<char>, found: Seq<char>) -> bool {
    e matches RuntimeErrorKind::TypeMismatch { expected: x, found: y } && x@ == expected && y@ == found
}

/// The name of the type of instance data, as error messages show it.
pub open spec fn data_type_name(d: InstanceData) -> Seq<char> {
    match d {
        InstanceData::Nil(_) => "nil"@,
        InstanceData::IterEnd(_) => "IterEnd"@,
        InstanceData::Bool(_) => "bool"@,
        InstanceData::Int(_) => "int"@,
        InstanceData::Float(_) => "float"@,
        InstanceData::Str(_) => "string"@,
        InstanceData::List(_) => "list"@,
        InstanceData::Dict(_) => "dict"@,
        InstanceData::SetOf(_) => "set"@,
        InstanceData::Bytes(_) => "bytes"@,
        InstanceData::Fields(_) => "instance"@,
        InstanceData::ListIter(_) => "list iterator"@,
        InstanceData::StringIter(_) => "string iterator"@,
        InstanceData::BytesIter(_) => "bytes iterator"@,
        InstanceData::SetIter(_) => "set iterator"@,
        InstanceData::DictIter(_) => "dict iterator"@,
    }
}

/// The name of the type of the value behind `h`: the sentinel handles are
/// `nil` and the end-of-iteration marker.
pub open spec fn type_name_of(heap: &ObjectHeap, h: ObjectHandle) -> Seq<char> {
    if heap.live(h) {
        match heap.objs()[h.0 as int] {
            Some(Object::Instance(i)) => data_type_name(i.data),
            Some(Object::Function(_)) => "Function"@,
            Some(Object::Closure(_)) => "Closure"@,
            Some(Object::Upvalue(_)) => "Upvalue"@,
            Some(Object::Class(_)) => "Class"@,
            Some(Object::BoundMethod(_)) => "BoundMethod"@,
            None => "nil"@,
        }
    } else if h.0 == 1 {
        "IterEnd"@
    } else {
        "nil"@
    }
}

/// The bytes a byte-string instance holds.
pub open spec fn bytes_of(o: Option<Object>) -> Option<Seq<u8>> {
    match o {
        Some(Object::Instance(inst)) => match inst.data {
            InstanceData::Bytes(b) => Some(b.data@),
            _ => None,
        },
        _ => None,
    }
}

/// The state of a bytes-iterator instance.
pub open spec fn bytes_iter_of(o: Option<Object>) -> Option<ObjectBytesIterator> {
    match o {
        Some(Object::Instance(inst)) => match inst.data {
            InstanceData::BytesIter(it) => Some(it),
            _ => None,
        },
        _ => None,
    }
}

/// The state of a list-iterator instance.
pub open spec fn list_iter_of(o: Option<Object>) -> Option<ObjectListIterator> {
    match o {
        Some(Object::Instance(inst)) => match inst.data {
            InstanceData::ListIter(it) => Some(it),
            _ => None,
        },
        _ => None,
    }
}

/// The state of a string-iterator instance.
pub open spec fn string_iter_of(o: Option<Object>) -> Option<ObjectStringIterator> {
    match o {
        Some(Object::Instance(inst)) => match inst.data {
            InstanceData::StringIter(it) => Some(it),
            _ => None,
        },
        _ => None,
    }
}

/// The value behind `h` taken through `view`, if `h` is live.
pub open spec fn live_view<T>(heap: &ObjectHeap, h: ObjectHandle, view: spec_fn(Option<Object>) -> Option<T>) -> Option<T> {
    if heap.live(h) {
        view(heap.objs()[h.0 as int])
    } else {
        None
    }
}

fn data_type_name_of(d: &InstanceData) -> (r: &'static str)
    ensures
        r@ == data_type_name(*d),
{
    match d {
        InstanceData::Nil(_) => "nil",
        InstanceData::IterEnd(_) => "IterEnd",
        InstanceData::Bool(_) => "bool",
        InstanceData::Int(_) => "int",
        InstanceData::Float(_) => "float",
        InstanceData::Str(_) => "string",
        InstanceData::List(_) => "list",
        InstanceData::Dict(_) => "dict",
        InstanceData::SetOf(_) => "set",
        InstanceData::Bytes(_) => "bytes",
        InstanceData::Fields(_) => "instance",
        InstanceData::ListIter(_) => "list iterator",
        InstanceData::StringIter(_) => "string iterator",
        InstanceData::BytesIter(_) => "bytes iterator",
        InstanceData::SetIter(_) => "set iterator",
        InstanceData::DictIter(_) => "dict iterator",
    }
}

impl ObjectHeap {
    /// The name of the type of the value behind `h`.
    pub fn type_of(&self, h: ObjectHandle) -> (r: &'static str)
        ensures
            r@ == type_name_of(self, h),
    {
        match self.get(h) {
            Some(Object::Instance(i)) => data_type_name_of(&i.data),
            Some(Object::Function(_)) => "Function",
            Some(Object::Closure(_)) => "Closure",
            Some(Object::Upvalue(_)) => "Upvalue",
            Some(Object::Class(_)) => "Class",
            Some(Object::BoundMethod(_)) => "BoundMethod",
            None => if h.0 == 1 {
                "IterEnd"
            } else {
                "nil"
            },
        }
    }

    /// The integer behind `h`, or a type mismatch.
    pub fn expect_integer(&self, h: ObjectHandle) -> (r: Result<i64, RuntimeErrorKind>)
        ensures
            match r {
                Ok(v) => live_view(self, h, |o: Option<Object>| int_of(o)) == Some(v),
                Err(e) => live_view(self, h, |o: Option<Object>| int_of(o)) is None
                    && is_type_mismatch(e, "int"@, type_name_of(self, h)),
            },
    {
        match self.get_integer_instance(h) {
            Some(v) => Ok(v),
            None => Err(RuntimeErrorKind::TypeMismatch { expected: "int", found: self.type_of(h) }),
        }
    }

    /// The boolean behind `h`, or a type mismatch.
    pub fn expect_bool(&self, h: ObjectHandle) -> (r: Result<bool, RuntimeErrorKind>)
        ensures
            match r {
                Ok(v) => live_view(self, h, |o: Option<Object>| bool_of(o)) == Some(v),
                Err(e) => live_view(self, h, |o: Option<Object>| bool_of(o)) is None
                    && is_type_mismatch(e, "bool"@, type_name_of(self, h)),
            },
    {
        match self.get_bool_instance(h) {
            Some(v) => Ok(v),
            None => Err(RuntimeErrorKind::TypeMismatch { expected: "bool", found: self.type_of(h) }),
        }
    }

    /// The string behind `h`, or a type mismatch.
    pub fn expect_string(&self, h: ObjectHandle) -> (r: Result<&String, RuntimeErrorKind>)
        ensures
            match r {
                Ok(s) => live_view(self, h, |o: Option<Object>| str_of(o)) == Some(s@),
                Err(e) => live_view(self, h, |o: Option<Object>| str_of(o)) is None
                    && is_type_mismatch(e, "string"@, type_name_of(self, h)),
            },
    {
        match self.get_string_instance(h) {
            Some(s) => Ok(s),
            None => Err(RuntimeErrorKind::TypeMismatch { expected: "string", found: self.type_of(h) }),
        }
    }

    /// The items of the list behind `h`, or a type mismatch.
    pub fn expect_list(&self, h: ObjectHandle) -> (r: Result<&Vec<ObjectHandle>, RuntimeErrorKind>)
        ensures
            match r {
                Ok(v) => live_view(self, h, |o: Option<Object>| list_of(o)) == Some(v@),
                Err(e) => live_view(self, h, |o: Option<Object>| list_of(o)) is None
                    && is_type_mismatch(e, "list"@, type_name_of(self, h)),
            },
    {
        match self.get_list_instance(h) {
            Some(v) => Ok(v),
            None => Err(RuntimeErrorKind::TypeMismatch { expected: "list", found: self.type_of(h) }),
        }
    }

    /// The bytes behind `h`, if it is a byte string.
    pub fn get_bytes_instance(&self, h: ObjectHandle) -> (r: Option<&Vec<u8>>)
        ensures
            match r {
                Some(v) => live_view(self, h, |o: Option<Object>| bytes_of(o)) == Some(v@),
                None => live_view(self, h, |o: Option<Object>| bytes_of(o)) is None,
            },
    {
        match self.get(h) {
            Some(Object::Instance(inst)) => match &inst.data {
                InstanceData::Bytes(b) => Some(&b.data),
                _ => None,
            },
            _ => None,
        }
    }

    /// The bytes behind `h`, or a type mismatch.
    pub fn expect_bytes(&self, h: ObjectHandle) -> (r: Result<&Vec<u8>, RuntimeErrorKind>)
        ensures
            match r {
                Ok(v) => live_view(self, h, |o: Option<Object>| bytes_of(o)) == Some(v@),
                Err(e) => live_view(self, h, |o: Option<Object>| bytes_of(o)) is None
                    && is_type_mismatch(e, "bytes"@, type_name_of(self, h)),
            },
    {
        match self.get_bytes_instance(h) {
            Some(v) => Ok(v),
            None => Err(RuntimeErrorKind::TypeMismatch { expected: "bytes", found: self.type_of(h) }),
        }
    }

    /// The state of the bytes iterator behind `h`, or a type mismatch.
    pub fn expect_bytes_iter(&self, h: ObjectHandle) -> (r: Result<ObjectBytesIterator, RuntimeErrorKind>)
        ensures
            match r {
                Ok(it) => live_view(self, h, |o: Option<Object>| bytes_iter_of(o)) == Some(it),
                Err(e) => live_view(self, h, |o: Option<Object>| bytes_iter_of(o)) is None
                    && is_type_mismatch(e, "bytes iterator"@, type_name_of(self, h)),
            },
    {
        match self.get(h) {
            Some(Object::Instance(inst)) => match &inst.data {
                InstanceData::BytesIter(it) => Ok(*it),
                _ => Err(RuntimeErrorKind::TypeMismatch { expected: "bytes iterator", found: self.type_of(h) }),
            },
            _ => Err(RuntimeErrorKind::TypeMismatch { expected: "bytes iterator", found: self.type_of(h) }),
        }
    }
}

impl ObjectHeap {
    /// The state of the string iterator behind `h`, or a type mismatch.
    pub fn expect_string_iter(&self, h: ObjectHandle) -> (r: Result<ObjectStringIterator, RuntimeErrorKind>)
        ensures
            match r {
                Ok(it) => live_view(self, h, |o: Option<Object>| string_iter_of(o)) == Some(it),
                Err(e) => live_view(self, h, |o: Option<Object>| string_iter_of(o)) is None
                    && is_type_mismatch(e, "string iterator"@, type_name_of(self, h)),
            },
    {
        match self.get(h) {
            Some(Object::Instance(inst)) => match &inst.data {
                InstanceData::StringIter(it) => Ok(*it),
                _ => Err(RuntimeErrorKind::TypeMismatch { expected: "string iterator", found: self.type_of(h) }),
            },
            _ => Err(RuntimeErrorKind::TypeMismatch { expected: "string iterator", found: self.type_of(h) }),
        }
    }
}

impl ObjectHeap {
    /// The state of the list iterator behind `h`, or a type mismatch.
    pub fn expect_list_iter(&self, h: ObjectHandle) -> (r: Result<ObjectListIterator, RuntimeErrorKind>)
        ensures
            match r {
                Ok(it) => live_view(self, h, |o: Option<Object>| list_iter_of(o)) == Some(it),
                Err(e) => live_view(self, h, |o: Option<Object>| list_iter_of(o)) is None
                    && is_type_mismatch(e, "list iterator"@, type_name_of(self, h)),
            },
    {
        match self.get(h) {
            Some(Object::Instance(inst)) => match &inst.data {
                InstanceData::ListIter(it) => Ok(*it),
                _ => Err(RuntimeErrorKind::TypeMismatch { expected: "list iterator", found: self.type_of(h) }),
            },
            _ => Err(RuntimeErrorKind::TypeMismatch { expected: "list iterator", found: self.type_of(h) }),
        }
    }
}

impl ObjectHeap {
    /// The class behind `h`, or a type mismatch.
    pub fn expect_class(&self, h: ObjectHandle) -> (r: Result<&ObjectClass, RuntimeErrorKind>)
        ensures
            match r {
                Ok(c) => self.live(h) && self.objs()[h.0 as int] == Some(Object::Class(*c)),
                Err(e) => !(self.live(h) && self.objs()[h.0 as int] matches Some(Object::Class(_)))
                    && is_type_mismatch(e, "class"@, type_name_of(self, h)),
            },
    {
        match self.get_class(h) {
            Some(c) => Ok(c),
            None => Err(RuntimeErrorKind::TypeMismatch { expected: "class", found: self.type_of(h) }),
        }
    }
}

} // verus!
