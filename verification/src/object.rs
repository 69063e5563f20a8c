use vstd::prelude::*;

use crate::chunk::Chunk;

verus! {

// ========================================================================== //
//                    Handles
// ========================================================================== //

/// Index of an object in the [`ObjectHeap`](crate::heap::ObjectHeap).
/// Handle 0 stands for `nil` and handle 1 for the end-of-iteration
/// sentinel; neither needs an allocation.
#[derive(Copy, Clone, Debug, PartialEq, Eq, Hash, Structural)]
pub struct ObjectHandle(pub usize);

impl ObjectHandle {
    /// The `nil` sentinel.
    pub fn nil() -> (h: ObjectHandle)
        ensures
            h.0 == 0,
    {
        ObjectHandle(0)
    }

    /// The end-of-iteration sentinel.
    pub fn iter_end() -> (h: ObjectHandle)
        ensures
            h.0 == 1,
    {
        ObjectHandle(1)
    }

    /// Is this the nil sentinel?
    pub fn is_nil(self) -> (b: bool)
        ensures
            b == (self.0 == 0),
    {
        self.0 == 0
    }

    /// Is this the end-of-iteration sentinel?
    pub fn is_iter_end(self) -> (b: bool)
        ensures
            b == (self.0 == 1),
    {
        self.0 == 1
    }
}

// ========================================================================== //
//                    Methods, functions, closures, upvalues
// ========================================================================== //

/// The built-in methods of strings and of their iterators, by the
/// function each one runs.
#[derive(Copy, Clone, Debug, PartialEq, Eq, Structural)]
pub enum StringMethod {
    Not,
    Add,
    Equal,
    NotEqual,
    Greater,
    GreaterEqual,
    Less,
    LessEqual,
    ToStr,
    ToBool,
    Hash,
    ToInt,
    ToFloat,
    CharCount,
    GetItem,
    Iter,
    Len,
    ByteLen,
    Upper,
    Lower,
    Capitalize,
    Casefold,
    Swapcase,
    Title,
    Trim,
    TrimStart,
    TrimEnd,
    IsEmpty,
    IsAlnum,
    IsAlpha,
    IsAscii,
    IsDecimal,
    IsDigit,
    IsNumeric,
    IsWhitespace,
    IsLower,
    IsUpper,
    IsTitle,
    Splitlines,
    StartsWith,
    EndsWith,
    Contains,
    Split,
    Rsplit,
    Find,
    Rfind,
    Count,
    Repeat,
    Removeprefix,
    Removesuffix,
    Zfill,
    Partition,
    Rpartition,
    Replace,
    Substr,
    Center,
    Ljust,
    Rjust,
    IterSelf,
    IterNext,
}

/// A callable method: a user-defined closure, a native function object, or
/// a built-in method of strings, which refers to no object.
#[derive(Copy, Clone, Debug, PartialEq, Eq, Structural)]
pub enum Method {
    User(ObjectHandle),
    Native(ObjectHandle),
    String(StringMethod),
}

impl Method {
    /// The object the method refers to; `nil` for a built-in one.
    pub open spec fn handle(self) -> ObjectHandle {
        match self {
            Method::User(h) => h,
            Method::Native(h) => h,
            Method::String(_) => ObjectHandle(0),
        }
    }
}

/// A compiled function.
pub struct ObjectFunction {
    pub name: String,
    pub arity: usize,
    /// Number of parameters without a default value.
    pub required_arity: usize,
    /// Names of all parameters in declaration order.
    pub param_names: Vec<String>,
    /// Default values of the last `arity - required_arity` parameters.
    pub defaults: Vec<ObjectHandle>,
    pub chunk: Chunk,
}

/// A function together with its captured upvalues.
pub struct ObjectClosure {
    pub function: ObjectHandle,
    pub upvalues: Vec<ObjectHandle>,
}

impl ObjectClosure {
    /// A closure over `function` that has captured nothing yet.
    pub fn new(function: ObjectHandle) -> (c: Self)
        ensures
            c.function == function,
            c.upvalues@.len() == 0,
    {
        ObjectClosure { function, upvalues: Vec::new() }
    }
}

/// A captured variable: open (a stack slot) or closed (a value).
#[derive(Copy, Clone, Debug, PartialEq, Eq, Structural)]
pub struct ObjectUpvalue {
    /// Stack slot while open; `None` once closed.
    pub location: Option<usize>,
    pub closed: ObjectHandle,
    /// The next open upvalue in the virtual machine's list.
    pub next: Option<ObjectHandle>,
}

// ========================================================================== //
//                    Classes, instances, bound methods
// ========================================================================== //

/// A class: its name, its methods (names are distinct), its superclass and
/// the module it belongs to.
pub struct ObjectClass {
    pub name: String,
    pub methods: Vec<(String, Method)>,
    pub superclass: Option<ObjectHandle>,
    pub module: Option<ObjectHandle>,
}

impl ObjectClass {
    /// A class without methods and without superclass.
    pub fn new(name: String, module: Option<ObjectHandle>) -> (c: Self)
        ensures
            c.name@ == name@,
            c.methods@.len() == 0,
            c.superclass is None,
            c.module == module,
    {
        ObjectClass { name, methods: Vec::new(), superclass: None, module }
    }
}

/// A method bound to its receiver.
#[derive(Copy, Clone, Debug, PartialEq, Eq, Structural)]
pub struct ObjectBoundMethod {
    pub receiver: ObjectHandle,
    pub method: Method,
}

impl ObjectBoundMethod {
    pub fn new(receiver: ObjectHandle, method: Method) -> (b: Self)
        ensures
            b.receiver == receiver,
            b.method == method,
    {
        ObjectBoundMethod { receiver, method }
    }
}

// ========================================================================== //
//                    Instance data
// ========================================================================== //

/// Sentinel data of `nil`.
#[derive(Copy, Clone, Debug, PartialEq, Eq, Structural)]
pub struct ObjectNil;

/// Sentinel data of the end-of-iteration marker.
#[derive(Copy, Clone, Debug, PartialEq, Eq, Structural)]
pub struct ObjectIterEnd;

/// A boolean.
#[derive(Copy, Clone, Debug, PartialEq, Eq, Structural)]
pub struct ObjectBool {
    pub value: bool,
}

impl ObjectBool {
    pub fn new(value: bool) -> (b: Self)
        ensures
            b.value == value,
    {
        ObjectBool { value }
    }
}

/// A 64-bit integer.
#[derive(Copy, Clone, Debug, PartialEq, Eq, Structural)]
pub struct ObjectInt {
    pub value: i64,
}

impl ObjectInt {
    pub fn new(value: i64) -> (i: Self)
        ensures
            i.value == value,
    {
        ObjectInt { value }
    }
}

/// A floating-point number, kept as the decimal text it was written with;
/// the arithmetic on it belongs to the runtime.
#[derive(Clone, Debug)]
pub struct ObjectFloat {
    pub literal: String,
}

/// A string.
#[derive(Clone, Debug)]
pub struct ObjectString {
    pub value: String,
}

impl ObjectString {
    pub fn new(value: String) -> (s: Self)
        ensures
            s.value@ == value@,
    {
        ObjectString { value }
    }
}

/// A list.
#[derive(Clone, Debug)]
pub struct ObjectList {
    pub items: Vec<ObjectHandle>,
}

/// A dictionary: entries `(hash of key, key, value)`; no two entries have
/// equal keys.
#[derive(Clone, Debug)]
pub struct ObjectDict {
    pub entries: Vec<(u64, ObjectHandle, ObjectHandle)>,
}

/// A set: entries `(hash of item, item)`; no two entries have equal items.
#[derive(Clone, Debug)]
pub struct ObjectSet {
    pub entries: Vec<(u64, ObjectHandle)>,
}

/// A byte string.
#[derive(Clone, Debug)]
pub struct ObjectBytes {
    pub data: Vec<u8>,
}

/// Field storage of user-defined class instances; names are distinct.
#[derive(Clone, Debug)]
pub struct ObjectFields {
    pub fields: Vec<(String, ObjectHandle)>,
}

impl ObjectFields {
    /// An instance without fields.
    pub fn new() -> (f: Self)
        ensures
            f.fields@.len() == 0,
    {
        ObjectFields { fields: Vec::new() }
    }
}

/// Iterator over a list.
#[derive(Copy, Clone, Debug, PartialEq, Eq, Structural)]
pub struct ObjectListIterator {
    pub list_handle: ObjectHandle,
    pub index: usize,
}

/// Iterator over the characters of a string.
#[derive(Copy, Clone, Debug, PartialEq, Eq, Structural)]
pub struct ObjectStringIterator {
    pub string_handle: ObjectHandle,
    /// Index of the next character.
    pub char_index: usize,
}

impl ObjectStringIterator {
    /// An iterator at the start of the string.
    pub fn new(string_handle: ObjectHandle) -> (it: Self)
        ensures
            it.string_handle == string_handle,
            it.char_index == 0,
    {
        ObjectStringIterator { string_handle, char_index: 0 }
    }
}

/// Iterator over the bytes of a byte string.
#[derive(Copy, Clone, Debug, PartialEq, Eq, Structural)]
pub struct ObjectBytesIterator {
    pub bytes_handle: ObjectHandle,
    pub index: usize,
}

/// Iterator over a snapshot of the items of a set.
#[derive(Clone, Debug)]
pub struct ObjectSetIterator {
    pub items: Vec<ObjectHandle>,
    pub index: usize,
}

impl ObjectSetIterator {
    pub fn new(items: Vec<ObjectHandle>) -> (it: Self)
        ensures
            it.items@ == items@,
            it.index == 0,
    {
        ObjectSetIterator { items, index: 0 }
    }
}

/// Iterator over a snapshot of the keys of a dictionary.
#[derive(Clone, Debug)]
pub struct ObjectDictIterator {
    pub keys: Vec<ObjectHandle>,
    pub index: usize,
}

/// What an instance holds.
pub enum InstanceData {
    Nil(ObjectNil),
    IterEnd(ObjectIterEnd),
    Bool(ObjectBool),
    Int(ObjectInt),
    Float(ObjectFloat),
    Str(ObjectString),
    List(ObjectList),
    Dict(ObjectDict),
    SetOf(ObjectSet),
    Bytes(ObjectBytes),
    Fields(ObjectFields),
    ListIter(ObjectListIterator),
    StringIter(ObjectStringIterator),
    BytesIter(ObjectBytesIterator),
    SetIter(ObjectSetIterator),
    DictIter(ObjectDictIterator),
}

/// An instance of a class.
pub struct ObjectInstance {
    pub class: ObjectHandle,
    pub data: InstanceData,
}

impl ObjectInstance {
    pub fn new(class: ObjectHandle, data: InstanceData) -> (i: Self)
        ensures
            i.class == class,
            i.data == data,
    {
        ObjectInstance { class, data }
    }
}

/// Everything the heap stores.
pub enum Object {
    Function(ObjectFunction),
    Closure(ObjectClosure),
    Upvalue(ObjectUpvalue),
    Class(ObjectClass),
    Instance(ObjectInstance),
    BoundMethod(ObjectBoundMethod),
}

// ========================================================================== //
//                    References between objects
// ========================================================================== //

/// The handles an instance's data holds.
pub open spec fn data_refs(d: InstanceData) -> Seq<ObjectHandle> {
    match d {
        InstanceData::List(l) => l.items@,
        InstanceData::Dict(m) => m.entries@.map_values(|e: (u64, ObjectHandle, ObjectHandle)| e.1)
            + m.entries@.map_values(|e: (u64, ObjectHandle, ObjectHandle)| e.2),
        InstanceData::SetOf(s) => s.entries@.map_values(|e: (u64, ObjectHandle)| e.1),
        InstanceData::Fields(f) => f.fields@.map_values(|e: (String, ObjectHandle)| e.1),
        InstanceData::ListIter(it) => seq![it.list_handle],
        InstanceData::StringIter(it) => seq![it.string_handle],
        InstanceData::BytesIter(it) => seq![it.bytes_handle],
        InstanceData::SetIter(it) => it.items@,
        InstanceData::DictIter(it) => it.keys@,
        _ => Seq::empty(),
    }
}

pub open spec fn opt_ref(o: Option<ObjectHandle>) -> Seq<ObjectHandle> {
    match o {
        Some(h) => seq![h],
        None => Seq::empty(),
    }
}

/// The handles an object holds: the edges the garbage collector follows.
pub open spec fn object_refs(o: Object) -> Seq<ObjectHandle> {
    match o {
        Object::Function(f) => f.chunk.constants@ + f.defaults@,
        Object::Closure(c) => seq![c.function] + c.upvalues@,
        Object::Upvalue(u) => seq![u.closed] + opt_ref(u.next),
        Object::Class(c) => opt_ref(c.superclass) + opt_ref(c.module)
            + c.methods@.map_values(|m: (String, Method)| m.1.handle()),
        Object::Instance(i) => seq![i.class] + data_refs(i.data),
        Object::BoundMethod(b) => seq![b.method.handle(), b.receiver],
    }
}

/// Does instance data `d` store handle `h` in one of its fields?
pub open spec fn data_stores(d: InstanceData, h: ObjectHandle) -> bool {
    match d {
        InstanceData::List(l) => l.items@.contains(h),
        InstanceData::Dict(m) => exists|k: int| #![trigger m.entries@[k]] 0 <= k < m.entries@.len()
            && (m.entries@[k].1 == h || m.entries@[k].2 == h),
        InstanceData::SetOf(st) => exists|k: int| 0 <= k < st.entries@.len() && #[trigger] st.entries@[k].1 == h,
        InstanceData::Fields(f) => exists|k: int| 0 <= k < f.fields@.len() && #[trigger] f.fields@[k].1 == h,
        InstanceData::ListIter(it) => it.list_handle == h,
        InstanceData::StringIter(it) => it.string_handle == h,
        InstanceData::BytesIter(it) => it.bytes_handle == h,
        InstanceData::SetIter(it) => it.items@.contains(h),
        InstanceData::DictIter(it) => it.keys@.contains(h),
        _ => false,
    }
}

/// Does object `o` store handle `h` in one of its fields: a function's
/// constant or default, a closure's function or captured upvalue, an
/// upvalue's closed value or next upvalue, a class's superclass, module or
/// method, an instance's class or data, a bound method's receiver or
/// method?
pub open spec fn stores_handle(o: Object, h: ObjectHandle) -> bool {
    match o {
        Object::Function(f) => f.chunk.constants@.contains(h) || f.defaults@.contains(h),
        Object::Closure(c) => c.function == h || c.upvalues@.contains(h),
        Object::Upvalue(u) => u.closed == h || u.next == Some(h),
        Object::Class(c) => c.superclass == Some(h) || c.module == Some(h)
            || exists|k: int| 0 <= k < c.methods@.len() && #[trigger] c.methods@[k].1.handle() == h,
        Object::Instance(i) => i.class == h || data_stores(i.data, h),
        Object::BoundMethod(b) => b.receiver == h || b.method.handle() == h,
    }
}

/// The references the garbage collector follows from an object are
/// exactly the handles the object stores: none is left out, none is made
/// up.
pub proof fn lemma_refs_are_stored_handles(o: Object, h: ObjectHandle)
    ensures
        object_refs(o).contains(h) <==> stores_handle(o, h),
{
    match o {
        Object::Function(f) => {
            let a = f.chunk.constants@;
            let b = f.defaults@;
            if (a + b).contains(h) {
                let k = choose|k: int| 0 <= k < (a + b).len() && (a + b)[k] == h;
                if k < a.len() {
                    assert(a[k] == h);
                } else {
                    assert(b[k - a.len()] == h);
                }
            }
            if a.contains(h) {
                let k = choose|k: int| 0 <= k < a.len() && a[k] == h;
                assert((a + b)[k] == h);
            }
            if b.contains(h) {
                let k = choose|k: int| 0 <= k < b.len() && b[k] == h;
                assert((a + b)[a.len() + k] == h);
            }
        },
        Object::Closure(c) => {
            let a = seq![c.function];
            let b = c.upvalues@;
            if (a + b).contains(h) {
                let k = choose|k: int| 0 <= k < (a + b).len() && (a + b)[k] == h;
                if k >= 1 {
                    assert(b[k - 1] == h);
                }
            }
            if c.function == h {
                assert((a + b)[0] == h);
            }
            if b.contains(h) {
                let k = choose|k: int| 0 <= k < b.len() && b[k] == h;
                assert((a + b)[1 + k] == h);
            }
        },
        Object::Upvalue(u) => {
            let a = seq![u.closed];
            let b = opt_ref(u.next);
            if (a + b).contains(h) {
                let k = choose|k: int| 0 <= k < (a + b).len() && (a + b)[k] == h;
                if k >= 1 {
                    assert(b[k - 1] == h);
                }
            }
            if u.closed == h {
                assert((a + b)[0] == h);
            }
            if u.next == Some(h) {
                assert((a + b)[1] == h);
            }
        },
        Object::Class(c) => {
            let a = opt_ref(c.superclass);
            let b = opt_ref(c.module);
            let m = c.methods@.map_values(|x: (String, Method)| x.1.handle());
            let all = a + b + m;
            if all.contains(h) {
                let k = choose|k: int| 0 <= k < all.len() && all[k] == h;
                if k < a.len() {
                    assert(a[k] == h);
                } else if k < a.len() + b.len() {
                    assert(b[k - a.len()] == h);
                } else {
                    let q = k - a.len() - b.len();
                    assert(m[q] == h);
                    assert(c.methods@[q].1.handle() == h);
                }
            }
            if c.superclass == Some(h) {
                assert(all[0] == h);
            }
            if c.module == Some(h) {
                assert(all[a.len() as int] == h);
            }
            if exists|k: int| 0 <= k < c.methods@.len() && #[trigger] c.methods@[k].1.handle() == h {
                let q = choose|k: int| 0 <= k < c.methods@.len() && #[trigger] c.methods@[k].1.handle() == h;
                assert(m[q] == h);
                assert(all[a.len() + b.len() + q] == h);
            }
        },
        Object::Instance(i) => {
            let a = seq![i.class];
            let d = data_refs(i.data);
            lemma_data_refs_are_stored(i.data, h);
            if (a + d).contains(h) {
                let k = choose|k: int| 0 <= k < (a + d).len() && (a + d)[k] == h;
                if k >= 1 {
                    assert(d[k - 1] == h);
                }
            }
            if i.class == h {
                assert((a + d)[0] == h);
            }
            if d.contains(h) {
                let k = choose|k: int| 0 <= k < d.len() && d[k] == h;
                assert((a + d)[1 + k] == h);
            }
        },
        Object::BoundMethod(b) => {
            let r = seq![b.method.handle(), b.receiver];
            if b.receiver == h {
                assert(r[1] == h);
            }
            if b.method.handle() == h {
                assert(r[0] == h);
            }
        },
    }
}

/// The handles listed for instance data are exactly those it stores.
proof fn lemma_data_refs_are_stored(d: InstanceData, h: ObjectHandle)
    ensures
        data_refs(d).contains(h) <==> data_stores(d, h),
{
    match d {
        InstanceData::Dict(m) => {
            let a = m.entries@.map_values(|e: (u64, ObjectHandle, ObjectHandle)| e.1);
            let b = m.entries@.map_values(|e: (u64, ObjectHandle, ObjectHandle)| e.2);
            if (a + b).contains(h) {
                let k = choose|k: int| 0 <= k < (a + b).len() && (a + b)[k] == h;
                if k < a.len() {
                    assert(a[k] == h);
                    assert(m.entries@[k].1 == h);
                } else {
                    assert(b[k - a.len()] == h);
                    assert(m.entries@[k - a.len()].2 == h);
                }
                assert(data_stores(d, h));
            }
            if data_stores(d, h) {
                let k = choose|k: int| #![trigger m.entries@[k]] 0 <= k < m.entries@.len()
                    && (m.entries@[k].1 == h || m.entries@[k].2 == h);
                if m.entries@[k].1 == h {
                    assert((a + b)[k] == h);
                } else {
                    assert((a + b)[a.len() + k] == h);
                }
            }
        },
        InstanceData::SetOf(st) => {
            let a = st.entries@.map_values(|e: (u64, ObjectHandle)| e.1);
            if a.contains(h) {
                let k = choose|k: int| 0 <= k < a.len() && a[k] == h;
                assert(st.entries@[k].1 == h);
            }
            if data_stores(d, h) {
                let k = choose|k: int| 0 <= k < st.entries@.len() && #[trigger] st.entries@[k].1 == h;
                assert(a[k] == h);
            }
        },
        InstanceData::Fields(f) => {
            let a = f.fields@.map_values(|e: (String, ObjectHandle)| e.1);
            if a.contains(h) {
                let k = choose|k: int| 0 <= k < a.len() && a[k] == h;
                assert(f.fields@[k].1 == h);
            }
            if data_stores(d, h) {
                let k = choose|k: int| 0 <= k < f.fields@.len() && #[trigger] f.fields@[k].1 == h;
                assert(a[k] == h);
            }
        },
        InstanceData::ListIter(it) => {
            if it.list_handle == h {
                assert(data_refs(d)[0] == h);
            }
        },
        InstanceData::StringIter(it) => {
            if it.string_handle == h {
                assert(data_refs(d)[0] == h);
            }
        },
        InstanceData::BytesIter(it) => {
            if it.bytes_handle == h {
                assert(data_refs(d)[0] == h);
            }
        },
        _ => {},
    }
}

} // verus!
