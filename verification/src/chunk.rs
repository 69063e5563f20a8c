use vstd::prelude::*;

use crate::heap::{str_of, ObjectHeap};
use crate::instruct::{ByteCode, Instruction, UpvalueDesc};
use crate::object::{Object, ObjectHandle};

verus! {

/// Why an instruction could not be decoded.
#[derive(Debug, Clone, Copy, PartialEq, Eq, Structural)]
pub enum ChunkError {
    /// A byte was read at the first index (`ip`) at or past the code
    /// length (the second index).
    IpOutOfRange(usize, usize),
    /// A constant index at or past the size of the constant pool.
    ConstantOutOfRange(usize, usize),
    /// A byte that encodes no operation.
    InvalidByteCode(u8),
    /// A name operand whose constant is not a string.
    ExpectedStringConstant,
}

/// How the operands of an operation are laid out after its byte.
pub enum Layout {
    /// No operand.
    Bare,
    /// One byte.
    Byte,
    /// A little-endian 16-bit number.
    Short,
    /// A 16-bit index into the constant pool.
    Const,
    /// A 16-bit index of a string constant.
    Name,
    /// A string constant's index, then a byte.
    NameByte,
    /// A constant's index, a count byte, then two bytes per upvalue.
    Closure,
    /// Two count bytes, then one name index per keyword argument.
    Keywords,
}

impl ByteCode {
    /// The operand layout of the operation.
    pub open spec fn layout(self) -> Layout {
        match self {
            ByteCode::Constant => Layout::Const,
            ByteCode::DefineGlobal | ByteCode::GetGlobal | ByteCode::SetGlobal | ByteCode::Class
            | ByteCode::SetProperty | ByteCode::GetProperty | ByteCode::Method | ByteCode::Import => Layout::Name,
            ByteCode::Invoke | ByteCode::SuperInvoke => Layout::NameByte,
            ByteCode::GetLocal | ByteCode::SetLocal | ByteCode::JumpIfFalse | ByteCode::Jump | ByteCode::Loop
            | ByteCode::BuildList | ByteCode::BuildDict | ByteCode::BuildSet | ByteCode::ForInNext => Layout::Short,
            ByteCode::Call | ByteCode::GetUpvalue | ByteCode::SetUpvalue => Layout::Byte,
            ByteCode::Closure => Layout::Closure,
            ByteCode::CallKw => Layout::Keywords,
            _ => Layout::Bare,
        }
    }
}

/// An instruction as plain values: its operation, its numeric operands,
/// its object operand, its names and its captured upvalues.
pub struct InstrModel {
    pub op: ByteCode,
    pub nums: Seq<int>,
    pub handle: Option<ObjectHandle>,
    pub names: Seq<Seq<char>>,
    pub upvalues: Seq<UpvalueDesc>,
}

pub open spec fn bare(op: ByteCode) -> InstrModel {
    InstrModel { op, nums: Seq::empty(), handle: None, names: Seq::empty(), upvalues: Seq::empty() }
}

pub open spec fn with_num(op: ByteCode, n: int) -> InstrModel {
    InstrModel { op, nums: seq![n], handle: None, names: Seq::empty(), upvalues: Seq::empty() }
}

pub open spec fn with_name(op: ByteCode, s: Seq<char>) -> InstrModel {
    InstrModel { op, nums: Seq::empty(), handle: None, names: seq![s], upvalues: Seq::empty() }
}

pub open spec fn names_view(names: Seq<String>) -> Seq<Seq<char>> {
    names.map_values(|s: String| s@)
}

/// The plain-value model of an instruction.
pub open spec fn model(inst: Instruction) -> InstrModel {
    match inst {
        Instruction::Return => bare(ByteCode::Return),
        Instruction::Pop => bare(ByteCode::Pop),
        Instruction::Nil => bare(ByteCode::Nil),
        Instruction::True => bare(ByteCode::True),
        Instruction::False => bare(ByteCode::False),
        Instruction::Negate => bare(ByteCode::Negate),
        Instruction::Not => bare(ByteCode::Not),
        Instruction::Add => bare(ByteCode::Add),
        Instruction::Sub => bare(ByteCode::Sub),
        Instruction::Mul => bare(ByteCode::Mul),
        Instruction::Div => bare(ByteCode::Div),
        Instruction::Mod => bare(ByteCode::Mod),
        Instruction::FloorDiv => bare(ByteCode::FloorDiv),
        Instruction::Equal => bare(ByteCode::Equal),
        Instruction::NotEqual => bare(ByteCode::NotEqual),
        Instruction::Greater => bare(ByteCode::Greater),
        Instruction::GreaterEqual => bare(ByteCode::GreaterEqual),
        Instruction::Less => bare(ByteCode::Less),
        Instruction::LessEqual => bare(ByteCode::LessEqual),
        Instruction::Constant(h) => InstrModel {
            op: ByteCode::Constant,
            nums: Seq::empty(),
            handle: Some(h),
            names: Seq::empty(),
            upvalues: Seq::empty(),
        },
        Instruction::DefineGlobal(s) => with_name(ByteCode::DefineGlobal, s@),
        Instruction::GetGlobal(s) => with_name(ByteCode::GetGlobal, s@),
        Instruction::SetGlobal(s) => with_name(ByteCode::SetGlobal, s@),
        Instruction::GetLocal(n) => with_num(ByteCode::GetLocal, n as int),
        Instruction::SetLocal(n) => with_num(ByteCode::SetLocal, n as int),
        Instruction::JumpIfFalse(n) => with_num(ByteCode::JumpIfFalse, n as int),
        Instruction::Jump(n) => with_num(ByteCode::Jump, n as int),
        Instruction::Loop(n) => with_num(ByteCode::Loop, n as int),
        Instruction::Call(n) => with_num(ByteCode::Call, n as int),
        Instruction::CallKw { pos_count, kw_count, kw_names } => InstrModel {
            op: ByteCode::CallKw,
            nums: seq![pos_count as int, kw_count as int],
            handle: None,
            names: names_view(kw_names@),
            upvalues: Seq::empty(),
        },
        Instruction::Closure { function, upvalues } => InstrModel {
            op: ByteCode::Closure,
            nums: Seq::empty(),
            handle: Some(function),
            names: Seq::empty(),
            upvalues: upvalues@,
        },
        Instruction::GetUpvalue(n) => with_num(ByteCode::GetUpvalue, n as int),
        Instruction::SetUpvalue(n) => with_num(ByteCode::SetUpvalue, n as int),
        Instruction::CloseUpvalue => bare(ByteCode::CloseUpvalue),
        Instruction::Class(s) => with_name(ByteCode::Class, s@),
        Instruction::SetProperty(s) => with_name(ByteCode::SetProperty, s@),
        Instruction::GetProperty(s) => with_name(ByteCode::GetProperty, s@),
        Instruction::Method(s) => with_name(ByteCode::Method, s@),
        Instruction::Invoke(s, n) => InstrModel {
            op: ByteCode::Invoke,
            nums: seq![n as int],
            handle: None,
            names: seq![s@],
            upvalues: Seq::empty(),
        },
        Instruction::Inherit => bare(ByteCode::Inherit),
        Instruction::SuperInvoke(s, n) => InstrModel {
            op: ByteCode::SuperInvoke,
            nums: seq![n as int],
            handle: None,
            names: seq![s@],
            upvalues: Seq::empty(),
        },
        Instruction::BuildList(n) => with_num(ByteCode::BuildList, n as int),
        Instruction::BuildDict(n) => with_num(ByteCode::BuildDict, n as int),
        Instruction::BuildSet(n) => with_num(ByteCode::BuildSet, n as int),
        Instruction::IndexGet => bare(ByteCode::IndexGet),
        Instruction::IndexSet => bare(ByteCode::IndexSet),
        Instruction::Import(s) => with_name(ByteCode::Import, s@),
        Instruction::IterEnd => bare(ByteCode::IterEnd),
        Instruction::ForInIter => bare(ByteCode::ForInIter),
        Instruction::ForInNext(n) => with_num(ByteCode::ForInNext, n as int),
    }
}

/// Do the operands of the model fit the byte layout of its operation?
pub open spec fn encodable(m: InstrModel) -> bool {
    match m.op.layout() {
        Layout::Bare => true,
        Layout::Byte => 0 <= m.nums[0] < 256,
        Layout::Short => 0 <= m.nums[0] < 65536,
        Layout::Const => m.handle is Some,
        Layout::Name => m.names.len() == 1,
        Layout::NameByte => m.names.len() == 1 && 0 <= m.nums[0] < 256,
        Layout::Closure => m.handle is Some && m.upvalues.len() < 256
            && forall|k: int| 0 <= k < m.upvalues.len() ==> #[trigger] m.upvalues[k].index < 256,
        Layout::Keywords => 0 <= m.nums[0] < 256 && 0 <= m.nums[1] < 256 && m.names.len() == m.nums[1],
    }
}

/// Number of constants an instruction adds to the pool.
pub open spec fn const_count(m: InstrModel) -> nat {
    match m.op.layout() {
        Layout::Const | Layout::Name | Layout::NameByte | Layout::Closure => 1,
        Layout::Keywords => m.names.len(),
        _ => 0,
    }
}

/// The two bytes of a 16-bit number, least significant first.
pub open spec fn le16(n: int) -> Seq<u8> {
    seq![(n % 256) as u8, (n / 256) as u8]
}

pub open spec fn upvalue_bytes(ups: Seq<UpvalueDesc>) -> Seq<u8>
    decreases ups.len(),
{
    if ups.len() == 0 {
        Seq::empty()
    } else {
        upvalue_bytes(ups.drop_last()) + seq![if ups.last().is_local { 1u8 } else { 0u8 }, ups.last().index as u8]
    }
}

/// Consecutive constant indices `base`, `base + 1`, ... as 16-bit numbers.
pub open spec fn index_bytes(base: int, count: nat) -> Seq<u8>
    decreases count,
{
    if count == 0 {
        Seq::empty()
    } else {
        index_bytes(base, (count - 1) as nat) + le16(base + count - 1)
    }
}

/// The bytes of an instruction whose constants start at index `base`.
pub open spec fn encode(m: InstrModel, base: int) -> Seq<u8> {
    let op = seq![m.op.spec_byte()];
    match m.op.layout() {
        Layout::Bare => op,
        Layout::Byte => op + seq![m.nums[0] as u8],
        Layout::Short => op + le16(m.nums[0]),
        Layout::Const | Layout::Name => op + le16(base),
        Layout::NameByte => op + le16(base) + seq![m.nums[0] as u8],
        Layout::Closure => op + le16(base) + seq![m.upvalues.len() as u8] + upvalue_bytes(m.upvalues),
        Layout::Keywords => op + seq![m.nums[0] as u8, m.nums[1] as u8] + index_bytes(base, m.names.len()),
    }
}

/// The string held by the object behind `h`.
pub open spec fn name_of(objs: Seq<Option<Object>>, h: ObjectHandle) -> Option<Seq<char>> {
    if h.0 < objs.len() {
        str_of(objs[h.0 as int])
    } else {
        None
    }
}

/// The constants an instruction added (`pushed`) are the ones it needs:
/// its object, or string objects holding its names.
pub open spec fn consts_hold(m: InstrModel, pushed: Seq<ObjectHandle>, objs: Seq<Option<Object>>) -> bool {
    &&& pushed.len() == const_count(m)
    &&& match m.op.layout() {
        Layout::Const | Layout::Closure => pushed[0] == m.handle->0,
        Layout::Name | Layout::NameByte | Layout::Keywords => forall|k: int|
            0 <= k < pushed.len() ==> name_of(objs, #[trigger] pushed[k]) == Some(m.names[k]),
        _ => true,
    }
}

// ------------------------------------------------------------------------
//  Decoding, as plain values
// ------------------------------------------------------------------------

/// Read the byte at `ip`.
pub open spec fn read_u8(codes: Seq<u8>, ip: int) -> Result<(u8, int), (ChunkError, int)> {
    if 0 <= ip < codes.len() {
        Ok((codes[ip], ip + 1))
    } else {
        Err((ChunkError::IpOutOfRange(ip as usize, codes.len() as usize), ip))
    }
}

/// Read a little-endian 16-bit number at `ip`.
pub open spec fn read_u16(codes: Seq<u8>, ip: int) -> Result<(int, int), (ChunkError, int)> {
    match read_u8(codes, ip) {
        Err(e) => Err(e),
        Ok((lo, ip1)) => match read_u8(codes, ip1) {
            Err(e) => Err(e),
            Ok((hi, ip2)) => Ok((lo + 256 * hi, ip2)),
        },
    }
}

/// Read a constant index at `ip` and look it up.
pub open spec fn read_const(codes: Seq<u8>, consts: Seq<ObjectHandle>, ip: int) -> Result<(ObjectHandle, int), (ChunkError, int)> {
    match read_u16(codes, ip) {
        Err(e) => Err(e),
        Ok((i, ip1)) => if i < consts.len() {
            Ok((consts[i], ip1))
        } else {
            Err((ChunkError::ConstantOutOfRange(i as usize, consts.len() as usize), ip1))
        },
    }
}

/// Read a string constant at `ip`.
pub open spec fn read_name(codes: Seq<u8>, consts: Seq<ObjectHandle>, objs: Seq<Option<Object>>, ip: int)
    -> Result<(Seq<char>, int), (ChunkError, int)>
{
    match read_const(codes, consts, ip) {
        Err(e) => Err(e),
        Ok((h, ip1)) => match name_of(objs, h) {
            Some(s) => Ok((s, ip1)),
            None => Err((ChunkError::ExpectedStringConstant, ip1)),
        },
    }
}

/// Read `n` upvalue descriptors at `ip`.
pub open spec fn read_upvalues(codes: Seq<u8>, ip: int, n: nat) -> Result<(Seq<UpvalueDesc>, int), (ChunkError, int)>
    decreases n,
{
    if n == 0 {
        Ok((Seq::empty(), ip))
    } else {
        match read_upvalues(codes, ip, (n - 1) as nat) {
            Err(e) => Err(e),
            Ok((ups, ip1)) => match read_u8(codes, ip1) {
                Err(e) => Err(e),
                Ok((local, ip2)) => match read_u8(codes, ip2) {
                    Err(e) => Err(e),
                    Ok((index, ip3)) => Ok((ups.push(UpvalueDesc { is_local: local != 0, index: index as usize }), ip3)),
                },
            },
        }
    }
}

/// Read `n` string constants at `ip`.
pub open spec fn read_names(codes: Seq<u8>, consts: Seq<ObjectHandle>, objs: Seq<Option<Object>>, ip: int, n: nat)
    -> Result<(Seq<Seq<char>>, int), (ChunkError, int)>
    decreases n,
{
    if n == 0 {
        Ok((Seq::empty(), ip))
    } else {
        match read_names(codes, consts, objs, ip, (n - 1) as nat) {
            Err(e) => Err(e),
            Ok((names, ip1)) => match read_name(codes, consts, objs, ip1) {
                Err(e) => Err(e),
                Ok((s, ip2)) => Ok((names.push(s), ip2)),
            },
        }
    }
}

/// Decode the instruction at `ip`: the instruction and the index after
/// it, or the error and the index reached.
pub open spec fn decode(codes: Seq<u8>, consts: Seq<ObjectHandle>, objs: Seq<Option<Object>>, ip: int)
    -> Result<(InstrModel, int), (ChunkError, int)>
{
    match read_u8(codes, ip) {
        Err(e) => Err(e),
        Ok((b, ip1)) => match ByteCode::spec_from_byte(b) {
            None => Err((ChunkError::InvalidByteCode(b), ip1)),
            Some(op) => match op.layout() {
                Layout::Bare => Ok((bare(op), ip1)),
                Layout::Byte => match read_u8(codes, ip1) {
                    Err(e) => Err(e),
                    Ok((n, ip2)) => Ok((with_num(op, n as int), ip2)),
                },
                Layout::Short => match read_u16(codes, ip1) {
                    Err(e) => Err(e),
                    Ok((n, ip2)) => Ok((with_num(op, n), ip2)),
                },
                Layout::Const => match read_const(codes, consts, ip1) {
                    Err(e) => Err(e),
                    Ok((h, ip2)) => Ok((
                        InstrModel { op, nums: Seq::empty(), handle: Some(h), names: Seq::empty(), upvalues: Seq::empty() },
                        ip2,
                    )),
                },
                Layout::Name => match read_name(codes, consts, objs, ip1) {
                    Err(e) => Err(e),
                    Ok((s, ip2)) => Ok((with_name(op, s), ip2)),
                },
                Layout::NameByte => match read_name(codes, consts, objs, ip1) {
                    Err(e) => Err(e),
                    Ok((s, ip2)) => match read_u8(codes, ip2) {
                        Err(e) => Err(e),
                        Ok((n, ip3)) => Ok((
                            InstrModel { op, nums: seq![n as int], handle: None, names: seq![s], upvalues: Seq::empty() },
                            ip3,
                        )),
                    },
                },
                Layout::Closure => match read_const(codes, consts, ip1) {
                    Err(e) => Err(e),
                    Ok((h, ip2)) => match read_u8(codes, ip2) {
                        Err(e) => Err(e),
                        Ok((count, ip3)) => match read_upvalues(codes, ip3, count as nat) {
                            Err(e) => Err(e),
                            Ok((ups, ip4)) => Ok((
                                InstrModel { op, nums: Seq::empty(), handle: Some(h), names: Seq::empty(), upvalues: ups },
                                ip4,
                            )),
                        },
                    },
                },
                Layout::Keywords => match read_u8(codes, ip1) {
                    Err(e) => Err(e),
                    Ok((pos, ip2)) => match read_u8(codes, ip2) {
                        Err(e) => Err(e),
                        Ok((kw, ip3)) => match read_names(codes, consts, objs, ip3, kw as nat) {
                            Err(e) => Err(e),
                            Ok((names, ip4)) => Ok((
                                InstrModel { op, nums: seq![pos as int, kw as int], handle: None, names, upvalues: Seq::empty() },
                                ip4,
                            )),
                        },
                    },
                },
            },
        },
    }
}

// ------------------------------------------------------------------------
//  Decoding what was encoded
// ------------------------------------------------------------------------

proof fn lemma_le16(n: int)
    requires
        0 <= n < 65536,
    ensures
        le16(n)[0] as int == n % 256,
        le16(n)[1] as int == n / 256,
        (n % 256) + 256 * (n / 256) == n,
        le16(n).len() == 2,
{
    assert((n % 256) + 256 * (n / 256) == n && 0 <= n / 256 < 256) by (nonlinear_arith)
        requires 0 <= n < 65536;
}

proof fn lemma_read_u16(codes: Seq<u8>, ip: int, n: int)
    requires
        0 <= n < 65536,
        0 <= ip,
        ip + 2 <= codes.len(),
        codes.subrange(ip, ip + 2) == le16(n),
    ensures
        read_u16(codes, ip) == Ok::<(int, int), (ChunkError, int)>((n, ip + 2)),
{
    lemma_le16(n);
    assert(codes[ip] == codes.subrange(ip, ip + 2)[0]);
    assert(codes[ip + 1] == codes.subrange(ip, ip + 2)[1]);
}

proof fn lemma_upvalue_bytes_len(ups: Seq<UpvalueDesc>)
    ensures
        upvalue_bytes(ups).len() == 2 * ups.len(),
    decreases ups.len(),
{
    if ups.len() > 0 {
        lemma_upvalue_bytes_len(ups.drop_last());
    }
}

proof fn lemma_index_bytes_len(base: int, count: nat)
    ensures
        index_bytes(base, count).len() == 2 * count,
    decreases count,
{
    if count > 0 {
        lemma_index_bytes_len(base, (count - 1) as nat);
    }
}

proof fn lemma_read_upvalues(codes: Seq<u8>, ip: int, ups: Seq<UpvalueDesc>)
    requires
        0 <= ip,
        ip + 2 * ups.len() <= codes.len(),
        codes.subrange(ip, ip + 2 * ups.len()) == upvalue_bytes(ups),
        forall|k: int| 0 <= k < ups.len() ==> #[trigger] ups[k].index < 256,
    ensures
        read_upvalues(codes, ip, ups.len()) == Ok::<(Seq<UpvalueDesc>, int), (ChunkError, int)>((ups, ip + 2 * ups.len())),
    decreases ups.len(),
{
    if ups.len() > 0 {
        let n = ups.len();
        let prev = ups.drop_last();
        lemma_upvalue_bytes_len(prev);
        assert(codes.subrange(ip, ip + 2 * (prev.len() as int)) == codes.subrange(ip, ip + 2 * n).subrange(0, 2 * (prev.len() as int)));
        assert(upvalue_bytes(ups).subrange(0, 2 * (prev.len() as int)) == upvalue_bytes(prev));
        assert forall|k: int| 0 <= k < prev.len() implies #[trigger] prev[k].index < 256 by {
            assert(prev[k] == ups[k]);
        }
        lemma_read_upvalues(codes, ip, prev);
        let at = ip + 2 * (prev.len() as int);
        assert(codes[at] == upvalue_bytes(ups)[2 * (prev.len() as int)]);
        assert(codes[at + 1] == upvalue_bytes(ups)[2 * (prev.len() as int) + 1]);
        let u = ups.last();
        assert(ups[n - 1].index < 256);
        assert((u.index as u8) as usize == u.index);
        assert(prev.push(UpvalueDesc { is_local: u.is_local, index: u.index }) =~= ups);
    } else {
        assert(ups =~= Seq::<UpvalueDesc>::empty());
    }
}

proof fn lemma_read_names(
    codes: Seq<u8>,
    consts: Seq<ObjectHandle>,
    objs: Seq<Option<Object>>,
    ip: int,
    base: int,
    names: Seq<Seq<char>>,
)
    requires
        0 <= ip,
        0 <= base,
        base + names.len() <= consts.len(),
        base + names.len() <= 65536,
        ip + 2 * names.len() <= codes.len(),
        codes.subrange(ip, ip + 2 * names.len()) == index_bytes(base, names.len()),
        forall|k: int| 0 <= k < names.len() ==> name_of(objs, #[trigger] consts[base + k]) == Some(names[k]),
    ensures
        read_names(codes, consts, objs, ip, names.len())
            == Ok::<(Seq<Seq<char>>, int), (ChunkError, int)>((names, ip + 2 * names.len())),
    decreases names.len(),
{
    if names.len() > 0 {
        let n = names.len();
        let prev = names.drop_last();
        lemma_index_bytes_len(base, prev.len());
        assert(codes.subrange(ip, ip + 2 * (prev.len() as int)) == codes.subrange(ip, ip + 2 * n).subrange(0, 2 * (prev.len() as int)));
        assert(index_bytes(base, n).subrange(0, 2 * (prev.len() as int)) == index_bytes(base, prev.len()));
        assert forall|k: int| 0 <= k < prev.len() implies name_of(objs, #[trigger] consts[base + k]) == Some(prev[k]) by {
            assert(prev[k] == names[k]);
        }
        lemma_read_names(codes, consts, objs, ip, base, prev);
        let at = ip + 2 * (prev.len() as int);
        let whole = codes.subrange(ip, ip + 2 * n);
        assert(codes.subrange(at, at + 2) =~= whole.subrange(2 * (prev.len() as int), 2 * (n as int)));
        assert(index_bytes(base, n).subrange(2 * (prev.len() as int), 2 * (n as int)) =~= le16(base + n - 1));
        assert(codes.subrange(at, at + 2) == le16(base + n - 1));
        lemma_read_u16(codes, at, base + n - 1);
        assert(name_of(objs, consts[base + (n - 1)]) == Some(names[n - 1]));
        assert(prev.push(names[n - 1]) =~= names);
    } else {
        assert(names =~= Seq::<Seq<char>>::empty());
    }
}

/// Decoding the bytes of an instruction, written with its constants
/// starting at index `base` of the pool, gives the instruction back and
/// moves past exactly those bytes, wherever they stand in the code.
pub proof fn lemma_decode_encode(
    inst: Instruction,
    base: int,
    codes: Seq<u8>,
    ip: int,
    consts: Seq<ObjectHandle>,
    objs: Seq<Option<Object>>,
)
    requires
        encodable(model(inst)),
        0 <= base,
        base + const_count(model(inst)) <= consts.len(),
        base + const_count(model(inst)) <= 65536,
        consts_hold(model(inst), consts.subrange(base, base + const_count(model(inst))), objs),
        0 <= ip,
        ip + encode(model(inst), base).len() <= codes.len(),
        codes.subrange(ip, ip + encode(model(inst), base).len()) == encode(model(inst), base),
    ensures
        decode(codes, consts, objs, ip)
            == Ok::<(InstrModel, int), (ChunkError, int)>((model(inst), ip + encode(model(inst), base).len())),
{
    let m = model(inst);
    let bytes = encode(m, base);
    let pushed = consts.subrange(base, base + const_count(m));
    ByteCode::lemma_roundtrip_all(m.op);
    assert(codes[ip] == bytes[0]);
    match m.op.layout() {
        Layout::Bare => {},
        Layout::Byte => {
            assert(codes[ip + 1] == bytes[1]);
            assert((m.nums[0] as u8) as int == m.nums[0]);
        },
        Layout::Short => {
            assert(codes.subrange(ip + 1, ip + 3) == bytes.subrange(1, 3));
            assert(bytes.subrange(1, 3) == le16(m.nums[0]));
            lemma_read_u16(codes, ip + 1, m.nums[0]);
        },
        Layout::Const | Layout::Name => {
            assert(codes.subrange(ip + 1, ip + 3) == bytes.subrange(1, 3));
            assert(bytes.subrange(1, 3) == le16(base));
            lemma_read_u16(codes, ip + 1, base);
            assert(pushed[0] == consts[base]);
        },
        Layout::NameByte => {
            assert(codes.subrange(ip + 1, ip + 3) == bytes.subrange(1, 3));
            assert(bytes.subrange(1, 3) == le16(base));
            lemma_read_u16(codes, ip + 1, base);
            assert(pushed[0] == consts[base]);
            assert(codes[ip + 3] == bytes[3]);
            assert((m.nums[0] as u8) as int == m.nums[0]);
        },
        Layout::Closure => {
            assert(codes.subrange(ip + 1, ip + 3) == bytes.subrange(1, 3));
            assert(bytes.subrange(1, 3) == le16(base));
            lemma_read_u16(codes, ip + 1, base);
            assert(pushed[0] == consts[base]);
            assert(codes[ip + 3] == bytes[3]);
            lemma_upvalue_bytes_len(m.upvalues);
            assert(codes.subrange(ip + 4, ip + 4 + 2 * (m.upvalues.len() as int)) == bytes.subrange(4, 4 + 2 * (m.upvalues.len() as int)));
            assert(bytes.subrange(4, 4 + 2 * (m.upvalues.len() as int)) == upvalue_bytes(m.upvalues));
            lemma_read_upvalues(codes, ip + 4, m.upvalues);
        },
        Layout::Keywords => {
            assert(codes[ip + 1] == bytes[1]);
            assert(codes[ip + 2] == bytes[2]);
            lemma_index_bytes_len(base, m.names.len());
            assert(codes.subrange(ip + 3, ip + 3 + 2 * (m.names.len() as int)) == bytes.subrange(3, 3 + 2 * (m.names.len() as int)));
            assert(bytes.subrange(3, 3 + 2 * (m.names.len() as int)) == index_bytes(base, m.names.len()));
            assert forall|k: int| 0 <= k < m.names.len() implies name_of(objs, #[trigger] consts[base + k]) == Some(m.names[k]) by {
                assert(pushed[k] == consts[base + k]);
            }
            lemma_read_names(codes, consts, objs, ip + 3, base, m.names);
            assert((m.nums[0] as u8) as int == m.nums[0]);
            assert((m.nums[1] as u8) as int == m.nums[1]);
        },
    }
}

/// A chunk of bytecode: the encoded instructions, the source line and
/// column of each byte, and the constant pool.
#[derive(Clone, Debug)]
pub struct Chunk {
    pub codes: Vec<u8>,
    pub lines: Vec<usize>,
    pub columns: Vec<usize>,
    pub constants: Vec<ObjectHandle>,
}

impl Chunk {
    /// An empty chunk.
    pub fn new() -> (c: Self)
        ensures
            c.codes@.len() == 0,
            c.lines@.len() == 0,
            c.columns@.len() == 0,
            c.constants@.len() == 0,
    {
        Chunk { codes: Vec::new(), lines: Vec::new(), columns: Vec::new(), constants: Vec::new() }
    }
}

/// `n` copies of `x`.
pub open spec fn fill(n: nat, x: usize) -> Seq<usize> {
    Seq::new(n, |_i: int| x)
}

impl Chunk {
    /// `new_c` is `old_c` with the bytes of `m` appended, each attributed
    /// to `line` and `column`, and with `m`'s constants added to the pool.
    pub open spec fn appended(old_c: Chunk, new_c: Chunk, m: InstrModel, line: usize, column: usize) -> bool {
        let bytes = encode(m, old_c.constants@.len() as int);
        &&& new_c.codes@ == old_c.codes@ + bytes
        &&& new_c.lines@ == old_c.lines@ + fill(bytes.len(), line)
        &&& new_c.columns@ == old_c.columns@ + fill(bytes.len(), column)
        &&& new_c.constants@.len() == old_c.constants@.len() + const_count(m)
        &&& new_c.constants@.subrange(0, old_c.constants@.len() as int) == old_c.constants@
    }

    /// The constants `new_c` added after the pool of `old_c`.
    pub open spec fn pushed(old_c: Chunk, new_c: Chunk) -> Seq<ObjectHandle> {
        new_c.constants@.subrange(old_c.constants@.len() as int, new_c.constants@.len() as int)
    }

    fn write_byte(&mut self, b: u8, line: usize, column: usize)
        ensures
            final(self).codes@ == old(self).codes@ + seq![b],
            final(self).lines@ == old(self).lines@ + seq![line],
            final(self).columns@ == old(self).columns@ + seq![column],
            final(self).constants@ == old(self).constants@,
    {
        self.codes.push(b);
        self.lines.push(line);
        self.columns.push(column);
        proof {
            assert(self.codes@ =~= old(self).codes@ + seq![b]);
            assert(self.lines@ =~= old(self).lines@ + seq![line]);
            assert(self.columns@ =~= old(self).columns@ + seq![column]);
        }
    }

    fn write_u16(&mut self, v: usize, line: usize, column: usize)
        requires
            v < 65536,
        ensures
            final(self).codes@ == old(self).codes@ + le16(v as int),
            final(self).lines@ == old(self).lines@ + seq![line, line],
            final(self).columns@ == old(self).columns@ + seq![column, column],
            final(self).constants@ == old(self).constants@,
    {
        let lo = (v % 256) as u8;
        let hi = (v / 256) as u8;
        self.write_byte(lo, line, column);
        self.write_byte(hi, line, column);
        proof {
            assert(self.codes@ =~= old(self).codes@ + le16(v as int));
            assert(self.lines@ =~= old(self).lines@ + seq![line, line]);
            assert(self.columns@ =~= old(self).columns@ + seq![column, column]);
        }
    }

    /// Add `h` to the pool and write its index.
    fn write_constant_index(&mut self, h: ObjectHandle, line: usize, column: usize)
        requires
            old(self).constants@.len() < 65536,
        ensures
            final(self).codes@ == old(self).codes@ + le16(old(self).constants@.len() as int),
            final(self).lines@ == old(self).lines@ + seq![line, line],
            final(self).columns@ == old(self).columns@ + seq![column, column],
            final(self).constants@ == old(self).constants@.push(h),
    {
        let index = self.constants.len();
        self.constants.push(h);
        self.write_u16(index, line, column);
    }

    /// Intern `name` as a string object, add it to the pool and write its
    /// index.
    fn write_name_index(&mut self, name: &String, line: usize, column: usize, heap: &mut ObjectHeap)
        requires
            old(self).constants@.len() < 65536,
            old(heap).wf(),
        ensures
            final(heap).wf(),
            ObjectHeap::only_adds(old(heap), final(heap)),
            final(self).codes@ == old(self).codes@ + le16(old(self).constants@.len() as int),
            final(self).lines@ == old(self).lines@ + seq![line, line],
            final(self).columns@ == old(self).columns@ + seq![column, column],
            final(self).constants@.len() == old(self).constants@.len() + 1,
            final(self).constants@.subrange(0, old(self).constants@.len() as int) == old(self).constants@,
            name_of(final(heap).objs(), final(self).constants@.last()) == Some(name@),
    {
        let h = heap.alloc_string_instance(name.clone());
        self.write_constant_index(h, line, column);
        proof {
            assert(self.constants@.subrange(0, old(self).constants@.len() as int) =~= old(self).constants@);
        }
    }
}

impl Chunk {
    fn emit_bare(&mut self, op: ByteCode, line: usize, column: usize)
        requires
            op.layout() is Bare,
        ensures
            Chunk::appended(*old(self), *final(self), bare(op), line, column),
            Chunk::pushed(*old(self), *final(self)).len() == 0,
    {
        self.write_byte(op.to_byte(), line, column);
        proof {
            assert(fill(1, line) =~= seq![line]);
            assert(fill(1, column) =~= seq![column]);
            assert(self.constants@.subrange(0, old(self).constants@.len() as int) =~= old(self).constants@);
        }
    }

    fn emit_byte_op(&mut self, op: ByteCode, n: usize, line: usize, column: usize)
        requires
            op.layout() is Byte,
            n < 256,
        ensures
            Chunk::appended(*old(self), *final(self), with_num(op, n as int), line, column),
            Chunk::pushed(*old(self), *final(self)).len() == 0,
    {
        self.write_byte(op.to_byte(), line, column);
        self.write_byte(n as u8, line, column);
        proof {
            assert(self.codes@ =~= old(self).codes@ + encode(with_num(op, n as int), old(self).constants@.len() as int));
            assert(self.lines@ =~= old(self).lines@ + fill(2, line));
            assert(self.columns@ =~= old(self).columns@ + fill(2, column));
            assert(self.constants@.subrange(0, old(self).constants@.len() as int) =~= old(self).constants@);
        }
    }

    fn emit_short_op(&mut self, op: ByteCode, n: usize, line: usize, column: usize)
        requires
            op.layout() is Short,
            n < 65536,
        ensures
            Chunk::appended(*old(self), *final(self), with_num(op, n as int), line, column),
            Chunk::pushed(*old(self), *final(self)).len() == 0,
    {
        self.write_byte(op.to_byte(), line, column);
        self.write_u16(n, line, column);
        proof {
            assert(self.codes@ =~= old(self).codes@ + encode(with_num(op, n as int), old(self).constants@.len() as int));
            assert(self.lines@ =~= old(self).lines@ + fill(3, line));
            assert(self.columns@ =~= old(self).columns@ + fill(3, column));
            assert(self.constants@.subrange(0, old(self).constants@.len() as int) =~= old(self).constants@);
        }
    }

    fn emit_constant(&mut self, h: ObjectHandle, line: usize, column: usize)
        requires
            old(self).constants@.len() < 65536,
        ensures
            Chunk::appended(*old(self), *final(self), model(Instruction::Constant(h)), line, column),
            Chunk::pushed(*old(self), *final(self)) == seq![h],
    {
        self.write_byte(ByteCode::Constant.to_byte(), line, column);
        self.write_constant_index(h, line, column);
        proof {
            let m = model(Instruction::Constant(h));
            assert(self.codes@ =~= old(self).codes@ + encode(m, old(self).constants@.len() as int));
            assert(self.lines@ =~= old(self).lines@ + fill(3, line));
            assert(self.columns@ =~= old(self).columns@ + fill(3, column));
            assert(self.constants@.subrange(0, old(self).constants@.len() as int) =~= old(self).constants@);
            assert(Chunk::pushed(*old(self), *self) =~= seq![h]);
        }
    }

    fn emit_name(&mut self, op: ByteCode, name: &String, line: usize, column: usize, heap: &mut ObjectHeap)
        requires
            op.layout() is Name,
            old(self).constants@.len() < 65536,
            old(heap).wf(),
        ensures
            final(heap).wf(),
            ObjectHeap::only_adds(old(heap), final(heap)),
            Chunk::appended(*old(self), *final(self), with_name(op, name@), line, column),
            consts_hold(with_name(op, name@), Chunk::pushed(*old(self), *final(self)), final(heap).objs()),
    {
        self.write_byte(op.to_byte(), line, column);
        self.write_name_index(name, line, column, heap);
        proof {
            let m = with_name(op, name@);
            assert(self.codes@ =~= old(self).codes@ + encode(m, old(self).constants@.len() as int));
            assert(self.lines@ =~= old(self).lines@ + fill(3, line));
            assert(self.columns@ =~= old(self).columns@ + fill(3, column));
            let pushed = Chunk::pushed(*old(self), *self);
            assert(pushed[0] == self.constants@.last());
        }
    }

    fn emit_name_byte(&mut self, op: ByteCode, name: &String, n: usize, line: usize, column: usize, heap: &mut ObjectHeap)
        requires
            op.layout() is NameByte,
            n < 256,
            old(self).constants@.len() < 65536,
            old(heap).wf(),
        ensures
            final(heap).wf(),
            ObjectHeap::only_adds(old(heap), final(heap)),
            Chunk::appended(*old(self), *final(self),
                InstrModel { op, nums: seq![n as int], handle: None, names: seq![name@], upvalues: Seq::empty() }, line, column),
            consts_hold(InstrModel { op, nums: seq![n as int], handle: None, names: seq![name@], upvalues: Seq::empty() },
                Chunk::pushed(*old(self), *final(self)), final(heap).objs()),
    {
        self.write_byte(op.to_byte(), line, column);
        self.write_name_index(name, line, column, heap);
        let ghost mid = *self;
        self.write_byte(n as u8, line, column);
        proof {
            let m = InstrModel { op, nums: seq![n as int], handle: None, names: seq![name@], upvalues: Seq::empty() };
            assert(self.codes@ =~= old(self).codes@ + encode(m, old(self).constants@.len() as int));
            assert(self.lines@ =~= old(self).lines@ + fill(4, line));
            assert(self.columns@ =~= old(self).columns@ + fill(4, column));
            let pushed = Chunk::pushed(*old(self), *self);
            assert(pushed[0] == mid.constants@.last());
        }
    }

    fn emit_closure(&mut self, function: ObjectHandle, upvalues: &Vec<UpvalueDesc>, line: usize, column: usize)
        requires
            old(self).constants@.len() < 65536,
            upvalues@.len() < 256,
            forall|k: int| 0 <= k < upvalues@.len() ==> #[trigger] upvalues@[k].index < 256,
        ensures
            Chunk::appended(*old(self), *final(self),
                InstrModel { op: ByteCode::Closure, nums: Seq::empty(), handle: Some(function), names: Seq::empty(), upvalues: upvalues@ },
                line, column),
            Chunk::pushed(*old(self), *final(self)) == seq![function],
    {
        self.write_byte(ByteCode::Closure.to_byte(), line, column);
        self.write_constant_index(function, line, column);
        self.write_byte(upvalues.len() as u8, line, column);
        let ghost start = *self;
        let mut k: usize = 0;
        while k < upvalues.len()
            invariant
                k <= upvalues@.len(),
                self.codes@ == start.codes@ + upvalue_bytes(upvalues@.subrange(0, k as int)),
                self.lines@ == start.lines@ + fill(2 * k as nat, line),
                self.columns@ == start.columns@ + fill(2 * k as nat, column),
                self.constants@ == start.constants@,
            decreases upvalues@.len() - k,
        {
            let u = upvalues[k];
            let local: u8 = if u.is_local { 1u8 } else { 0u8 };
            self.write_byte(local, line, column);
            self.write_byte(u.index as u8, line, column);
            proof {
                let sub = upvalues@.subrange(0, k + 1);
                assert(sub.drop_last() =~= upvalues@.subrange(0, k as int));
                assert(sub.last() == u);
                assert(self.lines@ =~= start.lines@ + fill(2 * (k + 1) as nat, line));
                assert(self.columns@ =~= start.columns@ + fill(2 * (k + 1) as nat, column));
            }
            k = k + 1;
        }
        proof {
            let m = InstrModel { op: ByteCode::Closure, nums: Seq::empty(), handle: Some(function), names: Seq::empty(), upvalues: upvalues@ };
            assert(upvalues@.subrange(0, upvalues@.len() as int) =~= upvalues@);
            lemma_upvalue_bytes_len(upvalues@);
            assert(self.codes@ =~= old(self).codes@ + encode(m, old(self).constants@.len() as int));
            let len = encode(m, old(self).constants@.len() as int).len();
            assert(self.lines@ =~= old(self).lines@ + fill(len, line));
            assert(self.columns@ =~= old(self).columns@ + fill(len, column));
            assert(self.constants@.subrange(0, old(self).constants@.len() as int) =~= old(self).constants@);
            assert(Chunk::pushed(*old(self), *self) =~= seq![function]);
        }
    }

    fn emit_keywords(&mut self, pos: usize, kw: usize, names: &Vec<String>, line: usize, column: usize, heap: &mut ObjectHeap)
        requires
            pos < 256,
            kw < 256,
            names@.len() == kw,
            old(self).constants@.len() + kw <= 65536,
            old(heap).wf(),
        ensures
            final(heap).wf(),
            ObjectHeap::only_adds(old(heap), final(heap)),
            Chunk::appended(*old(self), *final(self),
                InstrModel { op: ByteCode::CallKw, nums: seq![pos as int, kw as int], handle: None, names: names_view(names@), upvalues: Seq::empty() },
                line, column),
            consts_hold(
                InstrModel { op: ByteCode::CallKw, nums: seq![pos as int, kw as int], handle: None, names: names_view(names@), upvalues: Seq::empty() },
                Chunk::pushed(*old(self), *final(self)), final(heap).objs()),
    {
        self.write_byte(ByteCode::CallKw.to_byte(), line, column);
        self.write_byte(pos as u8, line, column);
        self.write_byte(kw as u8, line, column);
        let ghost start = *self;
        let ghost base = old(self).constants@.len() as int;
        let mut k: usize = 0;
        while k < names.len()
            invariant
                k <= names@.len(),
                names@.len() == kw,
                base == start.constants@.len(),
                base + kw <= 65536,
                heap.wf(),
                ObjectHeap::only_adds(old(heap), heap),
                self.codes@ == start.codes@ + index_bytes(base, k as nat),
                self.lines@ == start.lines@ + fill(2 * k as nat, line),
                self.columns@ == start.columns@ + fill(2 * k as nat, column),
                self.constants@.len() == base + k,
                self.constants@.subrange(0, base) == start.constants@,
                forall|j: int| 0 <= j < k ==> name_of(heap.objs(), #[trigger] self.constants@[base + j]) == Some(names@[j]@),
            decreases names@.len() - k,
        {
            let ghost before = *self;
            let ghost heap_before = *heap;
            self.write_name_index(&names[k], line, column, heap);
            proof {
                assert(self.codes@ =~= start.codes@ + index_bytes(base, (k + 1) as nat));
                assert(self.lines@ =~= start.lines@ + fill(2 * (k + 1) as nat, line));
                assert(self.columns@ =~= start.columns@ + fill(2 * (k + 1) as nat, column));
                assert(self.constants@.subrange(0, base) =~= start.constants@) by {
                    assert forall|j: int| 0 <= j < base implies self.constants@[j] == start.constants@[j] by {
                        assert(self.constants@[j] == self.constants@.subrange(0, before.constants@.len() as int)[j]);
                    }
                }
                assert forall|j: int| 0 <= j < k + 1 implies name_of(heap.objs(), #[trigger] self.constants@[base + j]) == Some(names@[j]@) by {
                    if j < k {
                        let h = before.constants@[base + j];
                        assert(self.constants@[base + j] == self.constants@.subrange(0, before.constants@.len() as int)[base + j]);
                        assert(name_of(heap_before.objs(), h) == Some(names@[j]@));
                        assert(heap.objs()[h.0 as int] == heap_before.objs()[h.0 as int]);
                    }
                }
                // only_adds is transitive
                assert forall|i: int| 0 <= i < old(heap).objs().len() && old(heap).objs()[i] is Some
                    implies #[trigger] heap.objs()[i] == old(heap).objs()[i] by {
                    assert(heap_before.objs()[i] == old(heap).objs()[i]);
                }
            }
            k = k + 1;
        }
        proof {
            let m = InstrModel { op: ByteCode::CallKw, nums: seq![pos as int, kw as int], handle: None, names: names_view(names@), upvalues: Seq::empty() };
            lemma_index_bytes_len(base, kw as nat);
            assert(self.codes@ =~= old(self).codes@ + encode(m, base));
            let len = encode(m, base).len();
            assert(self.lines@ =~= old(self).lines@ + fill(len, line));
            assert(self.columns@ =~= old(self).columns@ + fill(len, column));
            let pushed = Chunk::pushed(*old(self), *self);
            assert forall|j: int| 0 <= j < pushed.len() implies name_of(heap.objs(), #[trigger] pushed[j]) == Some(m.names[j]) by {
                assert(pushed[j] == self.constants@[base + j]);
            }
        }
    }
}

impl Chunk {
    /// Encode `inst` and append it, attributing its bytes to `line` and
    /// `column`.  Names are interned in `heap` as string objects and, like
    /// the objects of `Constant` and `Closure`, added to the constant pool.
    pub fn write_instruction(&mut self, inst: Instruction, line: usize, column: usize, heap: &mut ObjectHeap)
        requires
            old(heap).wf(),
            encodable(model(inst)),
            old(self).constants@.len() + const_count(model(inst)) <= 65536,
        ensures
            final(heap).wf(),
            ObjectHeap::only_adds(old(heap), final(heap)),
            Chunk::appended(*old(self), *final(self), model(inst), line, column),
            consts_hold(model(inst), Chunk::pushed(*old(self), *final(self)), final(heap).objs()),
    {
        match inst {
            Instruction::Return => self.emit_bare(ByteCode::Return, line, column),
            Instruction::Pop => self.emit_bare(ByteCode::Pop, line, column),
            Instruction::Nil => self.emit_bare(ByteCode::Nil, line, column),
            Instruction::True => self.emit_bare(ByteCode::True, line, column),
            Instruction::False => self.emit_bare(ByteCode::False, line, column),
            Instruction::Negate => self.emit_bare(ByteCode::Negate, line, column),
            Instruction::Not => self.emit_bare(ByteCode::Not, line, column),
            Instruction::Add => self.emit_bare(ByteCode::Add, line, column),
            Instruction::Sub => self.emit_bare(ByteCode::Sub, line, column),
            Instruction::Mul => self.emit_bare(ByteCode::Mul, line, column),
            Instruction::Div => self.emit_bare(ByteCode::Div, line, column),
            Instruction::Mod => self.emit_bare(ByteCode::Mod, line, column),
            Instruction::FloorDiv => self.emit_bare(ByteCode::FloorDiv, line, column),
            Instruction::Equal => self.emit_bare(ByteCode::Equal, line, column),
            Instruction::NotEqual => self.emit_bare(ByteCode::NotEqual, line, column),
            Instruction::Greater => self.emit_bare(ByteCode::Greater, line, column),
            Instruction::GreaterEqual => self.emit_bare(ByteCode::GreaterEqual, line, column),
            Instruction::Less => self.emit_bare(ByteCode::Less, line, column),
            Instruction::LessEqual => self.emit_bare(ByteCode::LessEqual, line, column),
            Instruction::CloseUpvalue => self.emit_bare(ByteCode::CloseUpvalue, line, column),
            Instruction::Inherit => self.emit_bare(ByteCode::Inherit, line, column),
            Instruction::IndexGet => self.emit_bare(ByteCode::IndexGet, line, column),
            Instruction::IndexSet => self.emit_bare(ByteCode::IndexSet, line, column),
            Instruction::IterEnd => self.emit_bare(ByteCode::IterEnd, line, column),
            Instruction::ForInIter => self.emit_bare(ByteCode::ForInIter, line, column),
            Instruction::GetLocal(n) => self.emit_short_op(ByteCode::GetLocal, n, line, column),
            Instruction::SetLocal(n) => self.emit_short_op(ByteCode::SetLocal, n, line, column),
            Instruction::JumpIfFalse(n) => self.emit_short_op(ByteCode::JumpIfFalse, n, line, column),
            Instruction::Jump(n) => self.emit_short_op(ByteCode::Jump, n, line, column),
            Instruction::Loop(n) => self.emit_short_op(ByteCode::Loop, n, line, column),
            Instruction::BuildList(n) => self.emit_short_op(ByteCode::BuildList, n, line, column),
            Instruction::BuildDict(n) => self.emit_short_op(ByteCode::BuildDict, n, line, column),
            Instruction::BuildSet(n) => self.emit_short_op(ByteCode::BuildSet, n, line, column),
            Instruction::ForInNext(n) => self.emit_short_op(ByteCode::ForInNext, n, line, column),
            Instruction::Call(n) => self.emit_byte_op(ByteCode::Call, n, line, column),
            Instruction::GetUpvalue(n) => self.emit_byte_op(ByteCode::GetUpvalue, n, line, column),
            Instruction::SetUpvalue(n) => self.emit_byte_op(ByteCode::SetUpvalue, n, line, column),
            Instruction::Constant(h) => self.emit_constant(h, line, column),
            Instruction::DefineGlobal(s) => self.emit_name(ByteCode::DefineGlobal, &s, line, column, heap),
            Instruction::GetGlobal(s) => self.emit_name(ByteCode::GetGlobal, &s, line, column, heap),
            Instruction::SetGlobal(s) => self.emit_name(ByteCode::SetGlobal, &s, line, column, heap),
            Instruction::Class(s) => self.emit_name(ByteCode::Class, &s, line, column, heap),
            Instruction::SetProperty(s) => self.emit_name(ByteCode::SetProperty, &s, line, column, heap),
            Instruction::GetProperty(s) => self.emit_name(ByteCode::GetProperty, &s, line, column, heap),
            Instruction::Method(s) => self.emit_name(ByteCode::Method, &s, line, column, heap),
            Instruction::Import(s) => self.emit_name(ByteCode::Import, &s, line, column, heap),
            Instruction::Invoke(s, n) => self.emit_name_byte(ByteCode::Invoke, &s, n, line, column, heap),
            Instruction::SuperInvoke(s, n) => self.emit_name_byte(ByteCode::SuperInvoke, &s, n, line, column, heap),
            Instruction::Closure { function, upvalues } => self.emit_closure(function, &upvalues, line, column),
            Instruction::CallKw { pos_count, kw_count, kw_names } => self.emit_keywords(pos_count, kw_count, &kw_names, line, column, heap),
        }
    }
}

proof fn lemma_upvalues_err(codes: Seq<u8>, ip: int, k: nat, n: nat)
    requires
        k <= n,
        read_upvalues(codes, ip, k) is Err,
    ensures
        read_upvalues(codes, ip, n) == read_upvalues(codes, ip, k),
    decreases n,
{
    if k < n {
        lemma_upvalues_err(codes, ip, k, (n - 1) as nat);
    }
}

proof fn lemma_names_err(codes: Seq<u8>, consts: Seq<ObjectHandle>, objs: Seq<Option<Object>>, ip: int, k: nat, n: nat)
    requires
        k <= n,
        read_names(codes, consts, objs, ip, k) is Err,
    ensures
        read_names(codes, consts, objs, ip, n) == read_names(codes, consts, objs, ip, k),
    decreases n,
{
    if k < n {
        lemma_names_err(codes, consts, objs, ip, k, (n - 1) as nat);
    }
}

impl Chunk {
    fn read_byte(&self, ip: &mut usize) -> (r: Result<u8, ChunkError>)
        ensures
            match read_u8(self.codes@, *old(ip) as int) {
                Ok((b, next)) => r == Ok::<u8, ChunkError>(b) && *final(ip) == next,
                Err((e, at)) => r == Err::<u8, ChunkError>(e) && *final(ip) == at,
            },
    {
        if *ip < self.codes.len() {
            let b = self.codes[*ip];
            *ip = *ip + 1;
            Ok(b)
        } else {
            Err(ChunkError::IpOutOfRange(*ip, self.codes.len()))
        }
    }

    fn read_short(&self, ip: &mut usize) -> (r: Result<usize, ChunkError>)
        ensures
            match read_u16(self.codes@, *old(ip) as int) {
                Ok((n, next)) => r == Ok::<usize, ChunkError>(n as usize) && n < 65536 && *final(ip) == next,
                Err((e, at)) => r == Err::<usize, ChunkError>(e) && *final(ip) == at,
            },
    {
        let lo = match self.read_byte(ip) {
            Ok(b) => b,
            Err(e) => return Err(e),
        };
        let hi = match self.read_byte(ip) {
            Ok(b) => b,
            Err(e) => return Err(e),
        };
        Ok(lo as usize + 256 * (hi as usize))
    }

    fn read_constant(&self, ip: &mut usize) -> (r: Result<ObjectHandle, ChunkError>)
        ensures
            match read_const(self.codes@, self.constants@, *old(ip) as int) {
                Ok((h, next)) => r == Ok::<ObjectHandle, ChunkError>(h) && *final(ip) == next,
                Err((e, at)) => r == Err::<ObjectHandle, ChunkError>(e) && *final(ip) == at,
            },
    {
        let index = match self.read_short(ip) {
            Ok(i) => i,
            Err(e) => return Err(e),
        };
        if index < self.constants.len() {
            Ok(self.constants[index])
        } else {
            Err(ChunkError::ConstantOutOfRange(index, self.constants.len()))
        }
    }

    fn read_name(&self, ip: &mut usize, heap: &ObjectHeap) -> (r: Result<String, ChunkError>)
        ensures
            match read_name(self.codes@, self.constants@, heap.objs(), *old(ip) as int) {
                Ok((name, next)) => r matches Ok(s) && s@ == name && *final(ip) == next,
                Err((e, at)) => r == Err::<String, ChunkError>(e) && *final(ip) == at,
            },
    {
        let h = match self.read_constant(ip) {
            Ok(h) => h,
            Err(e) => return Err(e),
        };
        match heap.get_string_instance(h) {
            Some(s) => Ok(s.clone()),
            None => Err(ChunkError::ExpectedStringConstant),
        }
    }

    fn read_name_byte(&self, ip: &mut usize, heap: &ObjectHeap) -> (r: Result<(String, usize), ChunkError>)
        ensures
            match read_name(self.codes@, self.constants@, heap.objs(), *old(ip) as int) {
                Ok((name, ip1)) => match read_u8(self.codes@, ip1) {
                    Ok((n, next)) => r matches Ok((s, k)) && s@ == name && k == n && *final(ip) == next,
                    Err((e, at)) => r == Err::<(String, usize), ChunkError>(e) && *final(ip) == at,
                },
                Err((e, at)) => r == Err::<(String, usize), ChunkError>(e) && *final(ip) == at,
            },
    {
        let s = match self.read_name(ip, heap) {
            Ok(s) => s,
            Err(e) => return Err(e),
        };
        match self.read_byte(ip) {
            Ok(n) => Ok((s, n as usize)),
            Err(e) => Err(e),
        }
    }

    fn read_upvalue_list(&self, ip: &mut usize, n: u8) -> (r: Result<Vec<UpvalueDesc>, ChunkError>)
        ensures
            match read_upvalues(self.codes@, *old(ip) as int, n as nat) {
                Ok((ups, next)) => r matches Ok(v) && v@ == ups && *final(ip) == next,
                Err((e, at)) => r == Err::<Vec<UpvalueDesc>, ChunkError>(e) && *final(ip) == at,
            },
    {
        let ghost start = *ip as int;
        let mut ups: Vec<UpvalueDesc> = Vec::new();
        let mut k: u8 = 0;
        while k < n
            invariant
                k <= n,
                start == *old(ip) as int,
                read_upvalues(self.codes@, start, k as nat) == Ok::<(Seq<UpvalueDesc>, int), (ChunkError, int)>((ups@, *ip as int)),
            decreases n - k,
        {
            let ghost at_k = *ip as int;
            let local = match self.read_byte(ip) {
                Ok(b) => b,
                Err(e) => {
                    proof {
                        assert(read_upvalues(self.codes@, start, (k + 1) as nat)
                            == Err::<(Seq<UpvalueDesc>, int), (ChunkError, int)>((e, *ip as int)));
                        lemma_upvalues_err(self.codes@, start, (k + 1) as nat, n as nat);
                    }
                    return Err(e);
                },
            };
            let index = match self.read_byte(ip) {
                Ok(b) => b,
                Err(e) => {
                    proof {
                        assert(read_u8(self.codes@, at_k) is Ok);
                        assert(read_upvalues(self.codes@, start, (k + 1) as nat)
                            == Err::<(Seq<UpvalueDesc>, int), (ChunkError, int)>((e, *ip as int)));
                        lemma_upvalues_err(self.codes@, start, (k + 1) as nat, n as nat);
                    }
                    return Err(e);
                },
            };
            ups.push(UpvalueDesc { is_local: local != 0, index: index as usize });
            k = k + 1;
        }
        Ok(ups)
    }

    fn read_name_list(&self, ip: &mut usize, n: u8, heap: &ObjectHeap) -> (r: Result<Vec<String>, ChunkError>)
        ensures
            match read_names(self.codes@, self.constants@, heap.objs(), *old(ip) as int, n as nat) {
                Ok((names, next)) => r matches Ok(v) && names_view(v@) == names && *final(ip) == next,
                Err((e, at)) => r == Err::<Vec<String>, ChunkError>(e) && *final(ip) == at,
            },
    {
        let ghost start = *ip as int;
        let mut names: Vec<String> = Vec::new();
        proof {
            assert(names_view(names@) =~= Seq::<Seq<char>>::empty());
        }
        let mut k: u8 = 0;
        while k < n
            invariant
                k <= n,
                start == *old(ip) as int,
                read_names(self.codes@, self.constants@, heap.objs(), start, k as nat)
                    == Ok::<(Seq<Seq<char>>, int), (ChunkError, int)>((names_view(names@), *ip as int)),
            decreases n - k,
        {
            let s = match self.read_name(ip, heap) {
                Ok(s) => s,
                Err(e) => {
                    proof {
                        assert(read_names(self.codes@, self.constants@, heap.objs(), start, (k + 1) as nat)
                            == Err::<(Seq<Seq<char>>, int), (ChunkError, int)>((e, *ip as int)));
                        lemma_names_err(self.codes@, self.constants@, heap.objs(), start, (k + 1) as nat, n as nat);
                    }
                    return Err(e);
                },
            };
            let ghost before = names@;
            names.push(s);
            proof {
                assert(names_view(names@) =~= names_view(before).push(s@));
            }
            k = k + 1;
        }
        Ok(names)
    }
}

impl Chunk {
    fn read_closure(&self, ip: &mut usize) -> (r: Result<(ObjectHandle, Vec<UpvalueDesc>), ChunkError>)
        ensures
            match read_const(self.codes@, self.constants@, *old(ip) as int) {
                Err((e, at)) => r == Err::<(ObjectHandle, Vec<UpvalueDesc>), ChunkError>(e) && *final(ip) == at,
                Ok((h, ip2)) => match read_u8(self.codes@, ip2) {
                    Err((e, at)) => r == Err::<(ObjectHandle, Vec<UpvalueDesc>), ChunkError>(e) && *final(ip) == at,
                    Ok((count, ip3)) => match read_upvalues(self.codes@, ip3, count as nat) {
                        Err((e, at)) => r == Err::<(ObjectHandle, Vec<UpvalueDesc>), ChunkError>(e) && *final(ip) == at,
                        Ok((ups, next)) => r matches Ok((f, v)) && f == h && v@ == ups && *final(ip) == next,
                    },
                },
            },
    {
        let function = match self.read_constant(ip) {
            Ok(h) => h,
            Err(e) => return Err(e),
        };
        let count = match self.read_byte(ip) {
            Ok(n) => n,
            Err(e) => return Err(e),
        };
        match self.read_upvalue_list(ip, count) {
            Ok(upvalues) => Ok((function, upvalues)),
            Err(e) => Err(e),
        }
    }

    fn read_keywords(&self, ip: &mut usize, heap: &ObjectHeap) -> (r: Result<(usize, usize, Vec<String>), ChunkError>)
        ensures
            match read_u8(self.codes@, *old(ip) as int) {
                Err((e, at)) => r == Err::<(usize, usize, Vec<String>), ChunkError>(e) && *final(ip) == at,
                Ok((pos, ip2)) => match read_u8(self.codes@, ip2) {
                    Err((e, at)) => r == Err::<(usize, usize, Vec<String>), ChunkError>(e) && *final(ip) == at,
                    Ok((kw, ip3)) => match read_names(self.codes@, self.constants@, heap.objs(), ip3, kw as nat) {
                        Err((e, at)) => r == Err::<(usize, usize, Vec<String>), ChunkError>(e) && *final(ip) == at,
                        Ok((names, next)) => r matches Ok((p, k, v)) && p == pos && k == kw
                            && names_view(v@) == names && *final(ip) == next,
                    },
                },
            },
    {
        let pos = match self.read_byte(ip) {
            Ok(n) => n,
            Err(e) => return Err(e),
        };
        let kw = match self.read_byte(ip) {
            Ok(n) => n,
            Err(e) => return Err(e),
        };
        match self.read_name_list(ip, kw, heap) {
            Ok(names) => Ok((pos as usize, kw as usize, names)),
            Err(e) => Err(e),
        }
    }

    /// Decode the instruction at `ip` and move `ip` past it.  Name
    /// operands are read from the string objects of `heap`.  On an error
    /// `ip` stays where the failing read stopped.
    pub fn read_instruction(&self, ip: &mut usize, heap: &ObjectHeap) -> (r: Result<Instruction, ChunkError>)
        ensures
            match decode(self.codes@, self.constants@, heap.objs(), *old(ip) as int) {
                Ok((m, next)) => r matches Ok(inst) && model(inst) == m && *final(ip) == next,
                Err((e, at)) => r == Err::<Instruction, ChunkError>(e) && *final(ip) == at,
            },
    {
        let b = match self.read_byte(ip) {
            Ok(b) => b,
            Err(e) => return Err(e),
        };
        let op = match ByteCode::from_byte(b) {
            Some(op) => op,
            None => return Err(ChunkError::InvalidByteCode(b)),
        };
        match op {
            ByteCode::Return => Ok(Instruction::Return),
            ByteCode::Pop => Ok(Instruction::Pop),
            ByteCode::Nil => Ok(Instruction::Nil),
            ByteCode::True => Ok(Instruction::True),
            ByteCode::False => Ok(Instruction::False),
            ByteCode::Negate => Ok(Instruction::Negate),
            ByteCode::Not => Ok(Instruction::Not),
            ByteCode::Add => Ok(Instruction::Add),
            ByteCode::Sub => Ok(Instruction::Sub),
            ByteCode::Mul => Ok(Instruction::Mul),
            ByteCode::Div => Ok(Instruction::Div),
            ByteCode::Mod => Ok(Instruction::Mod),
            ByteCode::FloorDiv => Ok(Instruction::FloorDiv),
            ByteCode::Equal => Ok(Instruction::Equal),
            ByteCode::NotEqual => Ok(Instruction::NotEqual),
            ByteCode::Greater => Ok(Instruction::Greater),
            ByteCode::GreaterEqual => Ok(Instruction::GreaterEqual),
            ByteCode::Less => Ok(Instruction::Less),
            ByteCode::LessEqual => Ok(Instruction::LessEqual),
            ByteCode::CloseUpvalue => Ok(Instruction::CloseUpvalue),
            ByteCode::Inherit => Ok(Instruction::Inherit),
            ByteCode::IndexGet => Ok(Instruction::IndexGet),
            ByteCode::IndexSet => Ok(Instruction::IndexSet),
            ByteCode::IterEnd => Ok(Instruction::IterEnd),
            ByteCode::ForInIter => Ok(Instruction::ForInIter),
            ByteCode::GetLocal => match self.read_short(ip) {
                Ok(n) => Ok(Instruction::GetLocal(n)),
                Err(e) => Err(e),
            },
            ByteCode::SetLocal => match self.read_short(ip) {
                Ok(n) => Ok(Instruction::SetLocal(n)),
                Err(e) => Err(e),
            },
            ByteCode::JumpIfFalse => match self.read_short(ip) {
                Ok(n) => Ok(Instruction::JumpIfFalse(n)),
                Err(e) => Err(e),
            },
            ByteCode::Jump => match self.read_short(ip) {
                Ok(n) => Ok(Instruction::Jump(n)),
                Err(e) => Err(e),
            },
            ByteCode::Loop => match self.read_short(ip) {
                Ok(n) => Ok(Instruction::Loop(n)),
                Err(e) => Err(e),
            },
            ByteCode::BuildList => match self.read_short(ip) {
                Ok(n) => Ok(Instruction::BuildList(n)),
                Err(e) => Err(e),
            },
            ByteCode::BuildDict => match self.read_short(ip) {
                Ok(n) => Ok(Instruction::BuildDict(n)),
                Err(e) => Err(e),
            },
            ByteCode::BuildSet => match self.read_short(ip) {
                Ok(n) => Ok(Instruction::BuildSet(n)),
                Err(e) => Err(e),
            },
            ByteCode::ForInNext => match self.read_short(ip) {
                Ok(n) => Ok(Instruction::ForInNext(n)),
                Err(e) => Err(e),
            },
            ByteCode::Call => match self.read_byte(ip) {
                Ok(n) => Ok(Instruction::Call(n as usize)),
                Err(e) => Err(e),
            },
            ByteCode::GetUpvalue => match self.read_byte(ip) {
                Ok(n) => Ok(Instruction::GetUpvalue(n as usize)),
                Err(e) => Err(e),
            },
            ByteCode::SetUpvalue => match self.read_byte(ip) {
                Ok(n) => Ok(Instruction::SetUpvalue(n as usize)),
                Err(e) => Err(e),
            },
            ByteCode::Constant => match self.read_constant(ip) {
                Ok(h) => Ok(Instruction::Constant(h)),
                Err(e) => Err(e),
            },
            ByteCode::DefineGlobal => match self.read_name(ip, heap) {
                Ok(s) => Ok(Instruction::DefineGlobal(s)),
                Err(e) => Err(e),
            },
            ByteCode::GetGlobal => match self.read_name(ip, heap) {
                Ok(s) => Ok(Instruction::GetGlobal(s)),
                Err(e) => Err(e),
            },
            ByteCode::SetGlobal => match self.read_name(ip, heap) {
                Ok(s) => Ok(Instruction::SetGlobal(s)),
                Err(e) => Err(e),
            },
            ByteCode::Class => match self.read_name(ip, heap) {
                Ok(s) => Ok(Instruction::Class(s)),
                Err(e) => Err(e),
            },
            ByteCode::SetProperty => match self.read_name(ip, heap) {
                Ok(s) => Ok(Instruction::SetProperty(s)),
                Err(e) => Err(e),
            },
            ByteCode::GetProperty => match self.read_name(ip, heap) {
                Ok(s) => Ok(Instruction::GetProperty(s)),
                Err(e) => Err(e),
            },
            ByteCode::Method => match self.read_name(ip, heap) {
                Ok(s) => Ok(Instruction::Method(s)),
                Err(e) => Err(e),
            },
            ByteCode::Import => match self.read_name(ip, heap) {
                Ok(s) => Ok(Instruction::Import(s)),
                Err(e) => Err(e),
            },
            ByteCode::Invoke => match self.read_name_byte(ip, heap) {
                Ok((s, n)) => Ok(Instruction::Invoke(s, n)),
                Err(e) => Err(e),
            },
            ByteCode::SuperInvoke => match self.read_name_byte(ip, heap) {
                Ok((s, n)) => Ok(Instruction::SuperInvoke(s, n)),
                Err(e) => Err(e),
            },
            ByteCode::Closure => match self.read_closure(ip) {
                Ok((function, upvalues)) => Ok(Instruction::Closure { function, upvalues }),
                Err(e) => Err(e),
            },
            ByteCode::CallKw => match self.read_keywords(ip, heap) {
                Ok((pos_count, kw_count, kw_names)) => Ok(Instruction::CallKw { pos_count, kw_count, kw_names }),
                Err(e) => Err(e),
            },
        }
    }
}

impl Chunk {
    /// Reading at the end of a chunk, once `write_instruction` has appended
    /// an instruction there, gives the instruction back and stops at the
    /// new end, as long as the names it interned are still held.
    pub proof fn lemma_write_then_read(old_c: Chunk, new_c: Chunk, inst: Instruction, line: usize, column: usize, objs: Seq<Option<Object>>)
        requires
            encodable(model(inst)),
            old_c.constants@.len() + const_count(model(inst)) <= 65536,
            Chunk::appended(old_c, new_c, model(inst), line, column),
            consts_hold(model(inst), Chunk::pushed(old_c, new_c), objs),
        ensures
            decode(new_c.codes@, new_c.constants@, objs, old_c.codes@.len() as int)
                == Ok::<(InstrModel, int), (ChunkError, int)>((model(inst), new_c.codes@.len() as int)),
    {
        let base = old_c.constants@.len() as int;
        let bytes = encode(model(inst), base);
        let ip = old_c.codes@.len() as int;
        assert(new_c.codes@.subrange(ip, ip + bytes.len()) =~= bytes);
        assert(new_c.constants@.subrange(base, base + const_count(model(inst))) == Chunk::pushed(old_c, new_c));
        lemma_decode_encode(inst, base, new_c.codes@, ip, new_c.constants@, objs);
    }
}

} // verus!
