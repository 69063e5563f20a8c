use vstd::prelude::*;

use crate::chunk::{Chunk, ChunkError, InstrModel, const_count, consts_hold, decode, encodable, encode, model, name_of};
use crate::heap::ObjectHeap;
use crate::instruct::Instruction;
use crate::object::{Object, ObjectHandle};

verus! {

// ========================================================================== //
//                    Code as a sequence of instructions
// ========================================================================== //

/// The bytes of `prog`: each instruction, with the index its constants
/// start at, encoded one after the other.
pub open spec fn encode_all(prog: Seq<(Instruction, int)>) -> Seq<u8>
    decreases prog.len(),
{
    if prog.len() == 0 {
        Seq::empty()
    } else {
        encode_all(prog.drop_last()) + encode(model(prog.last().0), prog.last().1)
    }
}

/// The index of the pool where the constants of instruction `k` start:
/// after those of the instructions before it.
pub open spec fn base_at(prog: Seq<(Instruction, int)>, k: int) -> int
    decreases k,
{
    if k <= 0 {
        0
    } else {
        base_at(prog, k - 1) + const_count(model(prog[k - 1].0))
    }
}

/// Where instruction `k` starts in the code.
pub open spec fn start_of(prog: Seq<(Instruction, int)>, k: int) -> int {
    encode_all(prog.take(k)).len() as int
}

/// `codes` and a pool of `n` constants are exactly `prog`: its encodable
/// instructions one after the other, each using the constants after those
/// of the instructions before it.
#[verifier::opaque]
pub open spec fn laid_out(prog: Seq<(Instruction, int)>, codes: Seq<u8>, n: int) -> bool {
    &&& codes == encode_all(prog)
    &&& forall|k: int| 0 <= k < prog.len() ==> encodable(model(#[trigger] prog[k].0))
    &&& forall|k: int| 0 <= k < prog.len() ==> #[trigger] prog[k].1 == base_at(prog, k)
    &&& base_at(prog, prog.len() as int) == n
}

/// The constants of every instruction of `prog` are the ones it needs.
#[verifier::opaque]
pub open spec fn names_hold(prog: Seq<(Instruction, int)>, consts: Seq<ObjectHandle>, objs: Seq<Option<Object>>) -> bool {
    forall|k: int| 0 <= k < prog.len() ==> consts_hold(
        model(#[trigger] prog[k].0),
        consts.subrange(prog[k].1, prog[k].1 + const_count(model(prog[k].0))),
        objs,
    )
}

/// A forward jump whose offset is filled in later.
pub open spec fn is_forward_jump(inst: Instruction) -> bool {
    ||| inst matches Instruction::Jump(_)
    ||| inst matches Instruction::JumpIfFalse(_)
    ||| inst matches Instruction::ForInNext(_)
}

/// Is `addr` the operand of a forward jump of `prog`?
pub open spec fn jump_site(prog: Seq<(Instruction, int)>, addr: int) -> bool {
    exists|k: int| 0 <= k < prog.len() && #[trigger] start_of(prog, k) + 1 == addr && is_forward_jump(prog[k].0)
}

/// The same forward jump with another offset.
pub open spec fn with_offset(inst: Instruction, off: usize) -> Instruction {
    match inst {
        Instruction::Jump(_) => Instruction::Jump(off),
        Instruction::JumpIfFalse(_) => Instruction::JumpIfFalse(off),
        _ => Instruction::ForInNext(off),
    }
}

/// Every jump site of `a` is one of `b`.
pub open spec fn keeps_sites(a: Seq<(Instruction, int)>, b: Seq<(Instruction, int)>) -> bool {
    forall|addr: int| #[trigger] jump_site(a, addr) ==> jump_site(b, addr)
}

/// Decoding a chunk laid out as `prog` from the start of any of its
/// instructions gives that instruction and moves to the start of the next.
pub open spec fn decodes_as(chunk: Chunk, objs: Seq<Option<Object>>, prog: Seq<(Instruction, int)>) -> bool {
    forall|k: int| 0 <= k < prog.len() ==> #[trigger] decode(chunk.codes@, chunk.constants@, objs, start_of(prog, k))
        == Ok::<(InstrModel, int), (ChunkError, int)>((model(prog[k].0), start_of(prog, k + 1)))
}

// ========================================================================== //
//                    Lemmas
// ========================================================================== //

/// The bytes of the first `k` instructions are a prefix of the bytes of
/// the first `j`.
proof fn lemma_encode_prefix(prog: Seq<(Instruction, int)>, k: int, j: int)
    requires
        0 <= k <= j <= prog.len(),
    ensures
        encode_all(prog.take(j)).subrange(0, encode_all(prog.take(k)).len() as int) == encode_all(prog.take(k)),
        encode_all(prog.take(k)).len() <= encode_all(prog.take(j)).len(),
    decreases j - k,
{
    if k < j {
        lemma_encode_prefix(prog, k, j - 1);
        assert(prog.take(j).drop_last() =~= prog.take(j - 1));
        let a = encode_all(prog.take(j - 1));
        let b = encode_all(prog.take(j));
        assert(b == a + encode(model(prog[j - 1].0), prog[j - 1].1));
        assert(b.subrange(0, a.len() as int) =~= a);
        let c = encode_all(prog.take(k));
        assert(b.subrange(0, c.len() as int) =~= a.subrange(0, c.len() as int));
    } else {
        assert(encode_all(prog.take(k)).subrange(0, encode_all(prog.take(k)).len() as int) =~= encode_all(prog.take(k)));
    }
}

/// Instruction `k` stands in the code between its start and the next.
proof fn lemma_encode_at(prog: Seq<(Instruction, int)>, k: int)
    requires
        0 <= k < prog.len(),
    ensures
        start_of(prog, k + 1) == start_of(prog, k) + encode(model(prog[k].0), prog[k].1).len(),
        start_of(prog, k + 1) <= encode_all(prog).len(),
        encode_all(prog).subrange(start_of(prog, k), start_of(prog, k + 1)) == encode(model(prog[k].0), prog[k].1),
{
    assert(prog.take(k + 1).drop_last() =~= prog.take(k));
    assert(prog.take(k + 1).last() == prog[k]);
    lemma_encode_prefix(prog, k + 1, prog.len() as int);
    assert(prog.take(prog.len() as int) =~= prog);
    let whole = encode_all(prog);
    let upto = encode_all(prog.take(k + 1));
    let before = encode_all(prog.take(k));
    let e = encode(model(prog[k].0), prog[k].1);
    assert(upto == before + e);
    assert(whole.subrange(start_of(prog, k), start_of(prog, k + 1))
        =~= upto.subrange(before.len() as int, upto.len() as int));
    assert(upto.subrange(before.len() as int, upto.len() as int) =~= e);
}

/// Code laid out as `prog` ends where the last instruction ends.
pub(crate) proof fn lemma_end_start(prog: Seq<(Instruction, int)>, codes: Seq<u8>, n: int)
    requires
        laid_out(prog, codes, n),
    ensures
        start_of(prog, prog.len() as int) == codes.len(),
{
    reveal(laid_out);
    assert(prog.take(prog.len() as int) =~= prog);
}

/// Each instruction takes at least one byte, so later instructions start
/// later.
pub(crate) proof fn lemma_start_increases(prog: Seq<(Instruction, int)>, a: int, b: int)
    requires
        0 <= a < b <= prog.len(),
    ensures
        start_of(prog, a) < start_of(prog, b),
{
    lemma_encode_at(prog, a);
    lemma_encode_prefix(prog, a + 1, b);
}

/// Constant bases only grow.
proof fn lemma_base_grows(prog: Seq<(Instruction, int)>, k: int, j: int)
    requires
        0 <= k <= j,
    ensures
        base_at(prog, k) <= base_at(prog, j),
    decreases j - k,
{
    if k < j {
        lemma_base_grows(prog, k, j - 1);
    }
}

/// Bases depend on the instructions before only.
proof fn lemma_base_prefix(a: Seq<(Instruction, int)>, b: Seq<(Instruction, int)>, k: int)
    requires
        0 <= k <= a.len(),
        k <= b.len(),
        forall|j: int| 0 <= j < k ==> const_count(model(a[j].0)) == const_count(model(#[trigger] b[j].0)),
    ensures
        base_at(a, k) == base_at(b, k),
    decreases k,
{
    if k > 0 {
        lemma_base_prefix(a, b, k - 1);
    }
}

/// Decoding what a compiled chunk holds: from the start of each of its
/// instructions, the decoder reads that instruction back and moves to the
/// start of the next.
pub proof fn lemma_decode_program(chunk: Chunk, objs: Seq<Option<Object>>, prog: Seq<(Instruction, int)>)
    requires
        laid_out(prog, chunk.codes@, chunk.constants@.len() as int),
        names_hold(prog, chunk.constants@, objs),
        chunk.constants@.len() <= 65536,
    ensures
        decodes_as(chunk, objs, prog),
{
    reveal(laid_out);
    reveal(names_hold);
    assert forall|k: int| 0 <= k < prog.len() implies #[trigger] decode(chunk.codes@, chunk.constants@, objs, start_of(prog, k))
        == Ok::<(InstrModel, int), (ChunkError, int)>((model(prog[k].0), start_of(prog, k + 1))) by {
        lemma_encode_at(prog, k);
        lemma_base_grows(prog, k + 1, prog.len() as int);
        lemma_base_grows(prog, 0, k);
        assert(base_at(prog, k + 1) == prog[k].1 + const_count(model(prog[k].0)));
        crate::chunk::lemma_decode_encode(prog[k].0, prog[k].1, chunk.codes@, start_of(prog, k), chunk.constants@, objs);
    }
}

/// Appending an encoded instruction extends the layout.
pub(crate) proof fn lemma_laid_out_push(prog: Seq<(Instruction, int)>, codes: Seq<u8>, n: int, inst: Instruction)
    requires
        laid_out(prog, codes, n),
        encodable(model(inst)),
    ensures
        laid_out(prog.push((inst, n)), codes + encode(model(inst), n), n + const_count(model(inst))),
        forall|k: int| 0 <= k <= prog.len() ==> #[trigger] start_of(prog.push((inst, n)), k) == start_of(prog, k),
        start_of(prog.push((inst, n)), prog.len() as int) == codes.len(),
        keeps_sites(prog, prog.push((inst, n))),
{
    reveal(laid_out);
    let p2 = prog.push((inst, n));
    assert(p2.drop_last() =~= prog);
    assert forall|k: int| 0 <= k <= prog.len() implies #[trigger] start_of(p2, k) == start_of(prog, k) by {
        assert(p2.take(k) =~= prog.take(k));
    }
    assert(prog.take(prog.len() as int) =~= prog);
    lemma_base_prefix(prog, p2, prog.len() as int);
    assert forall|k: int| 0 <= k < p2.len() implies #[trigger] p2[k].1 == base_at(p2, k) by {
        if k < prog.len() {
            lemma_base_prefix(prog, p2, k);
        }
    }
    assert(base_at(p2, p2.len() as int) == base_at(p2, prog.len() as int) + const_count(model(inst)));
    assert forall|addr: int| #[trigger] jump_site(prog, addr) implies jump_site(p2, addr) by {
        let k = choose|k: int| 0 <= k < prog.len() && #[trigger] start_of(prog, k) + 1 == addr && is_forward_jump(prog[k].0);
        assert(start_of(p2, k) == start_of(prog, k));
        assert(p2[k] == prog[k]);
    }
}

/// The constants of earlier instructions stay what they need when the
/// pool and the heap only grow.
pub(crate) proof fn lemma_names_hold_grow(
    prog: Seq<(Instruction, int)>,
    consts: Seq<ObjectHandle>,
    consts2: Seq<ObjectHandle>,
    h1: &ObjectHeap,
    h2: &ObjectHeap,
)
    requires
        names_hold(prog, consts, h1.objs()),
        consts.len() <= consts2.len(),
        consts2.subrange(0, consts.len() as int) == consts,
        forall|k: int| 0 <= k < prog.len() ==> prog[k].1 + const_count(model(#[trigger] prog[k].0)) <= consts.len(),
        forall|k: int| 0 <= k < prog.len() ==> 0 <= #[trigger] prog[k].1,
        ObjectHeap::only_adds(h1, h2),
    ensures
        names_hold(prog, consts2, h2.objs()),
{
    reveal(names_hold);
    assert forall|k: int| 0 <= k < prog.len() implies consts_hold(
        model(#[trigger] prog[k].0),
        consts2.subrange(prog[k].1, prog[k].1 + const_count(model(prog[k].0))),
        h2.objs(),
    ) by {
        let m = model(prog[k].0);
        let lo = prog[k].1;
        let hi = lo + const_count(m);
        let pushed = consts.subrange(lo, hi);
        assert(consts2.subrange(lo, hi) =~= pushed) by {
            assert forall|j: int| 0 <= j < hi - lo implies consts2.subrange(lo, hi)[j] == pushed[j] by {
                assert(consts2[lo + j] == consts2.subrange(0, consts.len() as int)[lo + j]);
            }
        }
        assert(consts_hold(m, pushed, h1.objs()));
        assert forall|j: int| 0 <= j < pushed.len() && name_of(h1.objs(), #[trigger] pushed[j]) is Some
            implies name_of(h2.objs(), pushed[j]) == name_of(h1.objs(), pushed[j]) by {
            let h = pushed[j];
            assert(h1.objs()[h.0 as int] is Some);
            assert(h2.objs()[h.0 as int] == h1.objs()[h.0 as int]);
        }
    }
}

/// The code of `prog2`, which differs from `prog` only in the operand of
/// instruction `k`, is the code of `prog` with those two bytes changed.
proof fn lemma_patch_prefix(
    prog: Seq<(Instruction, int)>,
    prog2: Seq<(Instruction, int)>,
    k: int,
    lo: u8,
    hi: u8,
    j: int,
)
    requires
        0 <= k < prog.len(),
        prog2.len() == prog.len(),
        forall|i: int| 0 <= i < prog.len() && i != k ==> prog2[i] == prog[i],
        encode(model(prog2[k].0), prog2[k].1) == encode(model(prog[k].0), prog[k].1).update(1, lo).update(2, hi),
        encode(model(prog[k].0), prog[k].1).len() == 3,
        0 <= j <= prog.len(),
    ensures
        j <= k ==> encode_all(prog2.take(j)) == encode_all(prog.take(j)),
        j > k ==> encode_all(prog2.take(j))
            == encode_all(prog.take(j)).update(start_of(prog, k) + 1, lo).update(start_of(prog, k) + 2, hi),
        j > k ==> start_of(prog, k) + 3 <= encode_all(prog.take(j)).len(),
    decreases j,
{
    if j > 0 {
        lemma_patch_prefix(prog, prog2, k, lo, hi, j - 1);
        assert(prog.take(j).drop_last() =~= prog.take(j - 1));
        assert(prog2.take(j).drop_last() =~= prog2.take(j - 1));
        assert(prog.take(j).last() == prog[j - 1]);
        assert(prog2.take(j).last() == prog2[j - 1]);
        let a = encode_all(prog.take(j - 1));
        let a2 = encode_all(prog2.take(j - 1));
        let e = encode(model(prog[j - 1].0), prog[j - 1].1);
        let e2 = encode(model(prog2[j - 1].0), prog2[j - 1].1);
        assert(encode_all(prog.take(j)) == a + e);
        assert(encode_all(prog2.take(j)) == a2 + e2);
        if j - 1 == k {
            assert(start_of(prog, k) == a.len());
            assert(a2 + e2 =~= (a + e).update(a.len() + 1int, lo).update(a.len() + 2int, hi));
        } else if j - 1 > k {
            let s = start_of(prog, k);
            assert(a2 + e2 =~= (a + e).update(s + 1, lo).update(s + 2, hi));
        }
    } else {
        assert(prog.take(0) =~= Seq::<(Instruction, int)>::empty());
        assert(prog2.take(0) =~= Seq::<(Instruction, int)>::empty());
    }
}

/// The instruction `prog[k]` with the offset `off` filled in.
pub open spec fn patched(prog: Seq<(Instruction, int)>, k: int, off: usize) -> Seq<(Instruction, int)> {
    prog.update(k, (with_offset(prog[k].0, (off % 65536) as usize), prog[k].1))
}

/// The code of the patched program is the code with the two operand bytes
/// of the jump replaced, and every instruction starts where it did.
proof fn lemma_patch_code(prog: Seq<(Instruction, int)>, k: int, off: usize)
    requires
        0 <= k < prog.len(),
        is_forward_jump(prog[k].0),
    ensures
        start_of(prog, k) + 3 <= encode_all(prog).len(),
        encode_all(patched(prog, k, off)) == encode_all(prog)
            .update(start_of(prog, k) + 1, (off % 256) as u8)
            .update(start_of(prog, k) + 2, ((off / 256) % 256) as u8),
        forall|j: int| 0 <= j <= prog.len() ==> #[trigger] start_of(patched(prog, k, off), j) == start_of(prog, j),
{
    let x = (off % 65536) as usize;
    let inst2 = with_offset(prog[k].0, x);
    let prog2 = patched(prog, k, off);
    let lo = (off % 256) as u8;
    let hi = ((off / 256) % 256) as u8;
    let e = encode(model(prog[k].0), prog[k].1);
    let e2 = encode(model(inst2), prog[k].1);
    assert((x % 256) as u8 == lo && (x / 256) as u8 == hi) by {
        assert(x % 256 == off % 256) by (nonlinear_arith)
            requires x == off % 65536;
        assert(x / 256 == (off / 256) % 256) by (nonlinear_arith)
            requires x == off % 65536;
    }
    assert(e2 =~= e.update(1, lo).update(2, hi));
    assert forall|j: int| 0 <= j <= prog.len() implies #[trigger] start_of(prog2, j) == start_of(prog, j) by {
        lemma_patch_prefix(prog, prog2, k, lo, hi, j);
    }
    lemma_patch_prefix(prog, prog2, k, lo, hi, prog.len() as int);
    assert(prog.take(prog.len() as int) =~= prog);
    assert(prog2.take(prog2.len() as int) =~= prog2);
}

proof fn lemma_patch_layout(prog: Seq<(Instruction, int)>, k: int, off: usize)
    requires
        0 <= k < prog.len(),
        is_forward_jump(prog[k].0),
        forall|j: int| 0 <= j < prog.len() ==> encodable(model(#[trigger] prog[j].0)),
        forall|j: int| 0 <= j < prog.len() ==> #[trigger] prog[j].1 == base_at(prog, j),
    ensures
        forall|j: int| 0 <= j < prog.len() ==> encodable(model(#[trigger] patched(prog, k, off)[j].0)),
        forall|j: int| 0 <= j < prog.len() ==> #[trigger] patched(prog, k, off)[j].1 == base_at(patched(prog, k, off), j),
        base_at(patched(prog, k, off), prog.len() as int) == base_at(prog, prog.len() as int),
{
    let prog2 = patched(prog, k, off);
    assert forall|j: int| 0 <= j < prog2.len() implies encodable(model(#[trigger] prog2[j].0)) by {
        if j != k {
            assert(prog2[j] == prog[j]);
        }
    }
    assert forall|j: int| 0 <= j < prog2.len() implies #[trigger] prog2[j].1 == base_at(prog2, j) by {
        lemma_base_prefix(prog, prog2, j);
    }
    lemma_base_prefix(prog, prog2, prog.len() as int);
}

proof fn lemma_patch_sites(prog: Seq<(Instruction, int)>, k: int, off: usize)
    requires
        0 <= k < prog.len(),
        is_forward_jump(prog[k].0),
        forall|j: int| 0 <= j <= prog.len() ==> #[trigger] start_of(patched(prog, k, off), j) == start_of(prog, j),
    ensures
        keeps_sites(prog, patched(prog, k, off)),
{
    let prog2 = patched(prog, k, off);
    assert forall|addr2: int| #[trigger] jump_site(prog, addr2) implies jump_site(prog2, addr2) by {
        let i = choose|i: int| 0 <= i < prog.len() && #[trigger] start_of(prog, i) + 1 == addr2 && is_forward_jump(prog[i].0);
        assert(start_of(prog2, i) == start_of(prog, i));
    }
}

proof fn lemma_patch_names(prog: Seq<(Instruction, int)>, k: int, off: usize)
    requires
        0 <= k < prog.len(),
        is_forward_jump(prog[k].0),
    ensures
        forall|consts: Seq<ObjectHandle>, objs: Seq<Option<Object>>|
            #[trigger] names_hold(prog, consts, objs) ==> names_hold(patched(prog, k, off), consts, objs),
{
    reveal(names_hold);
    let prog2 = patched(prog, k, off);
    assert forall|consts: Seq<ObjectHandle>, objs: Seq<Option<Object>>|
        #[trigger] names_hold(prog, consts, objs) implies names_hold(prog2, consts, objs) by {
        assert forall|j: int| 0 <= j < prog2.len() implies consts_hold(
            model(#[trigger] prog2[j].0),
            consts.subrange(prog2[j].1, prog2[j].1 + const_count(model(prog2[j].0))),
            objs,
        ) by {
            if j != k {
                assert(prog2[j] == prog[j]);
            }
        }
    }
}

/// Filling in the offset of a forward jump keeps the layout, the starts of
/// the instructions, the jump sites and what the constants hold.
pub(crate) proof fn lemma_patch(prog: Seq<(Instruction, int)>, codes: Seq<u8>, n: int, k: int, off: usize)
    requires
        laid_out(prog, codes, n),
        0 <= k < prog.len(),
        is_forward_jump(prog[k].0),
    ensures
        start_of(prog, k) + 3 <= codes.len(),
        laid_out(patched(prog, k, off), codes
            .update(start_of(prog, k) + 1, (off % 256) as u8)
            .update(start_of(prog, k) + 2, ((off / 256) % 256) as u8), n),
        forall|j: int| 0 <= j <= prog.len() ==> #[trigger] start_of(patched(prog, k, off), j) == start_of(prog, j),
        keeps_sites(prog, patched(prog, k, off)),
        forall|consts: Seq<ObjectHandle>, objs: Seq<Option<Object>>|
            #[trigger] names_hold(prog, consts, objs) ==> names_hold(patched(prog, k, off), consts, objs),
{
    reveal(laid_out);
    lemma_patch_code(prog, k, off);
    lemma_patch_layout(prog, k, off);
    lemma_patch_sites(prog, k, off);
    lemma_patch_names(prog, k, off);
}

/// An empty chunk holds the empty program, whose constants hold in any heap.
pub(crate) proof fn lemma_laid_out_empty()
    ensures
        laid_out(Seq::empty(), Seq::empty(), 0),
        forall|consts: Seq<ObjectHandle>, objs: Seq<Option<Object>>| #[trigger] names_hold(Seq::empty(), consts, objs),
{
    reveal(laid_out);
    reveal(names_hold);
    assert(encode_all(Seq::<(Instruction, int)>::empty()) =~= Seq::<u8>::empty());
}

/// The constants of each instruction of a laid-out program lie inside its
/// pool.
pub(crate) proof fn lemma_laid_out_bounds(prog: Seq<(Instruction, int)>, codes: Seq<u8>, n: int)
    requires
        laid_out(prog, codes, n),
    ensures
        forall|k: int| 0 <= k < prog.len() ==> 0 <= #[trigger] prog[k].1 && prog[k].1 + const_count(model(prog[k].0)) <= n,
{
    reveal(laid_out);
    assert forall|k: int| 0 <= k < prog.len() implies 0 <= #[trigger] prog[k].1 && prog[k].1 + const_count(model(prog[k].0)) <= n by {
        lemma_base_grows(prog, 0, k);
        lemma_base_grows(prog, k + 1, prog.len() as int);
    }
}

/// An instruction whose constants are the ones it needs keeps the
/// constants of the program right when appended.
pub(crate) proof fn lemma_names_hold_push(
    prog: Seq<(Instruction, int)>,
    consts: Seq<ObjectHandle>,
    objs: Seq<Option<Object>>,
    inst: Instruction,
    n: int,
)
    requires
        names_hold(prog, consts, objs),
        consts_hold(model(inst), consts.subrange(n, n + const_count(model(inst))), objs),
    ensures
        names_hold(prog.push((inst, n)), consts, objs),
{
    reveal(names_hold);
    let p2 = prog.push((inst, n));
    assert forall|k: int| 0 <= k < p2.len() implies consts_hold(
        model(#[trigger] p2[k].0),
        consts.subrange(p2[k].1, p2[k].1 + const_count(model(p2[k].0))),
        objs,
    ) by {
        if k < prog.len() {
            assert(p2[k] == prog[k]);
        }
    }
}

/// A chunk holds whole instructions, one after the other, each using the
/// constants after those of the instructions before it, and the decoder
/// reads each of them back.
pub open spec fn well_compiled(chunk: Chunk, objs: Seq<Option<Object>>) -> bool {
    exists|prog: Seq<(Instruction, int)>| {
        &&& laid_out(prog, chunk.codes@, chunk.constants@.len() as int)
        &&& decodes_as(chunk, objs, prog)
    }
}

/// A function object of the heap whose chunk is well compiled.
pub open spec fn compiled_function(objs: Seq<Option<Object>>, h: ObjectHandle) -> bool {
    &&& h.0 < objs.len()
    &&& objs[h.0 as int] matches Some(Object::Function(f))
    &&& well_compiled(f.chunk, objs)
}

} // verus!
