//! Machine-code emission: translates an instruction sequence into x86-64
//! bytes for a fixed calling convention (the cursor lives in `rsi` for the
//! whole run). Backward branches are resolved as they are emitted; forward
//! branches get a placeholder displacement that a second pass overwrites
//! in place once the target's byte offset is known.

use vstd::prelude::*;
use vstd::arithmetic::div_mod::lemma_mod_multiples_vanish;
use vstd::pervasive::VecAdditionalExecFns;

use crate::brainfuck::{Inst, well_matched};

verus! {

/// Number of bytes the encoding of one instruction occupies.
pub open spec fn enc_len(inst: Inst) -> nat {
    match inst {
        Inst::IncPtr(a) => if a == 1 { 3 } else { 7 },
        Inst::DecPtr(a) => if a == 1 { 3 } else { 7 },
        Inst::IncVal(a) => if a == 1 { 2 } else { 3 },
        Inst::DecVal(a) => if a == 1 { 2 } else { 3 },
        Inst::PrintCell => 17,
        Inst::ReadChar => 13,
        Inst::JmpFwd(_) => 9,
        Inst::JmpBack(_) => 9,
    }
}

/// A 32-bit value as four little-endian bytes.
pub open spec fn le32(d: u32) -> Seq<u8> {
    seq![
        (d & 0xff) as u8,
        ((d >> 8) & 0xff) as u8,
        ((d >> 16) & 0xff) as u8,
        ((d >> 24) & 0xff) as u8,
    ]
}

/// Byte offset at which the encoding of instruction `i` starts, equal to
/// the summed encoding lengths of all earlier instructions.
pub open spec fn end_off(insts: Seq<Inst>, i: int) -> nat
    decreases i,
{
    if i <= 0 {
        0
    } else {
        end_off(insts, i - 1) + enc_len(insts[i - 1])
    }
}

/// Branch displacement stored for the jump at index `i` with logical target
/// `t`: the distance from the end of the jump's own encoding to the end of
/// the target's encoding, as a 32-bit two's-complement value.
pub open spec fn disp32(insts: Seq<Inst>, i: int, t: int) -> u32 {
    (((end_off(insts, t + 1) - end_off(insts, i + 1)) % 0x1_0000_0000) as u32)
}

/// Final encoding of the instruction at index `i`.
pub open spec fn enc_at(insts: Seq<Inst>, i: int) -> Seq<u8> {
    match insts[i] {
        Inst::IncPtr(a) => if a == 1 {
            seq![0x48u8, 0xffu8, 0xc6u8]
        } else {
            seq![0x48u8, 0x81u8, 0xc6u8] + le32(a as u32)
        },
        Inst::DecPtr(a) => if a == 1 {
            seq![0x48u8, 0xffu8, 0xceu8]
        } else {
            seq![0x48u8, 0x81u8, 0xeeu8] + le32(a as u32)
        },
        Inst::IncVal(a) => if a == 1 {
            seq![0xfeu8, 0x06u8]
        } else {
            seq![0x80u8, 0x06u8, a as u8]
        },
        Inst::DecVal(a) => if a == 1 {
            seq![0xfeu8, 0x0eu8]
        } else {
            seq![0x80u8, 0x2eu8, a as u8]
        },
        Inst::PrintCell => seq![
            0xb8u8, 0x01u8, 0x00u8, 0x00u8, 0x00u8,
            0xbfu8, 0x01u8, 0x00u8, 0x00u8, 0x00u8,
            0xbau8, 0x01u8, 0x00u8, 0x00u8, 0x00u8,
            0x0fu8, 0x05u8,
        ],
        Inst::ReadChar => seq![
            0x48u8, 0x31u8, 0xc0u8,
            0x48u8, 0x31u8, 0xffu8,
            0xbau8, 0x01u8, 0x00u8, 0x00u8, 0x00u8,
            0x0fu8, 0x05u8,
        ],
        Inst::JmpFwd(t) => seq![0x80u8, 0x3eu8, 0x00u8, 0x0fu8, 0x84u8] + le32(
            disp32(insts, i, t as int),
        ),
        Inst::JmpBack(t) => seq![0x80u8, 0x3eu8, 0x00u8, 0x0fu8, 0x85u8] + le32(
            disp32(insts, i, t as int),
        ),
    }
}

/// First-pass encoding of a forward jump: the same conditional-branch
/// opcode with the placeholder displacement that the patch pass replaces.
pub open spec fn enc_dummy_at(insts: Seq<Inst>, i: int) -> Seq<u8> {
    if insts[i] is JmpFwd {
        seq![0x80u8, 0x3eu8, 0x00u8, 0x0fu8, 0x84u8, 0x38u8, 0x41u8, 0x41u8, 0x41u8]
    } else {
        enc_at(insts, i)
    }
}

/// How many forward jumps occur before index `i`.
pub open spec fn n_fwd_before(insts: Seq<Inst>, i: int) -> nat
    decreases i,
{
    if i <= 0 {
        0
    } else {
        n_fwd_before(insts, i - 1) + (if insts[i - 1] is JmpFwd {
            1nat
        } else {
            0nat
        })
    }
}

/// Encoding of instruction `i` once the first `np` forward jumps have been
/// patched: patched forward jumps and all other instructions carry their
/// final bytes, the rest still carry the placeholder.
pub open spec fn enc_sel(insts: Seq<Inst>, i: int, np: nat) -> Seq<u8> {
    if insts[i] is JmpFwd && n_fwd_before(insts, i) >= np {
        enc_dummy_at(insts, i)
    } else {
        enc_at(insts, i)
    }
}

/// The buffer contents after emitting the first `i` instructions and
/// patching the first `np` forward jumps.
pub open spec fn code_sel(insts: Seq<Inst>, i: int, np: nat) -> Seq<u8>
    decreases i,
{
    if i <= 0 {
        Seq::empty()
    } else {
        code_sel(insts, i - 1, np) + enc_sel(insts, i - 1, np)
    }
}

/// The fully patched code for the first `i` instructions.
pub open spec fn code_upto(insts: Seq<Inst>, i: int) -> Seq<u8>
    decreases i,
{
    if i <= 0 {
        Seq::empty()
    } else {
        code_upto(insts, i - 1) + enc_at(insts, i - 1)
    }
}

/// The complete generated buffer: every instruction's final encoding in
/// order, then the trailing return instruction.
pub open spec fn jit_of(insts: Seq<Inst>) -> Seq<u8> {
    code_upto(insts, insts.len() as int).push(0xc3u8)
}

/// Indices of the forward jumps among the first `i` instructions, in order.
pub open spec fn fwd_idx(insts: Seq<Inst>, i: int) -> Seq<int>
    decreases i,
{
    if i <= 0 {
        Seq::empty()
    } else if insts[i - 1] is JmpFwd {
        fwd_idx(insts, i - 1).push(i - 1)
    } else {
        fwd_idx(insts, i - 1)
    }
}

proof fn lemma_enc_lens(insts: Seq<Inst>, i: int)
    ensures
        enc_at(insts, i).len() == enc_len(insts[i]),
        enc_dummy_at(insts, i).len() == enc_len(insts[i]),
        forall|np: nat| #[trigger] enc_sel(insts, i, np).len() == enc_len(insts[i]),
{
}

proof fn lemma_end_off_mono(insts: Seq<Inst>, a: int, b: int)
    requires
        a <= b,
    ensures
        end_off(insts, a) <= end_off(insts, b),
    decreases b - a,
{
    if a < b {
        lemma_end_off_mono(insts, a, b - 1);
    }
}

proof fn lemma_code_sel_len(insts: Seq<Inst>, i: int, np: nat)
    ensures
        code_sel(insts, i, np).len() == end_off(insts, i),
    decreases i,
{
    if i > 0 {
        lemma_code_sel_len(insts, i - 1, np);
        lemma_enc_lens(insts, i - 1);
    }
}

proof fn lemma_code_sel_index(insts: Seq<Inst>, i: int, np: nat, j: int, off: int)
    requires
        0 <= j < i,
        0 <= off < enc_len(insts[j]),
    ensures
        end_off(insts, j) + off < code_sel(insts, i, np).len(),
        code_sel(insts, i, np)[end_off(insts, j) + off] == enc_sel(insts, j, np)[off],
    decreases i,
{
    lemma_code_sel_len(insts, i, np);
    lemma_code_sel_len(insts, i - 1, np);
    lemma_enc_lens(insts, j);
    if j == i - 1 {
    } else {
        lemma_code_sel_index(insts, i - 1, np, j, off);
        lemma_end_off_mono(insts, j + 1, i - 1);
    }
}

proof fn lemma_code_sel_done(insts: Seq<Inst>, i: int, np: nat)
    requires
        np >= n_fwd_before(insts, i),
    ensures
        code_sel(insts, i, np) == code_upto(insts, i),
    decreases i,
{
    if i > 0 {
        lemma_code_sel_done(insts, i - 1, np);
    }
}

/// The forward-jump index list enumerates exactly the forward jumps, in
/// order; the rank of a forward jump is the number of forward jumps before
/// it, and the list inverts that rank.
proof fn lemma_fwd_idx(insts: Seq<Inst>, i: int)
    ensures
        fwd_idx(insts, i).len() == n_fwd_before(insts, i),
        forall|p: int|
            0 <= p < fwd_idx(insts, i).len() ==> {
                let j = #[trigger] fwd_idx(insts, i)[p];
                0 <= j < i && insts[j] is JmpFwd && n_fwd_before(insts, j) == p
            },
        forall|j: int|
            0 <= j < i && (#[trigger] insts[j]) is JmpFwd ==> n_fwd_before(insts, j)
                < n_fwd_before(insts, i) && fwd_idx(insts, i)[n_fwd_before(insts, j) as int] == j,
    decreases i,
{
    if i > 0 {
        lemma_fwd_idx(insts, i - 1);
    }
}

/// Which instruction the byte at offset `k` belongs to.
spec fn owner(insts: Seq<Inst>, i: int, k: int) -> int
    decreases i,
{
    if i <= 1 {
        0
    } else if k < end_off(insts, i - 1) {
        owner(insts, i - 1, k)
    } else {
        i - 1
    }
}

proof fn lemma_owner(insts: Seq<Inst>, i: int, k: int)
    requires
        0 <= k < end_off(insts, i),
    ensures
        0 <= owner(insts, i, k) < i,
        end_off(insts, owner(insts, i, k)) <= k,
        k < end_off(insts, owner(insts, i, k)) + enc_len(insts[owner(insts, i, k)]),
    decreases i,
{
    if i > 1 && k < end_off(insts, i - 1) {
        lemma_owner(insts, i - 1, k);
    }
}

/// Congruence for the wrapped displacement arithmetic: two wrapping
/// subtractions on 64-bit values leave the low 32 bits of the exact
/// difference unchanged.
proof fn lemma_wrap_mod(a: int, b: int, w1: int, w2: int)
    requires
        w1 == if a - b < 0 {
            a - b + 0x1_0000_0000_0000_0000
        } else {
            a - b
        },
        w2 == if w1 - 9 < 0 {
            w1 - 9 + 0x1_0000_0000_0000_0000
        } else {
            w1 - 9
        },
    ensures
        w2 % 0x1_0000_0000 == (a - b - 9) % 0x1_0000_0000,
{
    let d = a - b - 9;
    if w2 == d + 0x1_0000_0000_0000_0000 {
        lemma_mod_multiples_vanish(0x1_0000_0000, d, 0x1_0000_0000);
    } else if w2 == d + 0x2_0000_0000_0000_0000 {
        lemma_mod_multiples_vanish(0x2_0000_0000, d, 0x1_0000_0000);
    }
}

/// Pushes the four little-endian bytes of `d`.
fn push_le32(buf: &mut Vec<u8>, d: u32)
    ensures
        final(buf)@ == old(buf)@ + le32(d),
{
    let ghost b0 = buf@;
    buf.push(#[verifier::truncate] ((d & 0xff) as u8));
    buf.push(#[verifier::truncate] (((d >> 8) & 0xff) as u8));
    buf.push(#[verifier::truncate] (((d >> 16) & 0xff) as u8));
    buf.push(#[verifier::truncate] (((d >> 24) & 0xff) as u8));
    proof {
        assert(buf@ =~= b0 + le32(d));
    }
}

/// The 32-bit displacement from the byte right after a 9-byte jump whose
/// encoding starts at `site` to the byte at offset `target_end`.
fn disp_from(target_end: usize, site: usize) -> (d: u32)
    ensures
        d as int == (target_end - site - 9) % 0x1_0000_0000,
{
    let te: u64 = target_end as u64;
    let sl: u64 = site as u64;
    let w1: u64 = te.wrapping_sub(sl);
    let w2: u64 = w1.wrapping_sub(9);
    let m: u64 = w2 % 0x1_0000_0000;
    proof {
        lemma_wrap_mod(te as int, sl as int, w1 as int, w2 as int);
    }
    m as u32
}

/// After patching `p` forward jumps, overwriting the placeholder bytes of
/// the next one yields the state with `p + 1` forward jumps patched.
proof fn lemma_patch_step(insts: Seq<Inst>, p: nat, code0: Seq<u8>, code1: Seq<u8>, jp: int)
    requires
        p < n_fwd_before(insts, insts.len() as int),
        jp == fwd_idx(insts, insts.len() as int)[p as int],
        code0 == code_sel(insts, insts.len() as int, p),
        code1 == code0.update(end_off(insts, jp) as int + 5, enc_at(insts, jp)[5]).update(
            end_off(insts, jp) as int + 6,
            enc_at(insts, jp)[6],
        ).update(end_off(insts, jp) as int + 7, enc_at(insts, jp)[7]).update(
            end_off(insts, jp) as int + 8,
            enc_at(insts, jp)[8],
        ),
    ensures
        code1 == code_sel(insts, insts.len() as int, p + 1),
{
    let n = insts.len() as int;
    lemma_fwd_idx(insts, n);
    lemma_code_sel_len(insts, n, p);
    lemma_code_sel_len(insts, n, p + 1);
    assert(insts[jp] is JmpFwd && n_fwd_before(insts, jp) == p);
    lemma_enc_lens(insts, jp);
    assert(end_off(insts, jp + 1) == end_off(insts, jp) + 9);
    lemma_end_off_mono(insts, jp + 1, n);
    assert(code0.len() == end_off(insts, n));
    assert(code1.len() == end_off(insts, n));
    assert forall|k: int| 0 <= k < code1.len() implies code1[k] == code_sel(insts, n, p + 1)[k] by {
        lemma_owner(insts, n, k);
        let j = owner(insts, n, k);
        let off = k - end_off(insts, j);
        lemma_code_sel_index(insts, n, p, j, off);
        lemma_code_sel_index(insts, n, p + 1, j, off);
        lemma_enc_lens(insts, j);
        if j == jp {
            assert(enc_sel(insts, jp, p) == enc_dummy_at(insts, jp));
            assert(enc_sel(insts, jp, p + 1) == enc_at(insts, jp));
            if off < 5 {
                assert(enc_dummy_at(insts, jp)[off] == enc_at(insts, jp)[off]);
            }
        } else {
            if j < jp {
                assert(end_off(insts, j + 1) == end_off(insts, j) + enc_len(insts[j]));
                lemma_end_off_mono(insts, j + 1, jp);
                assert(k < end_off(insts, jp));
            } else {
                assert(end_off(insts, jp + 1) == end_off(insts, jp) + 9);
                lemma_end_off_mono(insts, jp + 1, j);
                assert(k >= end_off(insts, jp) + 9);
            }
            if insts[j] is JmpFwd {
                assert(n_fwd_before(insts, j) != p);
            }
            assert(enc_sel(insts, j, p) == enc_sel(insts, j, p + 1));
            assert(code1[k] == code0[k]);
        }
    }
    assert(code1 =~= code_sel(insts, n, p + 1));
}

/// Appends the encoding of a cursor move by `amount` cells upward.
fn emit_inc(buf: &mut Vec<u8>, amount: usize)
    ensures
        final(buf)@ == old(buf)@ + (if amount == 1 {
            seq![0x48u8, 0xffu8, 0xc6u8]
        } else {
            seq![0x48u8, 0x81u8, 0xc6u8] + le32(amount as u32)
        }),
{
    let ghost b0 = buf@;
    if amount == 1 {
        buf.push(0x48u8);
        buf.push(0xffu8);
        buf.push(0xc6u8);
        proof {
            assert(buf@ =~= b0 + seq![0x48u8, 0xffu8, 0xc6u8]);
        }
    } else {
        buf.push(0x48u8);
        buf.push(0x81u8);
        buf.push(0xc6u8);
        let d: u32 = #[verifier::truncate] (amount as u32);
        push_le32(buf, d);
        proof {
            assert(buf@ =~= b0 + (seq![0x48u8, 0x81u8, 0xc6u8] + le32(d)));
        }
    }
}

/// Appends the encoding of a cursor move by `amount` cells downward.
fn emit_dec(buf: &mut Vec<u8>, amount: usize)
    ensures
        final(buf)@ == old(buf)@ + (if amount == 1 {
            seq![0x48u8, 0xffu8, 0xceu8]
        } else {
            seq![0x48u8, 0x81u8, 0xeeu8] + le32(amount as u32)
        }),
{
    let ghost b0 = buf@;
    if amount == 1 {
        buf.push(0x48u8);
        buf.push(0xffu8);
        buf.push(0xceu8);
        proof {
            assert(buf@ =~= b0 + seq![0x48u8, 0xffu8, 0xceu8]);
        }
    } else {
        buf.push(0x48u8);
        buf.push(0x81u8);
        buf.push(0xeeu8);
        let d: u32 = #[verifier::truncate] (amount as u32);
        push_le32(buf, d);
        proof {
            assert(buf@ =~= b0 + (seq![0x48u8, 0x81u8, 0xeeu8] + le32(d)));
        }
    }
}

/// Appends the encoding of a cell increase by `amount`, modulo 256.
fn emit_inc_val(buf: &mut Vec<u8>, amount: usize)
    ensures
        final(buf)@ == old(buf)@ + (if amount == 1 {
            seq![0xfeu8, 0x06u8]
        } else {
            seq![0x80u8, 0x06u8, amount as u8]
        }),
{
    let ghost b0 = buf@;
    if amount == 1 {
        buf.push(0xfeu8);
        buf.push(0x06u8);
        proof {
            assert(buf@ =~= b0 + seq![0xfeu8, 0x06u8]);
        }
    } else {
        buf.push(0x80u8);
        buf.push(0x06u8);
        buf.push(#[verifier::truncate] (amount as u8));
        proof {
            assert(buf@ =~= b0 + seq![0x80u8, 0x06u8, amount as u8]);
        }
    }
}

/// Appends the encoding of a cell decrease by `amount`, modulo 256.
fn emit_dec_val(buf: &mut Vec<u8>, amount: usize)
    ensures
        final(buf)@ == old(buf)@ + (if amount == 1 {
            seq![0xfeu8, 0x0eu8]
        } else {
            seq![0x80u8, 0x2eu8, amount as u8]
        }),
{
    let ghost b0 = buf@;
    if amount == 1 {
        buf.push(0xfeu8);
        buf.push(0x0eu8);
        proof {
            assert(buf@ =~= b0 + seq![0xfeu8, 0x0eu8]);
        }
    } else {
        buf.push(0x80u8);
        buf.push(0x2eu8);
        buf.push(#[verifier::truncate] (amount as u8));
        proof {
            assert(buf@ =~= b0 + seq![0x80u8, 0x2eu8, amount as u8]);
        }
    }
}

/// Appends the write-one-byte sequence for the current cell.
fn emit_print(buf: &mut Vec<u8>)
    ensures
        final(buf)@ == old(buf)@ + seq![
            0xb8u8, 0x01u8, 0x00u8, 0x00u8, 0x00u8,
            0xbfu8, 0x01u8, 0x00u8, 0x00u8, 0x00u8,
            0xbau8, 0x01u8, 0x00u8, 0x00u8, 0x00u8,
            0x0fu8, 0x05u8,
        ],
{
    let ghost b0 = buf@;
    buf.push(0xb8u8);
    buf.push(0x01u8);
    buf.push(0x00u8);
    buf.push(0x00u8);
    buf.push(0x00u8);
    buf.push(0xbfu8);
    buf.push(0x01u8);
    buf.push(0x00u8);
    buf.push(0x00u8);
    buf.push(0x00u8);
    buf.push(0xbau8);
    buf.push(0x01u8);
    buf.push(0x00u8);
    buf.push(0x00u8);
    buf.push(0x00u8);
    buf.push(0x0fu8);
    buf.push(0x05u8);
    proof {
        assert(buf@ =~= b0 + seq![
            0xb8u8, 0x01u8, 0x00u8, 0x00u8, 0x00u8,
            0xbfu8, 0x01u8, 0x00u8, 0x00u8, 0x00u8,
            0xbau8, 0x01u8, 0x00u8, 0x00u8, 0x00u8,
            0x0fu8, 0x05u8,
        ]);
    }
}

/// Appends the read-one-byte sequence for the current cell.
fn emit_read(buf: &mut Vec<u8>)
    ensures
        final(buf)@ == old(buf)@ + seq![
            0x48u8, 0x31u8, 0xc0u8,
            0x48u8, 0x31u8, 0xffu8,
            0xbau8, 0x01u8, 0x00u8, 0x00u8, 0x00u8,
            0x0fu8, 0x05u8,
        ],
{
    let ghost b0 = buf@;
    buf.push(0x48u8);
    buf.push(0x31u8);
    buf.push(0xc0u8);
    buf.push(0x48u8);
    buf.push(0x31u8);
    buf.push(0xffu8);
    buf.push(0xbau8);
    buf.push(0x01u8);
    buf.push(0x00u8);
    buf.push(0x00u8);
    buf.push(0x00u8);
    buf.push(0x0fu8);
    buf.push(0x05u8);
    proof {
        assert(buf@ =~= b0 + seq![
            0x48u8, 0x31u8, 0xc0u8,
            0x48u8, 0x31u8, 0xffu8,
            0xbau8, 0x01u8, 0x00u8, 0x00u8, 0x00u8,
            0x0fu8, 0x05u8,
        ]);
    }
}

/// Appends a jump-if-zero with the placeholder displacement.
fn emit_jmp_fwd_dummy(buf: &mut Vec<u8>)
    ensures
        final(buf)@ == old(buf)@ + seq![
            0x80u8, 0x3eu8, 0x00u8, 0x0fu8, 0x84u8, 0x38u8, 0x41u8, 0x41u8, 0x41u8,
        ],
{
    let ghost b0 = buf@;
    buf.push(0x80u8);
    buf.push(0x3eu8);
    buf.push(0x00u8);
    buf.push(0x0fu8);
    buf.push(0x84u8);
    buf.push(0x38u8);
    buf.push(0x41u8);
    buf.push(0x41u8);
    buf.push(0x41u8);
    proof {
        assert(buf@ =~= b0 + seq![
            0x80u8, 0x3eu8, 0x00u8, 0x0fu8, 0x84u8, 0x38u8, 0x41u8, 0x41u8, 0x41u8,
        ]);
    }
}

/// Appends a jump-if-nonzero with displacement `d`.
fn emit_jmp_back(buf: &mut Vec<u8>, d: u32)
    ensures
        final(buf)@ == old(buf)@ + (seq![0x80u8, 0x3eu8, 0x00u8, 0x0fu8, 0x85u8] + le32(d)),
{
    let ghost b0 = buf@;
    buf.push(0x80u8);
    buf.push(0x3eu8);
    buf.push(0x00u8);
    buf.push(0x0fu8);
    buf.push(0x85u8);
    push_le32(buf, d);
    proof {
        assert(buf@ =~= b0 + (seq![0x80u8, 0x3eu8, 0x00u8, 0x0fu8, 0x85u8] + le32(d)));
    }
}

/// Emits the first-pass encoding of instruction `i` (forward jumps get the
/// placeholder displacement) and reports the placeholder's site and target
/// when there is one to patch later.
#[verifier::rlimit(100)]
fn emit_one(
    buf: &mut Vec<u8>,
    ends: &Vec<usize>,
    inst: Inst,
    i: usize,
    Ghost(iseq): Ghost<Seq<Inst>>,
) -> (rec: Option<(usize, usize)>)
    requires
        i < iseq.len(),
        (iseq[i as int] == inst),
        (inst matches Inst::JmpBack(t) ==> (t as int) < i as int),
        ends@.len() == i,
        forall|j: int| 0 <= j < i ==> (#[trigger] ends@[j]) as int == end_off(iseq, j + 1),
        old(buf)@ == code_sel(iseq, i as int, 0),
    ensures
        final(buf)@ == code_sel(iseq, i as int + 1, 0),
        final(buf)@.len() == end_off(iseq, i as int + 1),
        rec is Some <==> inst is JmpFwd,
        (rec matches Some(pr) ==> pr.0 as int == end_off(iseq, i as int) && (inst matches
            Inst::JmpFwd(t) && pr.1 == t)),
{
    let ghost buf0 = buf@;
    proof {
        lemma_code_sel_len(iseq, i as int, 0);
    }
    let mut rec: Option<(usize, usize)> = None;
    match inst {
        Inst::IncPtr(a) => emit_inc(buf, a),
        Inst::DecPtr(a) => emit_dec(buf, a),
        Inst::IncVal(a) => emit_inc_val(buf, a),
        Inst::DecVal(a) => emit_dec_val(buf, a),
        Inst::PrintCell => emit_print(buf),
        Inst::ReadChar => emit_read(buf),
        Inst::JmpFwd(t) => {
            rec = Some((buf.len(), t));
            emit_jmp_fwd_dummy(buf);
        },
        Inst::JmpBack(t) => {
            let te = ends[t];
            let d = disp_from(te, buf.len());
            proof {
                assert(end_off(iseq, i as int + 1) == end_off(iseq, i as int) + 9);
                assert(d == disp32(iseq, i as int, t as int));
            }
            emit_jmp_back(buf, d);
        },
    }
    proof {
        assert(buf@ == buf0 + enc_sel(iseq, i as int, 0));
        lemma_enc_lens(iseq, i as int);
        assert(code_sel(iseq, i as int + 1, 0) == code_sel(iseq, i as int, 0) + enc_sel(
            iseq,
            i as int,
            0,
        ));
        lemma_code_sel_len(iseq, i as int + 1, 0);
    }
    rec
}

/// Overwrites the placeholder displacement of the next unpatched forward
/// jump, whose encoding starts at byte `site` and whose logical target is
/// instruction `t`, with `te` the byte offset just past the target.
#[verifier::rlimit(100)]
fn patch_one(
    buf: &mut Vec<u8>,
    site: usize,
    t: usize,
    te: usize,
    Ghost(iseq): Ghost<Seq<Inst>>,
    Ghost(p): Ghost<nat>,
)
    requires
        p < n_fwd_before(iseq, iseq.len() as int),
        old(buf)@ == code_sel(iseq, iseq.len() as int, p),
        (site as int == end_off(iseq, fwd_idx(iseq, iseq.len() as int)[p as int])),
        (iseq[fwd_idx(iseq, iseq.len() as int)[p as int]] == Inst::JmpFwd(t)),
        (te as int == end_off(iseq, t as int + 1)),
    ensures
        final(buf)@ == code_sel(iseq, iseq.len() as int, p + 1),
{
    let ghost n = iseq.len() as int;
    let ghost jp = fwd_idx(iseq, n)[p as int];
    let ghost buf0 = buf@;
    proof {
        lemma_fwd_idx(iseq, n);
        lemma_code_sel_len(iseq, n, p);
        assert(iseq[jp] is JmpFwd && n_fwd_before(iseq, jp) == p);
        assert(end_off(iseq, jp + 1) == end_off(iseq, jp) + 9);
        lemma_end_off_mono(iseq, jp + 1, n);
        lemma_enc_lens(iseq, jp);
        assert(buf@.len() == end_off(iseq, n));
    }
    let bl = buf.len();
    proof {
        assert(site + 9 <= bl);
    }
    let d = disp_from(te, site);
    proof {
        assert(d == disp32(iseq, jp, t as int));
        assert(enc_at(iseq, jp) == seq![0x80u8, 0x3eu8, 0x00u8, 0x0fu8, 0x84u8] + le32(d));
    }
    let b0 = #[verifier::truncate] ((d & 0xff) as u8);
    let b1 = #[verifier::truncate] (((d >> 8) & 0xff) as u8);
    let b2 = #[verifier::truncate] (((d >> 16) & 0xff) as u8);
    let b3 = #[verifier::truncate] (((d >> 24) & 0xff) as u8);
    buf.set(site + 5, b0);
    buf.set(site + 6, b1);
    buf.set(site + 7, b2);
    buf.set(site + 8, b3);
    proof {
        assert(enc_at(iseq, jp)[5] == b0 && enc_at(iseq, jp)[6] == b1 && enc_at(iseq, jp)[7] == b2
            && enc_at(iseq, jp)[8] == b3);
        lemma_patch_step(iseq, p, buf0, buf@, jp);
    }
}

/// Translates a well-matched instruction sequence into its machine code:
/// the concatenated per-instruction encodings followed by a return, with
/// every branch displacement resolved.
#[verifier::rlimit(100)]
pub fn compile(insts: &Vec<Inst>) -> (r: Vec<u8>)
    requires
        well_matched(insts@),
    ensures
        r@ == jit_of(insts@),
{
    let ghost iseq = insts@;
    let n = insts.len();
    let mut buf: Vec<u8> = Vec::new();
    let mut ends: Vec<usize> = Vec::new();
    let mut fwd: Vec<(usize, usize)> = Vec::new();
    let mut i: usize = 0;
    while i < n
        invariant
            iseq == insts@,
            n == iseq.len(),
            well_matched(iseq),
            i <= n,
            buf@ == code_sel(iseq, i as int, 0),
            buf@.len() == end_off(iseq, i as int),
            ends@.len() == i,
            forall|j: int| 0 <= j < i ==> (#[trigger] ends@[j]) as int == end_off(iseq, j + 1),
            fwd@.len() == n_fwd_before(iseq, i as int),
            forall|q: int|
                0 <= q < fwd@.len() ==> {
                    let j = fwd_idx(iseq, i as int)[q];
                    (#[trigger] fwd@[q]).0 as int == end_off(iseq, j) && iseq[j] is JmpFwd
                        && fwd@[q].1 == iseq[j]->JmpFwd_0
                },
        decreases n - i,
    {
        proof {
            lemma_fwd_idx(iseq, i as int);
            lemma_fwd_idx(iseq, i as int + 1);
        }
        let inst = insts[i];
        proof {
            if inst is JmpBack {
                assert(iseq[i as int] matches Inst::JmpBack(tt) && (tt as int) < i as int);
            }
        }
        let rec = emit_one(&mut buf, &ends, inst, i, Ghost(iseq));
        match rec {
            Some(pr) => {
                fwd.push(pr);
            },
            None => {},
        }
        ends.push(buf.len());
        i = i + 1;
    }
    let m = fwd.len();
    let mut p: usize = 0;
    while p < m
        invariant
            iseq == insts@,
            n == iseq.len(),
            well_matched(iseq),
            m == fwd@.len(),
            p <= m,
            buf@ == code_sel(iseq, n as int, p as nat),
            ends@.len() == n,
            forall|j: int| 0 <= j < n ==> (#[trigger] ends@[j]) as int == end_off(iseq, j + 1),
            fwd@.len() == n_fwd_before(iseq, n as int),
            forall|q: int|
                0 <= q < fwd@.len() ==> {
                    let j = fwd_idx(iseq, n as int)[q];
                    (#[trigger] fwd@[q]).0 as int == end_off(iseq, j) && iseq[j] is JmpFwd
                        && fwd@[q].1 == iseq[j]->JmpFwd_0
                },
        decreases m - p,
    {
        let pair = fwd[p];
        proof {
            lemma_fwd_idx(iseq, n as int);
            let jp = fwd_idx(iseq, n as int)[p as int];
            assert(iseq[jp] matches Inst::JmpFwd(tt) && jp < (tt as int) < n as int);
        }
        let te = ends[pair.1];
        patch_one(&mut buf, pair.0, pair.1, te, Ghost(iseq), Ghost(p as nat));
        p = p + 1;
    }
    proof {
        lemma_code_sel_done(iseq, n as int, m as nat);
    }
    buf.push(0xc3u8);
    buf
}

/// Code generation is deterministic: two buffers generated from the same
/// instruction sequence are byte-identical. The bytes depend on the
/// instructions alone; the configured tape size plays no part in them.
pub proof fn lemma_codegen_idempotent(insts: Seq<Inst>, c1: Seq<u8>, c2: Seq<u8>)
    requires
        c1 == jit_of(insts),
        c2 == jit_of(insts),
    ensures
        c1 == c2,
{
}

} // verus!

