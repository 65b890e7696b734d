//! The compiler front end: symbol filtering, run-length driven instruction
//! construction with bracket matching, and the compiled-program handle.

use vstd::prelude::*;
use vstd::pervasive::VecAdditionalExecFns;
use vstd::string::{StrSliceExecFns, StringSliceAdditionalSpecFns};

use crate::codegen::{compile, jit_of};
use crate::runlength::{
    run_front, lemma_run_front_bounds, eq_is_structural, RunLengthIterator,
};

verus! {

/// One instruction of the flat program form.
///
/// `IncPtr`/`DecPtr` move the cursor by the carried amount; `IncVal`/`DecVal`
/// adjust the current cell by the amount, modulo 256; `PrintCell` and
/// `ReadChar` transfer one byte to or from the corresponding stream;
/// `JmpFwd(t)` branches past index `t` (its matching `JmpBack`) when the
/// current cell is zero, and `JmpBack(t)` branches back to just past index
/// `t` (its matching `JmpFwd`) when the cell is nonzero.
#[derive(Debug, Clone, Copy, PartialEq, Eq, Structural)]
pub enum Inst {
    IncPtr(usize),
    DecPtr(usize),
    IncVal(usize),
    DecVal(usize),
    PrintCell,
    ReadChar,
    JmpFwd(usize),
    JmpBack(usize),
}

impl Inst {
    pub fn is_jmp_fwd(&self) -> (r: bool)
        ensures
            r == (self is JmpFwd),
    {
        match *self {
            Inst::JmpFwd(_) => true,
            _ => false,
        }
    }

    pub fn is_jmp_back(&self) -> (r: bool)
        ensures
            r == (self is JmpBack),
    {
        match *self {
            Inst::JmpBack(_) => true,
            _ => false,
        }
    }
}

/// The recognized source alphabet: `> < + - . , [ ]` as bytes.
/// Every other input byte is silently discarded before compilation.
pub open spec fn is_symbol(b: u8) -> bool {
    b == 62 || b == 60 || b == 43 || b == 45 || b == 46 || b == 44 || b == 91 || b == 93
}

/// The source bytes that survive filtering, in order.
pub open spec fn symbols_of(s: Seq<u8>) -> Seq<u8> {
    s.filter(|b: u8| is_symbol(b))
}

/// Filtering keeps exactly the alphabet: every surviving byte is one of the
/// eight symbols, no byte outside the alphabet reaches the builder, and
/// filtering an already filtered sequence changes nothing.
pub proof fn lemma_filter_alphabet(s: Seq<u8>)
    ensures
        symbols_of(s).len() <= s.len(),
        forall|i: int| 0 <= i < symbols_of(s).len() ==> is_symbol(#[trigger] symbols_of(s)[i]),
        symbols_of(symbols_of(s)) == symbols_of(s),
    decreases s.len(),
{
    reveal(Seq::filter);
    if s.len() > 0 {
        lemma_filter_alphabet(s.drop_last());
        let x = symbols_of(s.drop_last());
        if is_symbol(s.last()) {
            assert(symbols_of(s) == x.push(s.last()));
            lemma_symbols_push(x, s.last());
        } else {
            assert(symbols_of(s) == x);
        }
    }
}

/// Filtering distributes over appending one byte.
pub proof fn lemma_symbols_push(s: Seq<u8>, b: u8)
    ensures
        symbols_of(s.push(b)) == if is_symbol(b) {
            symbols_of(s).push(b)
        } else {
            symbols_of(s)
        },
{
    reveal(Seq::filter);
    assert(s.push(b).drop_last() =~= s);
    assert(s.push(b).last() == b);
}

/// Intermediate state of program construction: the instructions built so
/// far, and the indices of the pending (unclosed) `JmpFwd` placeholders.
pub struct BuildState {
    pub insts: Seq<Inst>,
    pub stack: Seq<usize>,
}

pub open spec fn init_state() -> BuildState {
    BuildState { insts: Seq::empty(), stack: Seq::empty() }
}

/// One `[`: remember the new instruction's index and append a placeholder
/// forward jump whose target is fixed when the bracket is closed.
pub open spec fn open_step(st: BuildState) -> BuildState {
    BuildState {
        insts: st.insts.push(Inst::JmpFwd(0usize)),
        stack: st.stack.push(st.insts.len() as usize),
    }
}

/// One `]`: pop the innermost pending open bracket, point it just past the
/// backward jump about to be appended, and append that backward jump.
/// Fails when no open bracket is pending.
pub open spec fn close_step(st: BuildState) -> Option<BuildState> {
    if st.stack.len() == 0 {
        None
    } else {
        let p = st.stack.last();
        Some(BuildState {
            insts: st.insts.update(p as int, Inst::JmpFwd(st.insts.len() as usize)).push(
                Inst::JmpBack(p),
            ),
            stack: st.stack.drop_last(),
        })
    }
}

pub open spec fn open_n(st: BuildState, n: nat) -> BuildState
    decreases n,
{
    if n == 0 {
        st
    } else {
        open_n(open_step(st), (n - 1) as nat)
    }
}

pub open spec fn close_n(st: BuildState, n: nat) -> Option<BuildState>
    decreases n,
{
    if n == 0 {
        Some(st)
    } else {
        match close_step(st) {
            None => None,
            Some(st2) => close_n(st2, (n - 1) as nat),
        }
    }
}

/// `n` copies of one amount-less instruction appended in a row.
pub open spec fn repeat_inst(st: BuildState, inst: Inst, n: nat) -> BuildState {
    BuildState { insts: st.insts + Seq::new(n, |i: int| inst), stack: st.stack }
}

/// Effect of one maximal run of `n` copies of the symbol `b`: move/adjust
/// runs collapse into a single amount-carrying instruction, while I/O and
/// bracket runs yield `n` separate instructions.
pub open spec fn apply_run(st: BuildState, n: nat, b: u8) -> Option<BuildState> {
    if b == 62 {
        Some(BuildState { insts: st.insts.push(Inst::IncPtr(n as usize)), stack: st.stack })
    } else if b == 60 {
        Some(BuildState { insts: st.insts.push(Inst::DecPtr(n as usize)), stack: st.stack })
    } else if b == 43 {
        Some(BuildState { insts: st.insts.push(Inst::IncVal(n as usize)), stack: st.stack })
    } else if b == 45 {
        Some(BuildState { insts: st.insts.push(Inst::DecVal(n as usize)), stack: st.stack })
    } else if b == 46 {
        Some(repeat_inst(st, Inst::PrintCell, n))
    } else if b == 44 {
        Some(repeat_inst(st, Inst::ReadChar, n))
    } else if b == 91 {
        Some(open_n(st, n))
    } else if b == 93 {
        close_n(st, n)
    } else {
        Some(st)
    }
}

/// Folds the maximal runs of a symbol sequence over the build state.
pub open spec fn build_from(st: BuildState, syms: Seq<u8>) -> Option<BuildState>
    decreases syms.len(),
    via build_from_decreases
{
    if syms.len() == 0 {
        Some(st)
    } else {
        let k = run_front(syms);
        match apply_run(st, k, syms[0]) {
            None => None,
            Some(st2) => build_from(st2, syms.skip(k as int)),
        }
    }
}

#[via_fn]
proof fn build_from_decreases(st: BuildState, syms: Seq<u8>) {
    if syms.len() > 0 {
        lemma_run_front_bounds(syms);
    }
}

/// The meaning of compilation's front half: filter the raw source bytes,
/// then fold their runs from the empty state; fail if a close bracket finds
/// no pending open, or if opens remain pending at the end.
pub open spec fn build_program(src: Seq<u8>) -> Option<Seq<Inst>> {
    match build_from(init_state(), symbols_of(src)) {
        None => None,
        Some(st) => if st.stack.len() == 0 {
            Some(st.insts)
        } else {
            None
        },
    }
}

/// Every backward jump's target is an earlier forward jump that points
/// right back at it.
pub open spec fn backs_matched(insts: Seq<Inst>) -> bool {
    forall|i: int|
        0 <= i < insts.len() ==> ((#[trigger] insts[i]) matches Inst::JmpBack(t) ==> (t as int) < i
            && insts[t as int] == Inst::JmpFwd(i as usize))
}

/// Every jump belongs to a properly matched bracket pair: a `JmpFwd` at `i`
/// with target `t` faces a `JmpBack` at `t` with target `i`, and vice versa.
pub open spec fn well_matched(insts: Seq<Inst>) -> bool {
    &&& backs_matched(insts)
    &&& forall|i: int|
        0 <= i < insts.len() ==> ((#[trigger] insts[i]) matches Inst::JmpFwd(t) ==> i < (
        t as int) < insts.len() && insts[t as int] == Inst::JmpBack(i as usize))
}

/// Pending open brackets are recorded bottom-up: strictly increasing
/// indices of placeholder forward jumps.
pub open spec fn stack_ok(st: BuildState) -> bool {
    &&& forall|k: int|
        0 <= k < st.stack.len() ==> ((#[trigger] st.stack[k]) as int) < st.insts.len()
            && st.insts[st.stack[k] as int] == Inst::JmpFwd(0usize)
    &&& forall|k1: int, k2: int|
        #![trigger st.stack[k1], st.stack[k2]]
        0 <= k1 < k2 < st.stack.len() ==> st.stack[k1] < st.stack[k2]
}

/// Invariant of program construction: pending opens are placeholders, every
/// closed bracket pair is already mutually matched, and every forward jump
/// is either pending or matched.
pub open spec fn state_inv(st: BuildState) -> bool {
    &&& stack_ok(st)
    &&& backs_matched(st.insts)
    &&& forall|i: int|
        0 <= i < st.insts.len() ==> ((#[trigger] st.insts[i]) matches Inst::JmpFwd(t) ==> (
        st.stack.contains(i as usize) || (i < (t as int) < st.insts.len() && st.insts[t as int]
            == Inst::JmpBack(i as usize))))
}

proof fn lemma_inv_init()
    ensures
        state_inv(init_state()),
{
}

proof fn lemma_inv_empty_stack(st: BuildState)
    requires
        state_inv(st),
        st.stack.len() == 0,
    ensures
        well_matched(st.insts),
{
    assert forall|i: int|
        0 <= i < st.insts.len() implies ((#[trigger] st.insts[i]) matches Inst::JmpFwd(t) ==> i < (
    t as int) < st.insts.len() && st.insts[t as int] == Inst::JmpBack(i as usize)) by {
        if st.insts[i] matches Inst::JmpFwd(t) {
            assert(!st.stack.contains(i as usize));
        }
    }
}

/// Appending a non-jump instruction preserves the construction invariant.
proof fn lemma_push_plain_inv(st: BuildState, inst: Inst)
    requires
        state_inv(st),
        !(inst is JmpFwd),
        !(inst is JmpBack),
    ensures
        state_inv(BuildState { insts: st.insts.push(inst), stack: st.stack }),
{
    let st2 = BuildState { insts: st.insts.push(inst), stack: st.stack };
    assert forall|i: int|
        0 <= i < st2.insts.len() implies ((#[trigger] st2.insts[i]) matches Inst::JmpBack(t) ==> (
    t as int) < i && st2.insts[t as int] == Inst::JmpFwd(i as usize)) by {
        if i < st.insts.len() {
            assert(st2.insts[i] == st.insts[i]);
        }
    }
    assert forall|i: int|
        0 <= i < st2.insts.len() implies ((#[trigger] st2.insts[i]) matches Inst::JmpFwd(t) ==> (
    st2.stack.contains(i as usize) || (i < (t as int) < st2.insts.len() && st2.insts[t as int]
        == Inst::JmpBack(i as usize)))) by {
        if i < st.insts.len() {
            assert(st2.insts[i] == st.insts[i]);
        }
    }
}

proof fn lemma_repeat_inst_inv(st: BuildState, inst: Inst, n: nat)
    requires
        state_inv(st),
        !(inst is JmpFwd),
        !(inst is JmpBack),
    ensures
        state_inv(repeat_inst(st, inst, n)),
        repeat_inst(st, inst, n).insts.len() == st.insts.len() + n,
        repeat_inst(st, inst, n).stack == st.stack,
    decreases n,
{
    if n == 0 {
        assert(repeat_inst(st, inst, 0).insts =~= st.insts);
    } else {
        let prev = repeat_inst(st, inst, (n - 1) as nat);
        lemma_repeat_inst_inv(st, inst, (n - 1) as nat);
        lemma_push_plain_inv(prev, inst);
        assert(repeat_inst(st, inst, n).insts =~= prev.insts.push(inst));
    }
}

proof fn lemma_open_step_inv(st: BuildState)
    requires
        state_inv(st),
        st.insts.len() <= usize::MAX,
    ensures
        state_inv(open_step(st)),
        open_step(st).insts.len() == st.insts.len() + 1,
        open_step(st).stack.len() == st.stack.len() + 1,
{
    let st2 = open_step(st);
    let l = st.insts.len() as int;
    assert forall|k: int|
        0 <= k < st2.stack.len() implies ((#[trigger] st2.stack[k]) as int) < st2.insts.len()
            && st2.insts[st2.stack[k] as int] == Inst::JmpFwd(0usize) by {
        if k < st.stack.len() {
            assert(st2.stack[k] == st.stack[k]);
            assert(st2.insts[st.stack[k] as int] == st.insts[st.stack[k] as int]);
        }
    }
    assert forall|i: int|
        0 <= i < st2.insts.len() implies ((#[trigger] st2.insts[i]) matches Inst::JmpBack(t) ==> (
    t as int) < i && st2.insts[t as int] == Inst::JmpFwd(i as usize)) by {
        if i < l {
            assert(st2.insts[i] == st.insts[i]);
        }
    }
    assert forall|i: int|
        0 <= i < st2.insts.len() implies ((#[trigger] st2.insts[i]) matches Inst::JmpFwd(t) ==> (
    st2.stack.contains(i as usize) || (i < (t as int) < st2.insts.len() && st2.insts[t as int]
        == Inst::JmpBack(i as usize)))) by {
        if st2.insts[i] is JmpFwd {
            if i < l {
                assert(st2.insts[i] == st.insts[i]);
                if st.stack.contains(i as usize) {
                    let k = choose|k: int|
                        0 <= k < st.stack.len() && st.stack[k] == i as usize;
                    assert(st2.stack[k] == i as usize);
                    assert(st2.stack.contains(i as usize));
                }
            } else {
                assert(st2.stack.last() == l as usize);
                assert(st2.stack.contains(i as usize));
            }
        }
    }
}

proof fn lemma_close_step_inv(st: BuildState)
    requires
        state_inv(st),
        st.insts.len() <= usize::MAX,
    ensures
        st.stack.len() == 0 ==> close_step(st) is None,
        st.stack.len() > 0 ==> (close_step(st) matches Some(st2) && state_inv(st2)
            && st2.insts.len() == st.insts.len() + 1 && st2.stack.len() == st.stack.len() - 1),
{
    if st.stack.len() > 0 {
        let p = st.stack.last();
        let l = st.insts.len() as int;
        let st2 = close_step(st)->Some_0;
        assert((p as int) < l);
        assert(st.insts[p as int] == Inst::JmpFwd(0usize));
        // the pending entries below the popped one are untouched placeholders
        assert forall|k: int|
            0 <= k < st2.stack.len() implies ((#[trigger] st2.stack[k]) as int) < st2.insts.len()
                && st2.insts[st2.stack[k] as int] == Inst::JmpFwd(0usize) by {
            assert(st2.stack[k] == st.stack[k]);
            assert(st.stack[k] < p);
            assert(st2.insts[st.stack[k] as int] == st.insts[st.stack[k] as int]);
        }
        assert forall|i: int|
            0 <= i < st2.insts.len() implies ((#[trigger] st2.insts[i]) matches Inst::JmpBack(t)
                ==> (t as int) < i && st2.insts[t as int] == Inst::JmpFwd(i as usize)) by {
            if st2.insts[i] is JmpBack {
                let t = st2.insts[i]->JmpBack_0;
                if i < l {
                    assert(i != p as int);
                    assert(st2.insts[i] == st.insts[i]);
                    assert((t as int) < i && st.insts[t as int] == Inst::JmpFwd(i as usize));
                    assert(t as int != p as int);
                    assert(st2.insts[t as int] == st.insts[t as int]);
                } else {
                    assert(i == l);
                    assert(t == p);
                    assert(st2.insts[p as int] == Inst::JmpFwd(l as usize));
                }
            }
        }
        assert forall|i: int|
            0 <= i < st2.insts.len() implies ((#[trigger] st2.insts[i]) matches Inst::JmpFwd(t)
                ==> (st2.stack.contains(i as usize) || (i < (t as int) < st2.insts.len()
                && st2.insts[t as int] == Inst::JmpBack(i as usize)))) by {
            if st2.insts[i] is JmpFwd {
                let t = st2.insts[i]->JmpFwd_0;
                if i == p as int {
                    assert(t == l as usize);
                    assert(st2.insts[l] == Inst::JmpBack(p));
                } else if i < l {
                    assert(st2.insts[i] == st.insts[i]);
                    if st.stack.contains(i as usize) {
                        let k = choose|k: int|
                            0 <= k < st.stack.len() && st.stack[k] == i as usize;
                        assert(k < st.stack.len() - 1);
                        assert(st2.stack[k] == i as usize);
                        assert(st2.stack.contains(i as usize));
                    } else {
                        let t0 = st.insts[i]->JmpFwd_0;
                        assert(i < (t0 as int) < l && st.insts[t0 as int] == Inst::JmpBack(
                            i as usize,
                        ));
                        assert(t0 as int != p as int);
                        assert(st2.insts[t0 as int] == st.insts[t0 as int]);
                    }
                }
            }
        }
    }
}

proof fn lemma_open_n_inv(st: BuildState, n: nat)
    requires
        state_inv(st),
        st.insts.len() + n <= usize::MAX,
    ensures
        state_inv(open_n(st, n)),
        open_n(st, n).insts.len() == st.insts.len() + n,
        open_n(st, n).stack.len() == st.stack.len() + n,
    decreases n,
{
    if n > 0 {
        lemma_open_step_inv(st);
        lemma_open_n_inv(open_step(st), (n - 1) as nat);
    }
}

proof fn lemma_close_n_inv(st: BuildState, n: nat)
    requires
        state_inv(st),
        st.insts.len() + n <= usize::MAX,
    ensures
        close_n(st, n) matches Some(st2) ==> (state_inv(st2) && st2.insts.len() == st.insts.len()
            + n && st.stack.len() >= n && st2.stack.len() == st.stack.len() - n),
    decreases n,
{
    if n > 0 {
        lemma_close_step_inv(st);
        if st.stack.len() > 0 {
            lemma_close_n_inv(close_step(st)->Some_0, (n - 1) as nat);
        }
    }
}

#[verifier::rlimit(50)]
proof fn lemma_apply_run_inv(st: BuildState, n: nat, b: u8)
    requires
        state_inv(st),
        n >= 1,
        st.insts.len() + n <= usize::MAX,
    ensures
        apply_run(st, n, b) matches Some(st2) ==> (state_inv(st2) && st2.insts.len()
            <= st.insts.len() + n),
{
    if b == 62 {
        lemma_push_plain_inv(st, Inst::IncPtr(n as usize));
    } else if b == 60 {
        lemma_push_plain_inv(st, Inst::DecPtr(n as usize));
    } else if b == 43 {
        lemma_push_plain_inv(st, Inst::IncVal(n as usize));
    } else if b == 45 {
        lemma_push_plain_inv(st, Inst::DecVal(n as usize));
    } else if b == 46 {
        lemma_repeat_inst_inv(st, Inst::PrintCell, n);
    } else if b == 44 {
        lemma_repeat_inst_inv(st, Inst::ReadChar, n);
    } else if b == 91 {
        lemma_open_n_inv(st, n);
    } else if b == 93 {
        lemma_close_n_inv(st, n);
    }
}

proof fn lemma_build_from_inv(st: BuildState, syms: Seq<u8>)
    requires
        state_inv(st),
        st.insts.len() + syms.len() <= usize::MAX,
    ensures
        build_from(st, syms) matches Some(st2) ==> (state_inv(st2) && st2.insts.len()
            <= st.insts.len() + syms.len()),
    decreases syms.len(),
{
    if syms.len() > 0 {
        lemma_run_front_bounds(syms);
        let k = run_front(syms);
        lemma_apply_run_inv(st, k, syms[0]);
        match apply_run(st, k, syms[0]) {
            None => {},
            Some(st2) => {
                lemma_build_from_inv(st2, syms.skip(k as int));
            },
        }
    }
}

/// Every successfully built program has mutually matched jump targets:
/// the instruction at a `JmpFwd`'s target is the `JmpBack` pointing right
/// back at it, and vice versa.
pub proof fn lemma_build_well_matched(src: Seq<u8>, insts: Seq<Inst>)
    requires
        symbols_of(src).len() <= usize::MAX,
        build_program(src) == Some(insts),
    ensures
        well_matched(insts),
{
    let syms = symbols_of(src);
    lemma_inv_init();
    lemma_build_from_inv(init_state(), syms);
    let st2 = build_from(init_state(), syms)->Some_0;
    lemma_inv_empty_stack(st2);
}

/// In a well-matched program no two jumps share a target: a target index
/// identifies its jump uniquely.
pub proof fn lemma_targets_unique(insts: Seq<Inst>, i: int, j: int)
    requires
        well_matched(insts),
        insts.len() <= usize::MAX,
        0 <= i < insts.len(),
        0 <= j < insts.len(),
        insts[i] is JmpFwd || insts[i] is JmpBack,
        insts[j] is JmpFwd || insts[j] is JmpBack,
        jump_target(insts[i]) == jump_target(insts[j]),
    ensures
        i == j,
{
    let t = jump_target(insts[i]) as int;
    assert(insts[i] matches Inst::JmpFwd(ti) ==> insts[t] == Inst::JmpBack(i as usize));
    assert(insts[i] matches Inst::JmpBack(ti) ==> insts[t] == Inst::JmpFwd(i as usize));
    assert(insts[j] matches Inst::JmpFwd(tj) ==> insts[t] == Inst::JmpBack(j as usize));
    assert(insts[j] matches Inst::JmpBack(tj) ==> insts[t] == Inst::JmpFwd(j as usize));
}

/// The logical target carried by a jump instruction.
pub open spec fn jump_target(inst: Inst) -> usize
    recommends
        inst is JmpFwd || inst is JmpBack,
{
    match inst {
        Inst::JmpFwd(t) => t,
        Inst::JmpBack(t) => t,
        _ => 0,
    }
}

/// One step of `open_n` peeled off the end instead of the front.
proof fn lemma_open_n_last(st: BuildState, n: nat)
    ensures
        open_n(st, n + 1) == open_step(open_n(st, n)),
    decreases n,
{
    if n == 0 {
        assert(open_n(open_step(st), 0) == open_step(st));
        assert(open_n(st, 1) == open_n(open_step(st), 0));
    } else {
        lemma_open_n_last(open_step(st), (n - 1) as nat);
        assert(open_n(st, n + 1) == open_n(open_step(st), n));
        assert(open_n(st, n) == open_n(open_step(st), (n - 1) as nat));
    }
}

/// One step of `close_n` peeled off the end instead of the front.
proof fn lemma_close_n_last(st: BuildState, n: nat)
    ensures
        close_n(st, n + 1) == (match close_n(st, n) {
            None => None,
            Some(m) => close_step(m),
        }),
    decreases n,
{
    if n == 0 {
        match close_step(st) {
            None => {
                assert(close_n(st, 1) is None);
            },
            Some(m) => {
                assert(close_n(st, 1) == close_n(m, 0));
            },
        }
    } else {
        match close_step(st) {
            None => {},
            Some(m) => {
                lemma_close_n_last(m, (n - 1) as nat);
                assert(close_n(st, n + 1) == close_n(m, n));
                assert(close_n(st, n) == close_n(m, (n - 1) as nat));
            },
        }
    }
}

/// Splitting a batch of close brackets at any point.
proof fn lemma_close_n_add(st: BuildState, a: nat, b: nat)
    ensures
        close_n(st, a + b) == (match close_n(st, a) {
            None => None,
            Some(m) => close_n(m, b),
        }),
    decreases a,
{
    if a > 0 {
        match close_step(st) {
            None => {},
            Some(m) => {
                lemma_close_n_add(m, (a - 1) as nat, b);
            },
        }
    }
}

proof fn lemma_open_n_len(st: BuildState, n: nat)
    ensures
        open_n(st, n).insts.len() == st.insts.len() + n,
        open_n(st, n).stack.len() == st.stack.len() + n,
    decreases n,
{
    if n > 0 {
        lemma_open_n_len(open_step(st), (n - 1) as nat);
    }
}

proof fn lemma_close_n_len(st: BuildState, n: nat)
    requires
        state_inv(st),
        st.insts.len() + n <= usize::MAX,
    ensures
        close_n(st, n) matches Some(m) ==> m.insts.len() == st.insts.len() + n,
{
    lemma_close_n_inv(st, n);
}

/// A maximal run of `n` identical move or adjust symbols becomes exactly one
/// instruction carrying amount `n`; a run of `n` I/O or bracket symbols
/// becomes exactly `n` separate instructions.
pub proof fn lemma_run_counts(st: BuildState, n: nat, b: u8)
    requires
        n >= 1,
        state_inv(st),
        st.insts.len() + n <= usize::MAX,
    ensures
        b == 62 ==> apply_run(st, n, b) == Some(
            BuildState { insts: st.insts.push(Inst::IncPtr(n as usize)), stack: st.stack },
        ),
        b == 60 ==> apply_run(st, n, b) == Some(
            BuildState { insts: st.insts.push(Inst::DecPtr(n as usize)), stack: st.stack },
        ),
        b == 43 ==> apply_run(st, n, b) == Some(
            BuildState { insts: st.insts.push(Inst::IncVal(n as usize)), stack: st.stack },
        ),
        b == 45 ==> apply_run(st, n, b) == Some(
            BuildState { insts: st.insts.push(Inst::DecVal(n as usize)), stack: st.stack },
        ),
        b == 46 ==> apply_run(st, n, b) == Some(repeat_inst(st, Inst::PrintCell, n))
            && repeat_inst(st, Inst::PrintCell, n).insts.len() == st.insts.len() + n,
        b == 44 ==> apply_run(st, n, b) == Some(repeat_inst(st, Inst::ReadChar, n))
            && repeat_inst(st, Inst::ReadChar, n).insts.len() == st.insts.len() + n,
        b == 91 ==> (apply_run(st, n, b) matches Some(st2) && st2.insts.len() == st.insts.len()
            + n),
        b == 93 ==> (apply_run(st, n, b) matches Some(st2) ==> st2.insts.len() == st.insts.len()
            + n),
{
    lemma_open_n_len(st, n);
    lemma_close_n_len(st, n);
}

/// A close step alone preserves the pending-stack discipline: remaining
/// entries still point at placeholder forward jumps.
proof fn lemma_close_step_stack_ok(st: BuildState)
    requires
        stack_ok(st),
        st.insts.len() <= usize::MAX,
    ensures
        st.stack.len() == 0 ==> close_step(st) is None,
        st.stack.len() > 0 ==> (close_step(st) matches Some(st2) && stack_ok(st2)
            && st2.insts.len() == st.insts.len() + 1 && st2.stack == st.stack.drop_last()),
{
    if st.stack.len() > 0 {
        let p = st.stack.last();
        let st2 = close_step(st)->Some_0;
        assert((p as int) < st.insts.len());
        assert forall|k: int|
            0 <= k < st2.stack.len() implies ((#[trigger] st2.stack[k]) as int) < st2.insts.len()
                && st2.insts[st2.stack[k] as int] == Inst::JmpFwd(0usize) by {
            assert(st2.stack[k] == st.stack[k]);
            assert(st.stack[k] < p);
            assert(st2.insts[st.stack[k] as int] == st.insts[st.stack[k] as int]);
        }
    }
}

proof fn lemma_u8_eq_structural()
    ensures
        eq_is_structural::<u8>(),
{
    assert(eq_is_structural::<u8>());
}

/// A failed fold means the whole compilation fails.
proof fn lemma_build_failed(src: Seq<u8>)
    requires
        build_from(init_state(), symbols_of(src)) is None,
    ensures
        build_program(src) is None,
{
}

/// A fold that ends with pending opens also fails.
proof fn lemma_build_unclosed(src: Seq<u8>, st: BuildState)
    requires
        build_from(init_state(), symbols_of(src)) == Some(st),
        st.stack.len() > 0,
    ensures
        build_program(src) is None,
{
}

/// A fold that ends with an empty stack succeeds with its instructions,
/// and those are well matched.
proof fn lemma_build_finished(src: Seq<u8>, st: BuildState)
    requires
        symbols_of(src).len() <= usize::MAX,
        build_from(init_state(), symbols_of(src)) == Some(st),
        st.stack.len() == 0,
    ensures
        build_program(src) == Some(st.insts),
        well_matched(st.insts),
{
    lemma_build_well_matched(src, st.insts);
}

/// Appends `cnt` copies of one amount-less instruction.
fn push_repeat(insts: &mut Vec<Inst>, inst: Inst, cnt: usize)
    ensures
        final(insts)@ == old(insts)@ + Seq::new(cnt as nat, |x: int| inst),
{
    let ghost base = insts@;
    let mut j: usize = 0;
    while j < cnt
        invariant
            j <= cnt,
            insts@ == base + Seq::new(j as nat, |x: int| inst),
        decreases cnt - j,
    {
        insts.push(inst);
        proof {
            assert(base + Seq::new((j + 1) as nat, |x: int| inst) =~= (base + Seq::new(
                j as nat,
                |x: int| inst,
            )).push(inst));
        }
        j = j + 1;
    }
}

/// Performs `cnt` open-bracket steps: each pushes a placeholder forward
/// jump and remembers its index.
fn open_run(insts: &mut Vec<Inst>, stack: &mut Vec<usize>, cnt: usize)
    ensures
        (BuildState { insts: final(insts)@, stack: final(stack)@ } == open_n(
            BuildState { insts: old(insts)@, stack: old(stack)@ },
            cnt as nat,
        )),
{
    let ghost st0 = BuildState { insts: insts@, stack: stack@ };
    let mut j: usize = 0;
    while j < cnt
        invariant
            j <= cnt,
            (BuildState { insts: insts@, stack: stack@ } == open_n(st0, j as nat)),
        decreases cnt - j,
    {
        proof {
            lemma_open_n_last(st0, j as nat);
        }
        stack.push(insts.len());
        insts.push(Inst::JmpFwd(0));
        j = j + 1;
    }
}

/// Performs `cnt` close-bracket steps, resolving one pending open bracket
/// each; reports failure as soon as none is pending.
#[verifier::rlimit(100)]
fn close_run(insts: &mut Vec<Inst>, stack: &mut Vec<usize>, cnt: usize) -> (ok: bool)
    requires
        (stack_ok(BuildState { insts: old(insts)@, stack: old(stack)@ })),
        old(insts)@.len() + cnt <= usize::MAX,
    ensures
        ok ==> (close_n(BuildState { insts: old(insts)@, stack: old(stack)@ }, cnt as nat)
            == Some(BuildState { insts: final(insts)@, stack: final(stack)@ })),
        !ok ==> (close_n(BuildState { insts: old(insts)@, stack: old(stack)@ }, cnt as nat)
            is None),
{
    let ghost st0 = BuildState { insts: insts@, stack: stack@ };
    let mut j: usize = 0;
    let mut failed = false;
    while j < cnt && !failed
        invariant
            j <= cnt,
            st0.insts.len() + cnt <= usize::MAX,
            !failed ==> (close_n(st0, j as nat) == Some(
                BuildState { insts: insts@, stack: stack@ },
            ) && stack_ok(BuildState { insts: insts@, stack: stack@ }) && insts@.len()
                == st0.insts.len() + j),
            failed ==> close_n(st0, cnt as nat) is None,
        decreases cnt - j + (if failed { 0int } else { 1int }),
    {
        let ghost cur = BuildState { insts: insts@, stack: stack@ };
        proof {
            lemma_close_step_stack_ok(cur);
            lemma_close_n_last(st0, j as nat);
        }
        let popped = stack.pop();
        match popped {
            None => {
                proof {
                    lemma_close_n_add(st0, j as nat, (cnt - j) as nat);
                }
                failed = true;
            },
            Some(nidx) => {
                let l = insts.len();
                insts.set(nidx, Inst::JmpFwd(l));
                insts.push(Inst::JmpBack(nidx));
                proof {
                    assert(BuildState { insts: insts@, stack: stack@ } == close_step(
                        cur,
                    )->Some_0);
                }
                j = j + 1;
            },
        }
    }
    !failed
}

/// Applies one maximal run of `cnt` copies of the symbol `b` to the program
/// under construction; fails exactly when a close bracket finds no pending
/// open.
fn apply_run_exec(insts: &mut Vec<Inst>, stack: &mut Vec<usize>, cnt: usize, b: u8) -> (ok: bool)
    requires
        cnt >= 1,
        (stack_ok(BuildState { insts: old(insts)@, stack: old(stack)@ })),
        old(insts)@.len() + cnt <= usize::MAX,
    ensures
        ok ==> (apply_run(BuildState { insts: old(insts)@, stack: old(stack)@ }, cnt as nat, b)
            == Some(BuildState { insts: final(insts)@, stack: final(stack)@ })),
        !ok ==> (apply_run(BuildState { insts: old(insts)@, stack: old(stack)@ }, cnt as nat, b)
            is None),
{
    let ghost st0 = BuildState { insts: insts@, stack: stack@ };
    if b == 62 {
        insts.push(Inst::IncPtr(cnt));
        true
    } else if b == 60 {
        insts.push(Inst::DecPtr(cnt));
        true
    } else if b == 43 {
        insts.push(Inst::IncVal(cnt));
        true
    } else if b == 45 {
        insts.push(Inst::DecVal(cnt));
        true
    } else if b == 46 {
        push_repeat(insts, Inst::PrintCell, cnt);
        proof {
            assert(BuildState { insts: insts@, stack: stack@ } == repeat_inst(
                st0,
                Inst::PrintCell,
                cnt as nat,
            ));
        }
        true
    } else if b == 44 {
        push_repeat(insts, Inst::ReadChar, cnt);
        proof {
            assert(BuildState { insts: insts@, stack: stack@ } == repeat_inst(
                st0,
                Inst::ReadChar,
                cnt as nat,
            ));
        }
        true
    } else if b == 91 {
        open_run(insts, stack, cnt);
        true
    } else if b == 93 {
        close_run(insts, stack, cnt)
    } else {
        true
    }
}

/// Keeps exactly the eight-symbol alphabet of the source text, in order.
fn filter_symbols(program: &str) -> (syms: Vec<u8>)
    ensures
        syms@ == symbols_of(program.spec_bytes()),
{
    let bytes = program.as_bytes_vec();
    let nb = bytes.len();
    let mut syms: Vec<u8> = Vec::new();
    let mut bi: usize = 0;
    while bi < nb
        invariant
            nb == bytes@.len(),
            bi <= nb,
            bytes@ == program.spec_bytes(),
            syms@ == symbols_of(bytes@.take(bi as int)),
        decreases nb - bi,
    {
        let b = bytes[bi];
        if b == 62 || b == 60 || b == 43 || b == 45 || b == 46 || b == 44 || b == 91 || b == 93 {
            syms.push(b);
        }
        proof {
            assert(bytes@.take(bi as int + 1) =~= bytes@.take(bi as int).push(bytes@[bi as int]));
            lemma_symbols_push(bytes@.take(bi as int), b);
        }
        bi = bi + 1;
    }
    proof {
        assert(bytes@.take(nb as int) =~= bytes@);
    }
    syms
}

/// Folds the run-length pairs of the filtered symbols into the instruction
/// sequence, resolving brackets with an explicit stack of pending opens.
/// Growing the instruction list without touching existing entries or the
/// stack keeps the pending-stack discipline.
proof fn lemma_grow_stack_ok(st: BuildState, st2: BuildState)
    requires
        stack_ok(st),
        st2.stack == st.stack,
        st2.insts.len() >= st.insts.len(),
        forall|i: int| 0 <= i < st.insts.len() ==> st2.insts[i] == #[trigger] st.insts[i],
    ensures
        stack_ok(st2),
{
    assert forall|k: int|
        0 <= k < st2.stack.len() implies ((#[trigger] st2.stack[k]) as int) < st2.insts.len()
            && st2.insts[st2.stack[k] as int] == Inst::JmpFwd(0usize) by {
        assert(st.insts[st.stack[k] as int] == Inst::JmpFwd(0usize));
        assert(st2.insts[st.stack[k] as int] == st.insts[st.stack[k] as int]);
    }
}

/// An open step alone preserves the pending-stack discipline.
proof fn lemma_open_step_stack_ok(st: BuildState)
    requires
        stack_ok(st),
        st.insts.len() <= usize::MAX,
    ensures
        stack_ok(open_step(st)),
        open_step(st).insts.len() == st.insts.len() + 1,
{
    let st2 = open_step(st);
    assert forall|k: int|
        0 <= k < st2.stack.len() implies ((#[trigger] st2.stack[k]) as int) < st2.insts.len()
            && st2.insts[st2.stack[k] as int] == Inst::JmpFwd(0usize) by {
        if k < st.stack.len() {
            assert(st2.stack[k] == st.stack[k]);
            assert(st2.insts[st.stack[k] as int] == st.insts[st.stack[k] as int]);
        } else {
            assert(st2.stack[k] == st.insts.len() as usize);
        }
    }
    assert forall|k1: int, k2: int|
        #![trigger st2.stack[k1], st2.stack[k2]]
        0 <= k1 < k2 < st2.stack.len() implies st2.stack[k1] < st2.stack[k2] by {
        if k2 < st.stack.len() {
        } else {
            assert(st2.stack[k1] == st.stack[k1]);
            assert((st.stack[k1] as int) < st.insts.len());
        }
    }
}

proof fn lemma_open_n_stack_ok(st: BuildState, n: nat)
    requires
        stack_ok(st),
        st.insts.len() + n <= usize::MAX,
    ensures
        stack_ok(open_n(st, n)),
        open_n(st, n).insts.len() == st.insts.len() + n,
    decreases n,
{
    if n > 0 {
        lemma_open_step_stack_ok(st);
        lemma_open_n_stack_ok(open_step(st), (n - 1) as nat);
    }
}

proof fn lemma_close_n_stack_ok(st: BuildState, n: nat)
    requires
        stack_ok(st),
        st.insts.len() + n <= usize::MAX,
    ensures
        close_n(st, n) matches Some(st2) ==> (stack_ok(st2) && st2.insts.len() == st.insts.len()
            + n),
    decreases n,
{
    if n > 0 {
        lemma_close_step_stack_ok(st);
        if st.stack.len() > 0 {
            lemma_close_n_stack_ok(close_step(st)->Some_0, (n - 1) as nat);
        }
    }
}

/// One run preserves the pending-stack discipline and the size budget.
proof fn lemma_apply_run_stack_ok(st: BuildState, n: nat, b: u8)
    requires
        stack_ok(st),
        n >= 1,
        st.insts.len() + n <= usize::MAX,
    ensures
        apply_run(st, n, b) matches Some(st2) ==> (stack_ok(st2) && st2.insts.len()
            <= st.insts.len() + n),
{
    if b == 62 || b == 60 || b == 43 || b == 45 {
        let st2 = apply_run(st, n, b)->Some_0;
        lemma_grow_stack_ok(st, st2);
    } else if b == 46 || b == 44 {
        let st2 = apply_run(st, n, b)->Some_0;
        assert(st2.insts.len() == st.insts.len() + n);
        assert forall|i: int|
            0 <= i < st.insts.len() implies st2.insts[i] == #[trigger] st.insts[i] by {}
        lemma_grow_stack_ok(st, st2);
    } else if b == 91 {
        lemma_open_n_stack_ok(st, n);
    } else if b == 93 {
        lemma_close_n_stack_ok(st, n);
    }
}

/// One successful run of the builder loop: the invariant carries over to
/// the rest of the symbols.
proof fn lemma_builder_step(st0: BuildState, rl0: Seq<u8>, st1: BuildState, cnt: nat, b: u8)
    requires
        stack_ok(st0),
        rl0.len() > 0,
        st0.insts.len() + rl0.len() <= usize::MAX,
        cnt == run_front(rl0),
        b == rl0[0],
        apply_run(st0, cnt, b) == Some(st1),
    ensures
        stack_ok(st1),
        st1.insts.len() + rl0.skip(cnt as int).len() <= usize::MAX,
        build_from(st1, rl0.skip(cnt as int)) == build_from(st0, rl0),
{
    lemma_run_front_bounds(rl0);
    lemma_apply_run_stack_ok(st0, cnt, b);
}

/// A failed run (a close bracket with nothing pending) fails the fold.
proof fn lemma_builder_fail(st0: BuildState, rl0: Seq<u8>, cnt: nat, b: u8)
    requires
        rl0.len() > 0,
        cnt == run_front(rl0),
        b == rl0[0],
        apply_run(st0, cnt, b) is None,
    ensures
        build_from(st0, rl0) is None,
{
}

#[verifier::rlimit(100)]
fn run_builder(syms: Vec<u8>) -> (r: Result<Vec<Inst>, CompileError>)
    ensures
        match r {
            Ok(v) => (build_from(init_state(), syms@) matches Some(st) && st.insts == v@
                && st.stack.len() == 0),
            Err(e) => e == CompileError::UnbalancedBrackets && (build_from(init_state(), syms@)
                is None || (build_from(init_state(), syms@) matches Some(st) && st.stack.len()
                > 0)),
        },
{
    let ghost all_syms = syms@;
    let ns = syms.len();
    let mut rl = syms.run_length();
    let mut insts: Vec<Inst> = Vec::new();
    let mut stack: Vec<usize> = Vec::new();
    let mut failed = false;
    proof {
        lemma_u8_eq_structural();
        lemma_inv_init();
        assert(insts@ =~= Seq::<Inst>::empty());
        assert(stack@ =~= Seq::<usize>::empty());
        assert(BuildState { insts: insts@, stack: stack@ } == init_state());
    }
    loop
        invariant_except_break
            rl.wf(),
            !failed,
            all_syms.len() <= usize::MAX,
            (stack_ok(BuildState { insts: insts@, stack: stack@ })),
            insts@.len() + rl@.len() <= usize::MAX,
            (build_from(BuildState { insts: insts@, stack: stack@ }, rl@) == build_from(
                init_state(),
                all_syms,
            )),
        ensures
            failed ==> build_from(init_state(), all_syms) is None,
            !failed ==> build_from(init_state(), all_syms) == Some(
                BuildState { insts: insts@, stack: stack@ },
            ),
        decreases rl@.len(),
    {
        let ghost rl0 = rl@;
        let ghost st0 = BuildState { insts: insts@, stack: stack@ };
        proof {
            lemma_u8_eq_structural();
        }
        let r = rl.next();
        match r {
            None => {
                break;
            },
            Some(pair) => {
                let cnt = pair.0;
                let b = pair.1;
                proof {
                    assert(cnt == run_front(rl0) && b == rl0[0] && rl@ == rl0.skip(cnt as int));
                    lemma_run_front_bounds(rl0);
                }
                let ok = apply_run_exec(&mut insts, &mut stack, cnt, b);
                if !ok {
                    proof {
                        lemma_builder_fail(st0, rl0, cnt as nat, b);
                    }
                    failed = true;
                    break;
                }
                proof {
                    lemma_builder_step(
                        st0,
                        rl0,
                        BuildState { insts: insts@, stack: stack@ },
                        cnt as nat,
                        b,
                    );
                }
            },
        }
    }
    if failed {
        return Err(CompileError::UnbalancedBrackets);
    }
    if stack.len() > 0 {
        return Err(CompileError::UnbalancedBrackets);
    }
    Ok(insts)
}

/// The one recoverable failure: a close bracket with no pending open, or
/// opens left pending at the end of the source.
#[derive(Debug, Clone, Copy, PartialEq, Eq, Structural)]
pub enum CompileError {
    UnbalancedBrackets,
}

/// A compiled program: the bracket-matched instruction sequence, its
/// generated machine code, and the tape size to use when running it.
pub struct Brainfuck {
    insts: Vec<Inst>,
    jit_code: Vec<u8>,
    tape_size: usize,
}

impl Brainfuck {
    /// The instruction sequence this program was compiled to.
    pub closed spec fn program(self) -> Seq<Inst> {
        self.insts@
    }

    /// The generated machine-code bytes.
    pub closed spec fn code(self) -> Seq<u8> {
        self.jit_code@
    }

    pub closed spec fn spec_tape_size(self) -> usize {
        self.tape_size
    }

    /// Compiles source text: filters it to the eight-symbol alphabet,
    /// collapses runs, builds the bracket-matched instruction sequence and
    /// generates its machine code. Fails exactly when the brackets are
    /// unbalanced; every other byte is silently ignored.
    #[verifier::rlimit(100)]
    pub fn new(program: &str) -> (r: Result<Brainfuck, CompileError>)
        ensures
            match r {
                Ok(bf) => {
                    &&& build_program(program.spec_bytes()) == Some(bf.program())
                    &&& well_matched(bf.program())
                    &&& bf.code() == jit_of(bf.program())
                    &&& bf.spec_tape_size() == 30000
                },
                Err(e) => {
                    &&& e == CompileError::UnbalancedBrackets
                    &&& build_program(program.spec_bytes()) is None
                },
            },
    {
        let syms = filter_symbols(program);
        let sl = syms.len();
        proof {
            assert(symbols_of(program.spec_bytes()).len() == sl);
            lemma_filter_alphabet(program.spec_bytes());
        }
        let built = run_builder(syms);
        let insts = match built {
            Ok(v) => v,
            Err(e) => {
                proof {
                    match build_from(init_state(), symbols_of(program.spec_bytes())) {
                        None => {
                            lemma_build_failed(program.spec_bytes());
                        },
                        Some(st) => {
                            lemma_build_unclosed(program.spec_bytes(), st);
                        },
                    }
                }
                return Err(CompileError::UnbalancedBrackets);
            },
        };
        proof {
            let st = build_from(init_state(), symbols_of(program.spec_bytes()))->Some_0;
            lemma_build_finished(program.spec_bytes(), st);
        }
        let jit_code = compile(&insts);
        Ok(Brainfuck { insts, jit_code, tape_size: 30000 })
    }

    /// The configured tape size.
    pub fn tape_size(&self) -> (r: usize)
        ensures
            r == self.spec_tape_size(),
    {
        self.tape_size
    }

    /// Changes the tape size used for subsequent runs; the compiled
    /// instructions and code are untouched.
    pub fn set_tape_size(&mut self, size: usize)
        ensures
            final(self).spec_tape_size() == size,
            final(self).program() == old(self).program(),
            final(self).code() == old(self).code(),
    {
        self.tape_size = size;
    }

    /// The instruction sequence, for inspection.
    pub fn insts(&self) -> (r: &Vec<Inst>)
        ensures
            r@ == self.program(),
    {
        &self.insts
    }

    /// The generated machine-code bytes, for inspection or execution.
    pub fn jit_code(&self) -> (r: &Vec<u8>)
        ensures
            r@ == self.code(),
    {
        &self.jit_code
    }
}

/// A vector of `size` copies of `default`.
pub fn default_vec<T: Copy>(size: usize, default: T) -> (r: Vec<T>)
    ensures
        r@ == Seq::new(size as nat, |i: int| default),
{
    let mut v: Vec<T> = Vec::new();
    let mut i: usize = 0;
    while i < size
        invariant
            i <= size,
            v@ == Seq::new(i as nat, |x: int| default),
        decreases size - i,
    {
        v.push(default);
        proof {
            assert(Seq::new((i + 1) as nat, |x: int| default) =~= Seq::new(
                i as nat,
                |x: int| default,
            ).push(default));
        }
        i = i + 1;
    }
    v
}

} // verus!
