//! The mathematical model of streaming replacement: what one byte does to the
//! scan, what a chunk does, what a sequence of calls does, and the laws that
//! hold of them.
use vstd::prelude::*;

use crate::automaton::Automaton;

verus! {

/// Where a stream stands: the automaton state, the bytes whose fate is still
/// open, the bytes emitted so far, and the input bytes settled so far (emitted
/// verbatim or absorbed into a matched span), in arrival order.
pub struct Scan {
    pub sid: usize,
    pub pending: Seq<u8>,
    pub out: Seq<u8>,
    pub settled: Seq<u8>,
}

/// A scan at state `sid` holding `pending`, before anything is emitted.
pub open spec fn fresh(sid: usize, pending: Seq<u8>) -> Scan {
    Scan { sid, pending, out: Seq::empty(), settled: Seq::empty() }
}

/// Number of leading bytes of an undecided run of length `n` that lie before
/// a match of length `keep` ending at its last byte.
pub open spec fn cut_len(n: int, keep: int) -> int {
    if n > keep {
        n - keep
    } else {
        0
    }
}

/// Feeding byte `b`. On reaching the start state every undecided byte and `b`
/// itself are emitted as they are. Otherwise `b` joins the undecided bytes, and
/// at a match state of pattern `id` the bytes before its last `len_of(id)` are
/// emitted verbatim, the rest are replaced by `repl[id]`, and the scan starts
/// over.
pub open spec fn step(aut: Automaton, repl: Seq<Seq<u8>>, sc: Scan, b: u8) -> Scan {
    let s = aut.next(sc.sid, b);
    let p = sc.pending.push(b);
    if aut.is_start_spec(s) {
        Scan { sid: s, pending: Seq::empty(), out: sc.out + p, settled: sc.settled + p }
    } else {
        match aut.match_at(s) {
            None => Scan { sid: s, pending: p, out: sc.out, settled: sc.settled },
            Some(id) => Scan {
                sid: aut.start_id(),
                pending: Seq::empty(),
                out: sc.out + p.take(cut_len(p.len() as int, aut.len_of(id) as int)) + repl[id as int],
                settled: sc.settled + p,
            },
        }
    }
}

/// Feeding `input` byte by byte.
pub open spec fn run(aut: Automaton, repl: Seq<Seq<u8>>, sc: Scan, input: Seq<u8>) -> Scan
    decreases input.len(),
{
    if input.len() == 0 {
        sc
    } else {
        step(aut, repl, run(aut, repl, sc, input.drop_last()), input.last())
    }
}

/// Feeding `chunks` in successive calls: each call starts from the state and
/// undecided bytes that the previous one left, and its output and settled
/// bytes are appended to those before it.
pub open spec fn run_calls(aut: Automaton, repl: Seq<Seq<u8>>, sc: Scan, chunks: Seq<Seq<u8>>) -> Scan
    decreases chunks.len(),
{
    if chunks.len() == 0 {
        sc
    } else {
        let before = run_calls(aut, repl, sc, chunks.drop_last());
        let call = run(aut, repl, fresh(before.sid, before.pending), chunks.last());
        Scan {
            sid: call.sid,
            pending: call.pending,
            out: before.out + call.out,
            settled: before.settled + call.settled,
        }
    }
}

/// No byte of `input`, fed from `sc`, leads to a match state.
pub open spec fn never_matches(aut: Automaton, repl: Seq<Seq<u8>>, sc: Scan, input: Seq<u8>) -> bool {
    forall|i: int|
        0 <= i < input.len() ==> (#[trigger] aut.match_at(
            aut.next(run(aut, repl, sc, input.take(i)).sid, input[i]),
        )) is None
}

/// Bytes are held back only while a match is in progress: undecided bytes
/// exist only away from the start state.
pub open spec fn held_only_mid_match(aut: Automaton, sc: Scan) -> bool {
    sc.pending.len() > 0 ==> !aut.is_start_spec(sc.sid)
}

/// Holding back bytes only mid-match is kept by every input.
pub proof fn lemma_held_only_mid_match(aut: Automaton, repl: Seq<Seq<u8>>, sc: Scan, input: Seq<u8>)
    requires
        held_only_mid_match(aut, sc),
    ensures
        held_only_mid_match(aut, run(aut, repl, sc, input)),
    decreases input.len(),
{
    if input.len() > 0 {
        lemma_held_only_mid_match(aut, repl, sc, input.drop_last());
    }
}

/// Feeding `a` and then `b` is feeding `a + b`.
pub proof fn lemma_run_append(aut: Automaton, repl: Seq<Seq<u8>>, sc: Scan, a: Seq<u8>, b: Seq<u8>)
    ensures
        run(aut, repl, sc, a + b) == run(aut, repl, run(aut, repl, sc, a), b),
    decreases b.len(),
{
    if b.len() == 0 {
        assert(a + b =~= a);
    } else {
        assert((a + b).drop_last() =~= a + b.drop_last());
        assert((a + b).last() == b.last());
        lemma_run_append(aut, repl, sc, a, b.drop_last());
    }
}

/// Feeding the first `i + 1` bytes is one step after feeding the first `i`.
pub proof fn lemma_run_take(aut: Automaton, repl: Seq<Seq<u8>>, sc: Scan, input: Seq<u8>, i: int)
    requires
        0 <= i < input.len(),
    ensures
        run(aut, repl, sc, input.take(i + 1)) == step(aut, repl, run(aut, repl, sc, input.take(i)), input[i]),
{
    assert(input.take(i + 1).drop_last() =~= input.take(i));
}

/// Output and settled bytes only ever grow by appending.
pub proof fn lemma_run_extends(aut: Automaton, repl: Seq<Seq<u8>>, sc: Scan, input: Seq<u8>)
    ensures
        run(aut, repl, sc, input).out.take(sc.out.len() as int) == sc.out,
        run(aut, repl, sc, input).out.len() >= sc.out.len(),
        run(aut, repl, sc, input).settled.take(sc.settled.len() as int) == sc.settled,
        run(aut, repl, sc, input).settled.len() >= sc.settled.len(),
    decreases input.len(),
{
    if input.len() > 0 {
        let before = run(aut, repl, sc, input.drop_last());
        lemma_run_extends(aut, repl, sc, input.drop_last());
        let after = run(aut, repl, sc, input);
        assert(after.out.take(before.out.len() as int) =~= before.out);
        assert(after.settled.take(before.settled.len() as int) =~= before.settled);
        assert(after.out.take(sc.out.len() as int) =~= before.out.take(sc.out.len() as int));
        assert(after.settled.take(sc.settled.len() as int) =~= before.settled.take(sc.settled.len() as int));
    }
}

/// What a run adds to the output and settled bytes does not depend on what was
/// there before.
pub proof fn lemma_run_shift(aut: Automaton, repl: Seq<Seq<u8>>, sc: Scan, input: Seq<u8>)
    ensures
        ({
            let whole = run(aut, repl, sc, input);
            let part = run(aut, repl, fresh(sc.sid, sc.pending), input);
            &&& whole.sid == part.sid
            &&& whole.pending == part.pending
            &&& whole.out == sc.out + part.out
            &&& whole.settled == sc.settled + part.settled
        }),
    decreases input.len(),
{
    if input.len() > 0 {
        lemma_run_shift(aut, repl, sc, input.drop_last());
        let whole = run(aut, repl, sc, input.drop_last());
        let part = run(aut, repl, fresh(sc.sid, sc.pending), input.drop_last());
        let b = input.last();
        let s = aut.next(whole.sid, b);
        let p = whole.pending.push(b);
        if aut.is_start_spec(s) {
            assert(sc.out + part.out + p =~= sc.out + (part.out + p));
            assert(sc.settled + part.settled + p =~= sc.settled + (part.settled + p));
        } else if let Some(id) = aut.match_at(s) {
            let cut = p.take(cut_len(p.len() as int, aut.len_of(id) as int));
            assert(sc.out + part.out + cut + repl[id as int] =~= sc.out + (part.out + cut
                + repl[id as int]));
            assert(sc.settled + part.settled + p =~= sc.settled + (part.settled + p));
        }
    }
}

/// Conservation: every byte fed is, exactly once and in order, either settled
/// (emitted verbatim or absorbed into a matched span) or still undecided; none
/// is duplicated or dropped.
pub proof fn lemma_conservation(aut: Automaton, repl: Seq<Seq<u8>>, sc: Scan, input: Seq<u8>)
    ensures
        run(aut, repl, sc, input).settled + run(aut, repl, sc, input).pending == sc.settled
            + sc.pending + input,
        run(aut, repl, sc, input).settled.len() + run(aut, repl, sc, input).pending.len()
            == sc.settled.len() + sc.pending.len() + input.len(),
    decreases input.len(),
{
    if input.len() > 0 {
        lemma_conservation(aut, repl, sc, input.drop_last());
        let before = run(aut, repl, sc, input.drop_last());
        let after = run(aut, repl, sc, input);
        let b = input.last();
        assert(before.settled + before.pending.push(b) =~= (before.settled + before.pending).push(b));
        assert((sc.settled + sc.pending + input.drop_last()).push(b) =~= sc.settled + sc.pending
            + input);
        assert(after.settled + after.pending =~= before.settled + before.pending.push(
            input.last(),
        ));
    }
}

/// A sequence of calls lands where one call on the concatenated chunks does.
pub proof fn lemma_run_calls_flatten(
    aut: Automaton,
    repl: Seq<Seq<u8>>,
    sc: Scan,
    chunks: Seq<Seq<u8>>,
)
    ensures
        run_calls(aut, repl, sc, chunks) == run(aut, repl, sc, chunks.flatten()),
    decreases chunks.len(),
{
    if chunks.len() > 0 {
        lemma_run_calls_flatten(aut, repl, sc, chunks.drop_last());
        let before = run(aut, repl, sc, chunks.drop_last().flatten());
        chunks.drop_last().lemma_flatten_push(chunks.last());
        assert(chunks.drop_last().push(chunks.last()) =~= chunks);
        lemma_run_append(aut, repl, sc, chunks.drop_last().flatten(), chunks.last());
        lemma_run_shift(aut, repl, before, chunks.last());
    }
}

/// Chunk-boundary independence: two partitions of the same input into calls
/// reach the same automaton state with the same undecided bytes, and emit the
/// same concatenated output; so the output including the final drain agrees too.
pub proof fn lemma_chunk_boundary_independence(
    aut: Automaton,
    repl: Seq<Seq<u8>>,
    sc: Scan,
    chunks1: Seq<Seq<u8>>,
    chunks2: Seq<Seq<u8>>,
)
    requires
        chunks1.flatten() == chunks2.flatten(),
    ensures
        run_calls(aut, repl, sc, chunks1) == run_calls(aut, repl, sc, chunks2),
        run_calls(aut, repl, sc, chunks1).out + run_calls(aut, repl, sc, chunks1).pending
            == run_calls(aut, repl, sc, chunks2).out + run_calls(aut, repl, sc, chunks2).pending,
{
    lemma_run_calls_flatten(aut, repl, sc, chunks1);
    lemma_run_calls_flatten(aut, repl, sc, chunks2);
}

/// Input that never reaches a match state comes out unaltered: what is emitted
/// followed by what is still undecided is what was undecided followed by the
/// input.
pub proof fn lemma_no_match_identity(aut: Automaton, repl: Seq<Seq<u8>>, sc: Scan, input: Seq<u8>)
    requires
        never_matches(aut, repl, sc, input),
    ensures
        run(aut, repl, sc, input).out + run(aut, repl, sc, input).pending == sc.out + sc.pending
            + input,
    decreases input.len(),
{
    if input.len() > 0 {
        let init = input.drop_last();
        assert forall|i: int| 0 <= i < init.len() implies (#[trigger] aut.match_at(
            aut.next(run(aut, repl, sc, init.take(i)).sid, init[i]),
        )) is None by {
            assert(init.take(i) =~= input.take(i));
            assert(aut.match_at(aut.next(run(aut, repl, sc, input.take(i)).sid, input[i])) is None);
        }
        lemma_no_match_identity(aut, repl, sc, init);
        let k = input.len() - 1;
        assert(input.take(k) =~= init);
        assert(aut.match_at(aut.next(run(aut, repl, sc, input.take(k)).sid, input[k])) is None);
        let before = run(aut, repl, sc, init);
        let b = input.last();
        assert(before.out + before.pending.push(b) =~= (before.out + before.pending).push(b));
        assert((sc.out + sc.pending + init).push(b) =~= sc.out + sc.pending + input);
    }
}

} // verus!
