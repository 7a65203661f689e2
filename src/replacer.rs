//! The streaming replacer: feeds chunks through the automaton, holds back the
//! bytes that may still belong to a match, and writes everything decided into
//! an output buffer reused from call to call.
use std::collections::VecDeque;
use std::sync::Arc;

use vstd::prelude::*;

use crate::automaton::{Automaton, MatchError};
use crate::stream::{
    cut_len, fresh, held_only_mid_match, lemma_held_only_mid_match, lemma_run_append,
    lemma_run_extends, lemma_run_take, run, step, Scan,
};

verus! {

/// Replaces every pattern occurrence in a stream fed chunk by chunk.
pub struct AhoCorasickReplacer {
    aut: Arc<Automaton>,
    sid: usize,
    replace_with: Vec<Vec<u8>>,
    /// Output of the current call in `[0, write index)`; the rest is stale.
    buffer: Vec<u8>,
    /// Bytes consumed since the last decision that may still start a match.
    potential_buffer: VecDeque<u8>,
}

impl AhoCorasickReplacer {
    /// The shared automaton.
    pub closed spec fn automaton(&self) -> Automaton {
        *self.aut
    }

    /// The replacement table, indexed by pattern id.
    pub closed spec fn replacements(&self) -> Seq<Seq<u8>> {
        self.replace_with@.map_values(|v: Vec<u8>| v@)
    }

    /// The current automaton state.
    pub closed spec fn state(&self) -> usize {
        self.sid
    }

    /// The bytes whose fate is still undecided.
    pub closed spec fn pending(&self) -> Seq<u8> {
        self.potential_buffer@
    }

    /// The stream's position as a scan that has emitted nothing yet.
    pub open spec fn scan(&self) -> Scan {
        fresh(self.state(), self.pending())
    }

    /// What feeding `chunk` does from the current position.
    pub open spec fn after(&self, chunk: Seq<u8>) -> Scan {
        run(self.automaton(), self.replacements(), self.scan(), chunk)
    }

    /// The parts of the invariant that hold between bytes too.
    closed spec fn tables_wf(&self) -> bool {
        &&& self.aut.wf()
        &&& self.aut.supports_unanchored()
        &&& self.sid < self.aut.state_count()
        &&& self.replace_with@.len() == self.aut.pattern_count()
    }

    /// The replacer's invariant.
    pub closed spec fn wf(&self) -> bool {
        &&& self.tables_wf()
        &&& held_only_mid_match(*self.aut, self.scan())
    }

    /// Starts a stream over `aut` that replaces pattern `i` by
    /// `replace_with[i]`; fails when `aut` offers no unanchored start state.
    pub fn new(aut: Arc<Automaton>, replace_with: Vec<Vec<u8>>) -> (r: Result<Self, MatchError>)
        requires
            aut.wf(),
            replace_with@.len() == aut.pattern_count(),
        ensures
            r is Ok <==> aut.supports_unanchored(),
            r matches Err(e) ==> e == MatchError::InvalidInputUnanchored,
            r matches Ok(rep) ==> {
                &&& rep.wf()
                &&& rep.automaton() == *aut
                &&& rep.replacements() == replace_with@.map_values(|v: Vec<u8>| v@)
                &&& rep.state() == aut.start_id()
                &&& rep.pending() == Seq::<u8>::empty()
            },
    {
        let sid = match aut.start_state() {
            Ok(s) => s,
            Err(e) => {
                return Err(e);
            },
        };
        proof {
            aut.lemma_wf();
        }
        Ok(AhoCorasickReplacer {
            aut,
            sid,
            replace_with,
            buffer: Vec::new(),
            potential_buffer: VecDeque::new(),
        })
    }

    /// Feeds `chunk` and returns the bytes decided by it, in order: undecided
    /// bytes flushed verbatim, bytes before a match, and replacements. The
    /// whole chunk is consumed even when nothing comes out: bytes that may still
    /// belong to a match stay pending for the next call or for `finish`.
    pub fn replace(&mut self, chunk: &[u8]) -> (r: Result<&[u8], MatchError>)
        requires
            old(self).wf(),
            old(self).after(chunk@).out.len() <= usize::MAX,
        ensures
            final(self).wf(),
            final(self).automaton() == old(self).automaton(),
            final(self).replacements() == old(self).replacements(),
            final(self).state() == old(self).after(chunk@).sid,
            final(self).pending() == old(self).after(chunk@).pending,
            r matches Ok(out) && out@ == old(self).after(chunk@).out,
            chunk@.len() == 0 ==> {
                &&& r matches Ok(out) && out@.len() == 0
                &&& final(self).state() == old(self).state()
                &&& final(self).pending() == old(self).pending()
            },
    {
        let ghost aut = self.automaton();
        let ghost repl = self.replacements();
        let ghost sc0 = self.scan();
        let ghost total = run(aut, repl, sc0, chunk@).out.len();
        // Room for the worst case in which every pending and incoming byte is
        // flushed unreplaced; longer output grows the buffer by doubling.
        let held = self.potential_buffer.len();
        if chunk.len() <= usize::MAX - held {
            let need = chunk.len() + held;
            if self.buffer.len() < need {
                self.buffer.resize(need, 0u8);
            }
        }
        proof {
            self.aut.lemma_wf();
        }
        let mut write_idx: usize = 0;
        let mut i: usize = 0;
        while i < chunk.len()
            invariant
                self.wf(),
                self.automaton() == aut,
                self.replacements() == repl,
                i <= chunk@.len(),
                total == run(aut, repl, sc0, chunk@).out.len(),
                total <= usize::MAX,
                held_only_mid_match(aut, sc0),
                write_idx <= self.buffer@.len(),
                self.sid == run(aut, repl, sc0, chunk@.take(i as int)).sid,
                self.potential_buffer@ == run(aut, repl, sc0, chunk@.take(i as int)).pending,
                self.buffer@.take(write_idx as int) == run(aut, repl, sc0, chunk@.take(i as int)).out,
            decreases chunk@.len() - i,
        {
            let byte = chunk[i];
            let ghost sc = run(aut, repl, sc0, chunk@.take(i as int));
            let ghost next = step(aut, repl, sc, byte);
            proof {
                lemma_run_take(aut, repl, sc0, chunk@, i as int);
                lemma_held_only_mid_match(aut, repl, sc0, chunk@.take(i + 1));
                lemma_run_extends(aut, repl, next, chunk@.skip(i + 1));
                lemma_run_append(aut, repl, sc0, chunk@.take(i + 1), chunk@.skip(i + 1));
                assert(chunk@.take(i + 1) + chunk@.skip(i + 1) =~= chunk@);
                self.aut.lemma_wf();
            }
            self.sid = self.aut.next_state(self.sid, byte);
            if self.aut.is_start(self.sid) {
                let ghost p = sc.pending.push(byte);
                let ghost k: int = 0;
                let ghost sid_now = self.sid;
                while self.potential_buffer.len() > 0
                    invariant
                        self.tables_wf(),
                        self.automaton() == aut,
                        self.replacements() == repl,
                        self.sid == sid_now,
                        0 <= k <= sc.pending.len(),
                        p == sc.pending.push(byte),
                        self.potential_buffer@ == sc.pending.skip(k),
                        write_idx == sc.out.len() + k,
                        write_idx <= self.buffer@.len(),
                        self.buffer@.take(write_idx as int) == sc.out + sc.pending.take(k),
                        sc.out.len() + p.len() <= total,
                        total <= usize::MAX,
                    decreases sc.pending.len() - k,
                {
                    let b = self.potential_buffer.pop_front().unwrap();
                    Self::write_to_buffer(&mut self.buffer, &mut write_idx, b);
                    proof {
                        assert(sc.pending.take(k + 1) =~= sc.pending.take(k).push(b));
                        assert(sc.pending.skip(k + 1) =~= sc.pending.skip(k).drop_first());
                        k = k + 1;
                    }
                }
                Self::write_to_buffer(&mut self.buffer, &mut write_idx, byte);
                proof {
                    assert(sc.pending.take(k) =~= sc.pending);
                    assert(sc.out + sc.pending.push(byte) =~= (sc.out + sc.pending).push(byte));
                }
            } else {
                self.potential_buffer.push_back(byte);
                if let Some(pid) = self.aut.match_pattern(self.sid) {
                    let ghost p = sc.pending.push(byte);
                    let ghost cut = cut_len(p.len() as int, aut.len_of(pid) as int);
                    let ghost rp = repl[pid as int];
                    let pattern_len = self.aut.pattern_len(pid);
                    let ghost k: int = 0;
                    let ghost sid_now = self.sid;
                    while self.potential_buffer.len() > pattern_len
                        invariant
                            self.tables_wf(),
                            self.automaton() == aut,
                            self.replacements() == repl,
                            self.sid == sid_now,
                            0 <= k <= cut,
                            p == sc.pending.push(byte),
                            cut == cut_len(p.len() as int, pattern_len as int),
                            self.potential_buffer@ == p.skip(k),
                            write_idx == sc.out.len() + k,
                            write_idx <= self.buffer@.len(),
                            self.buffer@.take(write_idx as int) == sc.out + p.take(k),
                            sc.out.len() + cut <= total,
                            total <= usize::MAX,
                        decreases p.len() - k,
                    {
                        let b = self.potential_buffer.pop_front().unwrap();
                        Self::write_to_buffer(&mut self.buffer, &mut write_idx, b);
                        proof {
                            assert(p.take(k + 1) =~= p.take(k).push(b));
                            assert(p.skip(k + 1) =~= p.skip(k).drop_first());
                            k = k + 1;
                        }
                    }
                    self.potential_buffer.clear();
                    let replacement: &Vec<u8> = &self.replace_with[pid];
                    let mut j: usize = 0;
                    while j < replacement.len()
                        invariant
                            self.tables_wf(),
                            self.automaton() == aut,
                            self.replacements() == repl,
                            self.sid == sid_now,
                            replacement@ == rp,
                            self.potential_buffer@ == Seq::<u8>::empty(),
                            j <= rp.len(),
                            write_idx == sc.out.len() + cut + j,
                            write_idx <= self.buffer@.len(),
                            self.buffer@.take(write_idx as int) == sc.out + p.take(cut) + rp.take(j as int),
                            sc.out.len() + cut + rp.len() <= total,
                            total <= usize::MAX,
                        decreases rp.len() - j,
                    {
                        Self::write_to_buffer(&mut self.buffer, &mut write_idx, replacement[j]);
                        proof {
                            assert(rp.take(j + 1) =~= rp.take(j as int).push(rp[j as int]));
                        }
                        j = j + 1;
                    }
                    proof {
                        assert(rp.take(j as int) =~= rp);
                    }
                    self.sid = match self.aut.start_state() {
                        Ok(s) => s,
                        Err(e) => {
                            return Err(e);
                        },
                    };
                }
            }
            i = i + 1;
        }
        proof {
            assert(chunk@.take(i as int) =~= chunk@);
        }
        let out = vstd::slice::slice_subrange(self.buffer.as_slice(), 0, write_idx);
        Ok(out)
    }

    /// Ends the stream: the bytes still undecided are not a match (the stream
    /// ended before one was confirmed) and come out verbatim, in order.
    pub fn finish(&mut self) -> (r: Result<&[u8], MatchError>)
        requires
            old(self).wf(),
        ensures
            r matches Ok(out) && out@ == old(self).pending(),
            final(self).wf(),
            final(self).automaton() == old(self).automaton(),
            final(self).replacements() == old(self).replacements(),
            final(self).state() == old(self).state(),
            final(self).pending() == old(self).pending(),
    {
        let n = self.potential_buffer.len();
        let mut write_idx: usize = 0;
        while write_idx < n
            invariant
                self.wf(),
                self.aut == old(self).aut,
                self.replace_with == old(self).replace_with,
                self.sid == old(self).sid,
                self.potential_buffer == old(self).potential_buffer,
                n == self.potential_buffer@.len(),
                write_idx <= n,
                write_idx <= self.buffer@.len(),
                self.buffer@.take(write_idx as int) == self.potential_buffer@.take(write_idx as int),
            decreases n - write_idx,
        {
            let b = self.potential_buffer[write_idx];
            proof {
                assert(self.potential_buffer@.take(write_idx + 1) =~= self.potential_buffer@.take(
                    write_idx as int,
                ).push(b));
            }
            Self::write_to_buffer(&mut self.buffer, &mut write_idx, b);
        }
        proof {
            assert(self.potential_buffer@.take(write_idx as int) =~= self.potential_buffer@);
        }
        Ok(vstd::slice::slice_subrange(self.buffer.as_slice(), 0, write_idx))
    }

    /// Writes `byte` at `*idx` and advances the index, doubling the buffer (or
    /// giving it its first slot) when the index has reached its end.
    #[inline(always)]
    fn write_to_buffer(buf: &mut Vec<u8>, idx: &mut usize, byte: u8)
        requires
            *old(idx) <= old(buf)@.len(),
            *old(idx) < usize::MAX,
        ensures
            *final(idx) == *old(idx) + 1,
            *final(idx) <= final(buf)@.len(),
            final(buf)@.len() >= old(buf)@.len(),
            final(buf)@.take(*final(idx) as int) == old(buf)@.take(*old(idx) as int).push(byte),
    {
        let len = buf.len();
        if *idx >= len {
            let grown = if len == 0 {
                1
            } else if len <= usize::MAX / 2 {
                len * 2
            } else {
                usize::MAX
            };
            buf.resize(grown, 0u8);
        }
        let ghost before = buf@;
        buf.set(*idx, byte);
        proof {
            assert(buf@.take(*idx + 1) =~= old(buf)@.take(*idx as int).push(byte)) by {
                assert(before.take(*idx as int) =~= old(buf)@.take(*idx as int));
            }
        }
        *idx = *idx + 1;
    }
}

} // verus!
