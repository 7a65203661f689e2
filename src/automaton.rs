//! A multi-pattern matching automaton stored as a dense transition table.
//!
//! Building the table (trie, failure links) is the business of whoever hands it
//! over; this module only checks that the table is well formed and answers the
//! queries that the streaming replacer needs.
use vstd::prelude::*;

verus! {

/// Number of possible input bytes, i.e. the stride of one state's row.
pub const ALPHABET_LEN: usize = 256;

/// Error raised when the automaton cannot provide the start state that an
/// unanchored search needs.
#[derive(Debug, Clone, Copy, PartialEq, Eq, Structural)]
pub enum MatchError {
    /// The automaton was built for anchored searches only.
    InvalidInputUnanchored,
}

/// A dense deterministic automaton: state `s` on byte `b` moves to
/// `trans[s * 256 + b]`. A state is a match state when `matches[s]` names the
/// primary pattern recognised there.
pub struct Automaton {
    trans: Vec<usize>,
    start: usize,
    unanchored: bool,
    matches: Vec<Option<usize>>,
    pattern_lens: Vec<usize>,
}

/// Whether raw table parts describe a usable automaton: one row of 256
/// in-range targets per state, an in-range start state, and match entries that
/// name existing patterns.
pub open spec fn table_wf(
    trans: Seq<usize>,
    start: usize,
    matches: Seq<Option<usize>>,
    pattern_lens: Seq<usize>,
) -> bool {
    &&& 0 < matches.len()
    &&& trans.len() == matches.len() * 256
    &&& start < matches.len()
    &&& forall|i: int| 0 <= i < trans.len() ==> #[trigger] trans[i] < matches.len()
    &&& forall|s: int|
        0 <= s < matches.len() ==> (#[trigger] matches[s] matches Some(p) ==> p < pattern_lens.len())
}

impl Automaton {
    /// Well-formedness of the table.
    pub closed spec fn wf(&self) -> bool {
        table_wf(self.trans@, self.start, self.matches@, self.pattern_lens@)
    }

    /// Number of states.
    pub closed spec fn state_count(&self) -> nat {
        self.matches@.len()
    }

    /// Number of patterns.
    pub closed spec fn pattern_count(&self) -> nat {
        self.pattern_lens@.len()
    }

    /// The state reached from `s` on byte `b`.
    pub closed spec fn next(&self, s: usize, b: u8) -> usize {
        self.trans@[s * 256 + b]
    }

    /// The start state (no partial match in progress).
    pub closed spec fn start_id(&self) -> usize {
        self.start
    }

    /// Whether the automaton offers an unanchored start state.
    pub closed spec fn supports_unanchored(&self) -> bool {
        self.unanchored
    }

    /// The primary pattern recognised at `s`, if `s` is a match state.
    pub closed spec fn match_at(&self, s: usize) -> Option<usize> {
        self.matches@[s as int]
    }

    /// Length in bytes of pattern `p`.
    pub closed spec fn len_of(&self, p: usize) -> usize {
        self.pattern_lens@[p as int]
    }

    /// Whether state `s` is the start state.
    pub open spec fn is_start_spec(&self, s: usize) -> bool {
        s == self.start_id()
    }

    /// Assembles an automaton from its table parts; `None` when they are not
    /// well formed. `unanchored` says whether unanchored searches are allowed.
    pub fn new(
        trans: Vec<usize>,
        start: usize,
        unanchored: bool,
        matches: Vec<Option<usize>>,
        pattern_lens: Vec<usize>,
    ) -> (r: Option<Self>)
        ensures
            r is Some <==> table_wf(trans@, start, matches@, pattern_lens@),
            r matches Some(a) ==> {
                &&& a.wf()
                &&& a.state_count() == matches@.len()
                &&& a.pattern_count() == pattern_lens@.len()
                &&& a.start_id() == start
                &&& a.supports_unanchored() == unanchored
                &&& forall|s: usize, b: u8|
                    s < matches@.len() ==> #[trigger] a.next(s, b) == trans@[s * 256 + b]
                &&& forall|s: usize| s < matches@.len() ==> #[trigger] a.match_at(s) == matches@[s as int]
                &&& forall|p: usize| p < pattern_lens@.len() ==> #[trigger] a.len_of(p) == pattern_lens@[p as int]
            },
    {
        let n = matches.len();
        if n == 0 || start >= n {
            return None;
        }
        let tl = trans.len();
        if n > usize::MAX / ALPHABET_LEN || tl != n * ALPHABET_LEN {
            proof {
                if n > usize::MAX / 256 {
                    assert(n * 256 > trans@.len()) by (nonlinear_arith)
                        requires
                            n > usize::MAX / 256,
                            trans@.len() == tl;
                }
            }
            return None;
        }
        let mut i: usize = 0;
        while i < trans.len()
            invariant
                i <= trans@.len(),
                n == matches@.len(),
                forall|j: int| 0 <= j < i ==> #[trigger] trans@[j] < n,
            decreases trans@.len() - i,
        {
            if trans[i] >= n {
                assert(!(trans@[i as int] < matches@.len()));
                return None;
            }
            i = i + 1;
        }
        let mut s: usize = 0;
        while s < n
            invariant
                s <= n,
                n == matches@.len(),
                forall|t: int|
                    0 <= t < s ==> (#[trigger] matches@[t] matches Some(p) ==> p < pattern_lens@.len()),
            decreases n - s,
        {
            if let Some(p) = matches[s] {
                if p >= pattern_lens.len() {
                    return None;
                }
            }
            s = s + 1;
        }
        Some(Automaton { trans, start, unanchored, matches, pattern_lens })
    }

    /// The unanchored start state, or the error when only anchored searches
    /// were built for.
    pub fn start_state(&self) -> (r: Result<usize, MatchError>)
        ensures
            self.supports_unanchored() ==> r == Ok::<usize, MatchError>(self.start_id()),
            !self.supports_unanchored() ==> r == Err::<usize, MatchError>(
                MatchError::InvalidInputUnanchored,
            ),
    {
        if self.unanchored {
            Ok(self.start)
        } else {
            Err(MatchError::InvalidInputUnanchored)
        }
    }

    /// The state reached from `s` on byte `b`.
    #[inline(always)]
    pub fn next_state(&self, s: usize, b: u8) -> (r: usize)
        requires
            self.wf(),
            s < self.state_count(),
        ensures
            r == self.next(s, b),
            r < self.state_count(),
    {
        let len = self.trans.len();
        proof {
            assert(s * 256 + b < len) by (nonlinear_arith)
                requires
                    s < self.matches@.len(),
                    len == self.matches@.len() * 256,
                    b < 256;
        }
        self.trans[s * ALPHABET_LEN + b as usize]
    }

    /// Whether `s` is the start state.
    #[inline(always)]
    pub fn is_start(&self, s: usize) -> (r: bool)
        ensures
            r == self.is_start_spec(s),
    {
        s == self.start
    }

    /// The primary pattern recognised at `s`, if any.
    #[inline(always)]
    pub fn match_pattern(&self, s: usize) -> (r: Option<usize>)
        requires
            self.wf(),
            s < self.state_count(),
        ensures
            r == self.match_at(s),
            r matches Some(p) ==> p < self.pattern_count(),
    {
        self.matches[s]
    }

    /// Length in bytes of pattern `p`.
    #[inline(always)]
    pub fn pattern_len(&self, p: usize) -> (r: usize)
        requires
            p < self.pattern_count(),
        ensures
            r == self.len_of(p),
    {
        self.pattern_lens[p]
    }

    /// Facts about a well-formed automaton that callers rely on.
    pub proof fn lemma_wf(&self)
        requires
            self.wf(),
        ensures
            self.start_id() < self.state_count(),
            forall|s: usize, b: u8| s < self.state_count() ==> #[trigger] self.next(s, b) < self.state_count(),
            forall|s: usize| s < self.state_count() ==> (#[trigger] self.match_at(s) matches Some(p) ==> p < self.pattern_count()),
    {
        assert forall|s: usize, b: u8| s < self.state_count() implies #[trigger] self.next(s, b) < self.state_count() by {
            assert(s * 256 + b < self.trans@.len()) by (nonlinear_arith)
                requires
                    s < self.matches@.len(),
                    self.trans@.len() == self.matches@.len() * 256,
                    b < 256;
        }
    }
}

} // verus!
