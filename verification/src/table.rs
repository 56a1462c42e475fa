//! The state table: the closure of `(0, 0)` with the successors of every
//! state resolved to indices.

use crate::closure::{closure, holds, is_closed, is_state_set, lex_lt, origin, reachable, step};
use crate::counts::{dec, dec_spec, inc, inc_spec};
use crate::state::E;
use vstd::prelude::*;

verus! {

/// `j` is the index under which `s` holds the counts `c`: that of the last
/// state with these counts (in a state set, of the only one).
pub open spec fn is_index_of(s: Seq<E>, c: (int, int), j: int) -> bool {
    &&& 0 <= j < s.len()
    &&& s[j].counts() == c
    &&& forall|i: int| j < i < s.len() ==> #[trigger] s[i].counts() != c
}

/// The four successor indices of `e` are the indices under which `s` holds
/// the four successors of its counts.
pub open spec fn resolved(s: Seq<E>, e: E) -> bool {
    let n0 = e.n0 as int;
    let n1 = e.n1 as int;
    &&& is_index_of(s, (n0, dec_spec(n1)), e.s00 as int)
    &&& is_index_of(s, (inc_spec(n0), dec_spec(n1)), e.s01 as int)
    &&& is_index_of(s, (dec_spec(n0), n1), e.s10 as int)
    &&& is_index_of(s, (dec_spec(n0), inc_spec(n1)), e.s11 as int)
}

/// The first successor of the counts `c`, in the order `s00`, `s01`, `s10`,
/// `s11`, that `s` does not hold.
pub open spec fn first_missing(s: Seq<E>, c: (int, int)) -> Option<(int, int)> {
    if !holds(s, (c.0, dec_spec(c.1))) {
        Some((c.0, dec_spec(c.1)))
    } else if !holds(s, (inc_spec(c.0), dec_spec(c.1))) {
        Some((inc_spec(c.0), dec_spec(c.1)))
    } else if !holds(s, (dec_spec(c.0), c.1)) {
        Some((dec_spec(c.0), c.1))
    } else if !holds(s, (dec_spec(c.0), inc_spec(c.1))) {
        Some((dec_spec(c.0), inc_spec(c.1)))
    } else {
        None
    }
}

/// `t` is `s` with every successor resolved: the same counts at the same
/// places, and each state's indices resolved in the sequence.
pub open spec fn is_resolution_of(s: Seq<E>, t: Seq<E>) -> bool {
    &&& t.len() == s.len()
    &&& forall|i: int| 0 <= i < t.len() ==> #[trigger] t[i].counts() == s[i].counts()
    &&& forall|i: int| 0 <= i < t.len() ==> #[trigger] resolved(t, t[i])
}

/// `t` is the state table: the states reachable from `(0, 0)`, in ascending
/// order, each with its successors resolved.
pub open spec fn is_table(t: Seq<E>) -> bool {
    &&& is_state_set(t)
    &&& forall|c: (int, int)| holds(t, c) <==> reachable(origin(), c)
    &&& forall|i: int| 0 <= i < t.len() ==> #[trigger] resolved(t, t[i])
}

/// A successor that the state set lacks: the index of the state whose
/// transition leads out of the set, and the counts that are missing.
#[derive(PartialEq, Eq, Structural, Clone, Copy, Debug)]
pub struct Unresolved {
    pub state: usize,
    pub n0: u32,
    pub n1: u32,
}

/// The index of the state with the counts `(n0, n1)`, if there is one.
pub fn lookup(states: &Vec<E>, n0: u32, n1: u32) -> (r: Option<usize>)
    ensures
        match r {
            Some(j) => is_index_of(states@, (n0 as int, n1 as int), j as int),
            None => !holds(states@, (n0 as int, n1 as int)),
        },
{
    let ghost c = (n0 as int, n1 as int);
    let mut found: Option<usize> = None;
    let mut j: usize = 0;
    while j < states.len()
        invariant
            j <= states.len(),
            c == (n0 as int, n1 as int),
            match found {
                Some(f) => f < j && states[f as int].counts() == c && forall|i: int|
                    f < i < j ==> #[trigger] states[i].counts() != c,
                None => forall|i: int| 0 <= i < j ==> #[trigger] states[i].counts() != c,
            },
        decreases states.len() - j,
    {
        if states[j].n0 == n0 && states[j].n1 == n1 {
            found = Some(j);
        }
        j += 1;
    }
    found
}

/// Index lookups depend on the counts alone.
pub proof fn lemma_index_same_counts(s: Seq<E>, t: Seq<E>, c: (int, int), j: int)
    requires
        s.len() == t.len(),
        forall|i: int| 0 <= i < s.len() ==> (#[trigger] t[i]).counts() == s[i].counts(),
        is_index_of(s, c, j),
    ensures
        is_index_of(t, c, j),
{
    assert(t[j].counts() == s[j].counts());
    assert forall|i: int| j < i < t.len() implies #[trigger] t[i].counts() != c by {
        assert(s[i].counts() != c);
    }
}

/// Fills in the successor indices of every state.
///
/// Fails at the first state with a successor that the sequence does not
/// hold, and names that state and the first such successor. It succeeds
/// exactly on the sequences that are closed under transitions.
pub fn resolve(states: Vec<E>) -> (r: Result<Vec<E>, Unresolved>)
    requires
        states.len() <= u32::MAX,
    ensures
        match r {
            Ok(t) => is_resolution_of(states@, t@),
            Err(e) => {
                &&& e.state < states.len()
                &&& forall|i: int|
                    0 <= i < e.state ==> first_missing(states@, #[trigger] states[i].counts())
                        is None
                &&& first_missing(states@, states[e.state as int].counts()) == Some(
                    (e.n0 as int, e.n1 as int),
                )
            },
        },
        r is Ok <==> is_closed(states@),
{
    let mut out: Vec<E> = Vec::new();
    let mut i: usize = 0;
    while i < states.len()
        invariant
            i <= states.len(),
            states.len() <= u32::MAX,
            out.len() == i,
            forall|j: int| 0 <= j < i ==> #[trigger] out[j].counts() == states[j].counts(),
            forall|j: int| 0 <= j < i ==> #[trigger] resolved(states@, out[j]),
            forall|j: int| 0 <= j < i ==> first_missing(states@, #[trigger] states[j].counts()) is None,
        decreases states.len() - i,
    {
        let e: E = states[i];
        let d0: u32 = dec(e.n0);
        let d1: u32 = dec(e.n1);
        let i0: u32 = inc(e.n0);
        let i1: u32 = inc(e.n1);
        let s00: usize = match lookup(&states, e.n0, d1) {
            Some(j) => j,
            None => {
                proof {
                    lemma_missing_not_closed(states@, i as int);
                }
                return Err(Unresolved { state: i, n0: e.n0, n1: d1 });
            },
        };
        let s01: usize = match lookup(&states, i0, d1) {
            Some(j) => j,
            None => {
                proof {
                    lemma_index_holds(states@, (e.n0 as int, d1 as int), s00 as int);
                    lemma_missing_not_closed(states@, i as int);
                }
                return Err(Unresolved { state: i, n0: i0, n1: d1 });
            },
        };
        let s10: usize = match lookup(&states, d0, e.n1) {
            Some(j) => j,
            None => {
                proof {
                    lemma_index_holds(states@, (e.n0 as int, d1 as int), s00 as int);
                    lemma_index_holds(states@, (i0 as int, d1 as int), s01 as int);
                    lemma_missing_not_closed(states@, i as int);
                }
                return Err(Unresolved { state: i, n0: d0, n1: e.n1 });
            },
        };
        let s11: usize = match lookup(&states, d0, i1) {
            Some(j) => j,
            None => {
                proof {
                    lemma_index_holds(states@, (e.n0 as int, d1 as int), s00 as int);
                    lemma_index_holds(states@, (i0 as int, d1 as int), s01 as int);
                    lemma_index_holds(states@, (d0 as int, e.n1 as int), s10 as int);
                    lemma_missing_not_closed(states@, i as int);
                }
                return Err(Unresolved { state: i, n0: d0, n1: i1 });
            },
        };
        proof {
            lemma_index_holds(states@, (e.n0 as int, d1 as int), s00 as int);
            lemma_index_holds(states@, (i0 as int, d1 as int), s01 as int);
            lemma_index_holds(states@, (d0 as int, e.n1 as int), s10 as int);
            lemma_index_holds(states@, (d0 as int, i1 as int), s11 as int);
        }
        out.push(
            E {
                n0: e.n0,
                n1: e.n1,
                s00: s00 as u32,
                s01: s01 as u32,
                s10: s10 as u32,
                s11: s11 as u32,
            },
        );
        i += 1;
    }
    proof {
        assert forall|j: int| 0 <= j < out@.len() implies #[trigger] resolved(out@, out@[j]) by {
            assert(resolved(states@, out@[j]));
            lemma_resolved_same_counts(states@, out@, out@[j]);
        }
        lemma_complete_is_closed(states@);
    }
    Ok(out)
}

/// A sequence holds the counts that it has an index for.
pub proof fn lemma_index_holds(s: Seq<E>, c: (int, int), j: int)
    requires
        is_index_of(s, c, j),
    ensures
        holds(s, c),
{
}

/// Resolved indices stay resolved in a sequence with the same counts.
pub proof fn lemma_resolved_same_counts(s: Seq<E>, t: Seq<E>, e: E)
    requires
        s.len() == t.len(),
        forall|i: int| 0 <= i < s.len() ==> (#[trigger] t[i]).counts() == s[i].counts(),
        resolved(s, e),
    ensures
        resolved(t, e),
{
    let n0 = e.n0 as int;
    let n1 = e.n1 as int;
    lemma_index_same_counts(s, t, (n0, dec_spec(n1)), e.s00 as int);
    lemma_index_same_counts(s, t, (inc_spec(n0), dec_spec(n1)), e.s01 as int);
    lemma_index_same_counts(s, t, (dec_spec(n0), n1), e.s10 as int);
    lemma_index_same_counts(s, t, (dec_spec(n0), inc_spec(n1)), e.s11 as int);
}

/// A state with a missing successor shows that the sequence is not closed.
pub proof fn lemma_missing_not_closed(s: Seq<E>, i: int)
    requires
        0 <= i < s.len(),
        first_missing(s, s[i].counts()) is Some,
    ensures
        !is_closed(s),
{
    let c = first_missing(s, s[i].counts())->Some_0;
    assert(step(s[i].counts(), c));
}

/// A sequence in which no state has a missing successor is closed.
pub proof fn lemma_complete_is_closed(s: Seq<E>)
    requires
        forall|i: int| 0 <= i < s.len() ==> first_missing(s, #[trigger] s[i].counts()) is None,
    ensures
        is_closed(s),
{
    assert forall|i: int, c: (int, int)| 0 <= i < s.len() && #[trigger] step(
        s[i].counts(),
        c,
    ) implies holds(s, c) by {
        assert(first_missing(s, s[i].counts()) is None);
    }
}

/// The state table: the closure of `(0, 0)`, in ascending order of
/// `(n0, n1)`, with the successors of every state resolved.
pub fn generate() -> (t: Vec<E>)
    ensures
        is_table(t@),
{
    let s = closure();
    let ghost before = s@;
    match resolve(s) {
        Ok(t) => {
            proof {
                lemma_same_counts_same_set(before, t@);
            }
            t
        },
        Err(_) => vstd::pervasive::unreached(),
    }
}

/// A sequence with the counts of a state set at the same places is a state
/// set and holds the same counts.
pub proof fn lemma_same_counts_same_set(s: Seq<E>, t: Seq<E>)
    requires
        is_state_set(s),
        t.len() == s.len(),
        forall|i: int| 0 <= i < t.len() ==> #[trigger] t[i].counts() == s[i].counts(),
    ensures
        is_state_set(t),
        forall|c: (int, int)| holds(t, c) <==> holds(s, c),
{
    assert forall|i: int| 0 <= i < t.len() implies (#[trigger] t[i]).wf() by {
        assert(t[i].counts() == s[i].counts());
        assert(s[i].wf());
    }
    assert forall|i: int, j: int| 0 <= i < j < t.len() implies lex_lt(
        #[trigger] t[i].counts(),
        #[trigger] t[j].counts(),
    ) by {
        assert(lex_lt(s[i].counts(), s[j].counts()));
    }
    assert forall|c: (int, int)| holds(t, c) <==> holds(s, c) by {
        if holds(t, c) {
            let i = choose|i: int| 0 <= i < t.len() && #[trigger] t[i].counts() == c;
            assert(s[i].counts() == c);
        }
        if holds(s, c) {
            let i = choose|i: int| 0 <= i < s.len() && #[trigger] s[i].counts() == c;
            assert(t[i].counts() == c);
        }
    }
}

} // verus!
