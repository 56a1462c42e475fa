//! What holds of state sets and state tables as such: a state set is
//! determined by the counts it holds, a closed set is its own closure, and
//! there is only one state table.

use crate::counts::{inc_spec, is_representable};
use crate::state::{prob_spec, weight_spec, E};
use crate::closure::{
    holds, is_closed, is_closure_of, is_path, is_state_set, lemma_closed_set_holds_paths,
    lemma_reach_start, lex_lt, origin, reachable, step,
};
use crate::table::{is_index_of, is_table, resolved};
use vstd::prelude::*;

verus! {

/// What `a` holds before its last state, `b` holds before its last state
/// too, where both end in the same counts and `b` holds all that `a` holds.
proof fn lemma_drop_last_holds(a: Seq<E>, b: Seq<E>, c: (int, int))
    requires
        is_state_set(a),
        is_state_set(b),
        a.len() > 0,
        b.len() > 0,
        a.last().counts() == b.last().counts(),
        forall|c: (int, int)| holds(a, c) ==> holds(b, c),
        holds(a.drop_last(), c),
    ensures
        holds(b.drop_last(), c),
{
    let i = choose|i: int| 0 <= i < a.drop_last().len() && #[trigger] a.drop_last()[i].counts() == c;
    assert(a[i].counts() == c);
    assert(lex_lt(a[i].counts(), a[a.len() - 1].counts()));
    assert(holds(a, c));
    let j = choose|j: int| 0 <= j < b.len() && #[trigger] b[j].counts() == c;
    assert(j != b.len() - 1);
    assert(b.drop_last()[j].counts() == c);
}

/// The last state of a state set has the greatest counts that the set holds.
proof fn lemma_last_is_greatest(a: Seq<E>, c: (int, int))
    requires
        is_state_set(a),
        holds(a, c),
    ensures
        a.len() > 0,
        c == a.last().counts() || lex_lt(c, a.last().counts()),
{
    let i = choose|i: int| 0 <= i < a.len() && #[trigger] a[i].counts() == c;
    if i < a.len() - 1 {
        assert(lex_lt(a[i].counts(), a[a.len() - 1].counts()));
    }
}

/// Two state sets that hold the same counts have them at the same places.
pub proof fn lemma_state_sets_agree(a: Seq<E>, b: Seq<E>)
    requires
        is_state_set(a),
        is_state_set(b),
        forall|c: (int, int)| holds(a, c) <==> holds(b, c),
    ensures
        a.len() == b.len(),
        forall|i: int| 0 <= i < a.len() ==> (#[trigger] a[i]).counts() == b[i].counts(),
    decreases a.len(),
{
    if a.len() == 0 {
        if b.len() > 0 {
            assert(b[0].counts() == b[0].counts());
            assert(holds(b, b[0].counts()));
        }
    } else if b.len() == 0 {
        assert(a[0].counts() == a[0].counts());
        assert(holds(a, a[0].counts()));
    } else {
        let la = a.last().counts();
        let lb = b.last().counts();
        assert(a[a.len() - 1].counts() == la);
        assert(b[b.len() - 1].counts() == lb);
        assert(holds(a, la));
        assert(holds(b, lb));
        lemma_last_is_greatest(b, la);
        lemma_last_is_greatest(a, lb);
        assert(la == lb);
        let a1 = a.drop_last();
        let b1 = b.drop_last();
        assert(is_state_set(a1)) by {
            assert forall|i: int| 0 <= i < a1.len() implies (#[trigger] a1[i]).wf() by {
                assert(a[i].wf());
            }
            assert forall|i: int, j: int| 0 <= i < j < a1.len() implies lex_lt(
                #[trigger] a1[i].counts(),
                #[trigger] a1[j].counts(),
            ) by {
                assert(lex_lt(a[i].counts(), a[j].counts()));
            }
        }
        assert(is_state_set(b1)) by {
            assert forall|i: int| 0 <= i < b1.len() implies (#[trigger] b1[i]).wf() by {
                assert(b[i].wf());
            }
            assert forall|i: int, j: int| 0 <= i < j < b1.len() implies lex_lt(
                #[trigger] b1[i].counts(),
                #[trigger] b1[j].counts(),
            ) by {
                assert(lex_lt(b[i].counts(), b[j].counts()));
            }
        }
        assert forall|c: (int, int)| holds(a1, c) <==> holds(b1, c) by {
            if holds(a1, c) {
                lemma_drop_last_holds(a, b, c);
            }
            if holds(b1, c) {
                lemma_drop_last_holds(b, a, c);
            }
        }
        lemma_state_sets_agree(a1, b1);
        assert forall|i: int| 0 <= i < a.len() implies (#[trigger] a[i]).counts()
            == b[i].counts() by {
            if i < a.len() - 1 {
                assert(a1[i].counts() == b1[i].counts());
            }
        }
    }
}

/// A closed set holds everything that can be reached from it.
pub proof fn lemma_closed_holds_reachable(s: Seq<E>, c: (int, int))
    requires
        is_closed(s),
        reachable(s, c),
    ensures
        holds(s, c),
{
    let m = Set::new(|c: (int, int)| holds(s, c));
    assert forall|a: (int, int), b: (int, int)| m.contains(a) && #[trigger] step(a, b) implies m.contains(
        b,
    ) by {
        let i = choose|i: int| 0 <= i < s.len() && #[trigger] s[i].counts() == a;
        assert(step(s[i].counts(), b));
    }
    assert forall|i: int| 0 <= i < s.len() implies m.contains(#[trigger] s[i].counts()) by {
        assert(holds(s, s[i].counts()));
    }
    let path = choose|path: Seq<(int, int)>| #[trigger] is_path(s, path) && path.last() == c;
    lemma_closed_set_holds_paths(s, m, path);
}

/// The closure of a closed state set with no successor resolved is that set
/// itself: closing once more changes nothing.
pub proof fn lemma_closure_fixed_point(start: Seq<E>, s: Seq<E>)
    requires
        is_state_set(start),
        forall|i: int| 0 <= i < start.len() ==> (#[trigger] start[i]).unresolved(),
        is_closed(start),
        is_closure_of(start, s),
    ensures
        s == start,
{
    assert forall|c: (int, int)| holds(s, c) <==> holds(start, c) by {
        if reachable(start, c) {
            lemma_closed_holds_reachable(start, c);
        }
        if holds(start, c) {
            let i = choose|i: int| 0 <= i < start.len() && #[trigger] start[i].counts() == c;
            lemma_reach_start(start, i);
        }
    }
    lemma_state_sets_agree(s, start);
    assert forall|i: int| 0 <= i < s.len() implies s[i] == start[i] by {
        assert(s[i].counts() == start[i].counts());
        assert(s[i].unresolved());
        assert(start[i].unresolved());
    }
    assert(s =~= start);
}

/// Two indices under which sequences with the same counts hold the same
/// counts are equal.
proof fn lemma_index_unique(s: Seq<E>, t: Seq<E>, c: (int, int), j: int, k: int)
    requires
        s.len() == t.len(),
        forall|i: int| 0 <= i < s.len() ==> (#[trigger] s[i]).counts() == t[i].counts(),
        is_index_of(s, c, j),
        is_index_of(t, c, k),
    ensures
        j == k,
{
    assert(s[j].counts() == t[j].counts());
    assert(s[k].counts() == t[k].counts());
    if j < k {
        assert(s[k].counts() != c);
    } else if k < j {
        assert(t[j].counts() != c);
    }
}

/// There is one state table: any two sequences that are the state table are
/// equal, in their order and in every field.
pub proof fn lemma_table_unique(t1: Seq<E>, t2: Seq<E>)
    requires
        is_table(t1),
        is_table(t2),
    ensures
        t1 == t2,
{
    lemma_state_sets_agree(t1, t2);
    assert forall|i: int| 0 <= i < t1.len() implies t1[i] == t2[i] by {
        let a = t1[i];
        let b = t2[i];
        assert(a.counts() == b.counts());
        assert(resolved(t1, a));
        assert(resolved(t2, b));
        let n0 = a.n0 as int;
        let n1 = a.n1 as int;
        lemma_index_unique(t1, t2, (n0, crate::counts::dec_spec(n1)), a.s00 as int, b.s00 as int);
        lemma_index_unique(
            t1,
            t2,
            (inc_spec(n0), crate::counts::dec_spec(n1)),
            a.s01 as int,
            b.s01 as int,
        );
        lemma_index_unique(t1, t2, (crate::counts::dec_spec(n0), n1), a.s10 as int, b.s10 as int);
        lemma_index_unique(
            t1,
            t2,
            (crate::counts::dec_spec(n0), inc_spec(n1)),
            a.s11 as int,
            b.s11 as int,
        );
    }
    assert(t1 =~= t2);
}

/// Every successor index of a state table lies in the table, and the state
/// at that index has the counts of the successor.
pub proof fn lemma_table_targets(t: Seq<E>, i: int)
    requires
        is_table(t),
        0 <= i < t.len(),
    ensures
        0 <= t[i].s00 < t.len() && step(t[i].counts(), t[t[i].s00 as int].counts()),
        0 <= t[i].s01 < t.len() && step(t[i].counts(), t[t[i].s01 as int].counts()),
        0 <= t[i].s10 < t.len() && step(t[i].counts(), t[t[i].s10 as int].counts()),
        0 <= t[i].s11 < t.len() && step(t[i].counts(), t[t[i].s11 as int].counts()),
        is_closed(t),
{
    assert(resolved(t, t[i]));
    assert forall|j: int, c: (int, int)| 0 <= j < t.len() && #[trigger] step(
        t[j].counts(),
        c,
    ) implies holds(t, c) by {
        assert(resolved(t, t[j]));
    }
}

/// The increment probability of a representable count is 0 exactly at 255,
/// the one count that is its own successor.
pub proof fn lemma_prob_zero(n: int)
    requires
        is_representable(n),
    ensures
        prob_spec(n) == 0 <==> n == 255,
        inc_spec(n) == n <==> n == 255,
{
    let delta = inc_spec(n) - n;
    if n != 255 {
        assert(0 < delta <= 32);
        assert(0xFFFF_FFFFint / delta > 0) by (nonlinear_arith)
            requires
                0 < delta <= 32,
        ;
    }
}

/// The state table begins with the state `(0, 0)`, and the successor of that
/// state for an input of 0 with a successful increment is the state
/// `(1, 0)`.
pub proof fn lemma_origin_first(t: Seq<E>)
    requires
        is_table(t),
    ensures
        t.len() > 0,
        t[0].counts() == (0int, 0int),
        is_index_of(t, (1int, 0int), t[0].s01 as int),
{
    assert(origin()[0].counts() == (0int, 0int));
    lemma_reach_start(origin(), 0);
    assert(holds(t, (0int, 0int)));
    let i = choose|i: int| 0 <= i < t.len() && #[trigger] t[i].counts() == (0int, 0int);
    if i > 0 {
        assert(lex_lt(t[0].counts(), t[i].counts()));
        assert(t[0].wf());
    }
    assert(resolved(t, t[0]));
}

/// The weight of the larger of two counts is their ratio, rounded down.
pub proof fn lemma_weight_is_ratio(a: int, b: int)
    requires
        0 < b < a,
    ensures
        weight_spec(a, b) == a / b,
        weight_spec(b, a) == 1,
{
    assert((2 * a) / (2 * b) == a / b) by (nonlinear_arith)
        requires
            0 < b < a,
    ;
}

} // verus!
