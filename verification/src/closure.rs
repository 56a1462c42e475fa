//! The closure of a set of states: all that can be reached from it by
//! transitions, found by a search over the grid of all pairs of counts.

use crate::counts::{dec, dec_spec, inc, inc_spec, is_representable};
use crate::state::E;
use vstd::prelude::*;

verus! {

/// One transition leads from the counts `a` to the counts `b`: on an input of
/// 0 the second count decays and the first stays or advances, on an input of
/// 1 the first decays and the second stays or advances.
pub open spec fn step(a: (int, int), b: (int, int)) -> bool {
    ||| b == (a.0, dec_spec(a.1))
    ||| b == (inc_spec(a.0), dec_spec(a.1))
    ||| b == (dec_spec(a.0), a.1)
    ||| b == (dec_spec(a.0), inc_spec(a.1))
}

/// Some state of `s` has the counts `c`.
pub open spec fn holds(s: Seq<E>, c: (int, int)) -> bool {
    exists|i: int| 0 <= i < s.len() && #[trigger] s[i].counts() == c
}

/// `path` starts at a state of `start` and goes on by transitions.
pub open spec fn is_path(start: Seq<E>, path: Seq<(int, int)>) -> bool {
    &&& path.len() > 0
    &&& holds(start, path[0])
    &&& forall|i: int| 0 < i < path.len() ==> #[trigger] step(path[i - 1], path[i])
}

/// The counts `c` can be reached from a state of `start` by transitions.
pub open spec fn reachable(start: Seq<E>, c: (int, int)) -> bool {
    exists|path: Seq<(int, int)>| #[trigger] is_path(start, path) && path.last() == c
}

/// The order of the table: by the first count, then by the second.
pub open spec fn lex_lt(a: (int, int), b: (int, int)) -> bool {
    a.0 < b.0 || (a.0 == b.0 && a.1 < b.1)
}

/// Every count in `s` is representable.
pub open spec fn all_wf(s: Seq<E>) -> bool {
    forall|i: int| 0 <= i < s.len() ==> (#[trigger] s[i]).wf()
}

/// A state set: representable counts, in strictly ascending order, so that no
/// pair of counts occurs twice.
pub open spec fn is_state_set(s: Seq<E>) -> bool {
    &&& all_wf(s)
    &&& forall|i: int, j: int|
        0 <= i < j < s.len() ==> lex_lt(#[trigger] s[i].counts(), #[trigger] s[j].counts())
}

/// Every transition from a state of `s` leads to a state of `s`.
pub open spec fn is_closed(s: Seq<E>) -> bool {
    forall|i: int, c: (int, int)|
        0 <= i < s.len() && #[trigger] step(s[i].counts(), c) ==> holds(s, c)
}

/// `s` is the closure of `start`: the state set that holds exactly the counts
/// reachable from `start`, with no successor resolved.
pub open spec fn is_closure_of(start: Seq<E>, s: Seq<E>) -> bool {
    &&& is_state_set(s)
    &&& forall|i: int| 0 <= i < s.len() ==> (#[trigger] s[i]).unresolved()
    &&& forall|c: (int, int)| holds(s, c) <==> reachable(start, c)
}

/// The starting set of the generator: the state `(0, 0)` alone.
pub open spec fn origin() -> Seq<E> {
    seq![E { n0: 0, n1: 0, s00: 0, s01: 0, s10: 0, s11: 0 }]
}

/// Both counts are representable.
pub open spec fn wf_counts(c: (int, int)) -> bool {
    is_representable(c.0) && is_representable(c.1)
}

/// Every state of the starting set is reachable.
pub proof fn lemma_reach_start(start: Seq<E>, i: int)
    requires
        0 <= i < start.len(),
    ensures
        reachable(start, start[i].counts()),
{
    let path = seq![start[i].counts()];
    assert(is_path(start, path));
    assert(path.last() == start[i].counts());
}

/// A transition from reachable counts leads to reachable counts.
pub proof fn lemma_reach_step(start: Seq<E>, a: (int, int), b: (int, int))
    requires
        reachable(start, a),
        step(a, b),
    ensures
        reachable(start, b),
{
    let path = choose|path: Seq<(int, int)>| #[trigger] is_path(start, path) && path.last() == a;
    let longer = path.push(b);
    assert forall|i: int| 0 < i < longer.len() implies #[trigger] step(longer[i - 1], longer[i]) by {
        if i < path.len() {
            assert(step(path[i - 1], path[i]));
        }
    }
    assert(longer[0] == path[0]);
    assert(is_path(start, longer));
    assert(longer.last() == b);
}

/// A set of counts that holds the starting set and is closed under
/// transitions holds the end of every path.
pub proof fn lemma_closed_set_holds_paths(
    start: Seq<E>,
    m: Set<(int, int)>,
    path: Seq<(int, int)>,
)
    requires
        forall|i: int| 0 <= i < start.len() ==> m.contains(#[trigger] start[i].counts()),
        forall|a: (int, int), b: (int, int)| m.contains(a) && #[trigger] step(a, b) ==> m.contains(b),
        is_path(start, path),
    ensures
        m.contains(path.last()),
    decreases path.len(),
{
    if path.len() == 1 {
        let i = choose|i: int| 0 <= i < start.len() && #[trigger] start[i].counts() == path[0];
        assert(m.contains(start[i].counts()));
    } else {
        let shorter = path.drop_last();
        assert forall|i: int| 0 < i < shorter.len() implies #[trigger] step(
            shorter[i - 1],
            shorter[i],
        ) by {
            assert(step(path[i - 1], path[i]));
        }
        assert(shorter[0] == path[0]);
        lemma_closed_set_holds_paths(start, m, shorter);
        let n = path.len() as int;
        assert(step(path[n - 2], path[n - 1]));
        assert(shorter.last() == path[n - 2]);
    }
}

/// The place of the counts `c` in the grid of all pairs of counts below 256.
spec fn key_spec(c: (int, int)) -> int {
    c.0 * 256 + c.1
}

/// Both counts lie on the grid.
spec fn in_range(c: (int, int)) -> bool {
    0 <= c.0 < 256 && 0 <= c.1 < 256
}

/// The grid `p` has the counts `c` marked.
spec fn marked(p: Seq<bool>, c: (int, int)) -> bool {
    in_range(c) && p[key_spec(c)]
}

/// The counts `c` wait in the work list `w`.
spec fn in_work(w: Seq<usize>, c: (int, int)) -> bool {
    exists|j: int| 0 <= j < w.len() && #[trigger] w[j] == key_spec(c)
}

/// The pair that stands for "no pair in hand": it lies outside the grid.
spec fn nowhere() -> (int, int) {
    (-1, -1)
}

/// All four successors of `a` are marked in `p`.
#[verifier::opaque]
spec fn closed_at(p: Seq<bool>, a: (int, int)) -> bool {
    &&& marked(p, (a.0, dec_spec(a.1)))
    &&& marked(p, (inc_spec(a.0), dec_spec(a.1)))
    &&& marked(p, (dec_spec(a.0), a.1))
    &&& marked(p, (dec_spec(a.0), inc_spec(a.1)))
}

/// Marking more places keeps the successors of a pair marked.
proof fn lemma_closed_at_grows(p: Seq<bool>, q: Seq<bool>, c: (int, int))
    requires
        closed_at(p, c),
        forall|k: int| 0 <= k < 65536 && p[k] ==> q[k],
    ensures
        closed_at(q, c),
{
    reveal(closed_at);
}

/// A transition from a pair with all successors marked leads to a marked
/// pair.
proof fn lemma_closed_at_step(p: Seq<bool>, a: (int, int), b: (int, int))
    requires
        closed_at(p, a),
        step(a, b),
    ensures
        marked(p, b),
{
    reveal(closed_at);
}

/// What the search keeps true: every marked pair is representable and
/// reachable, and it either waits in the work list, is the pair in hand, or
/// has all its successors marked.
#[verifier::opaque]
spec fn search_inv(start: Seq<E>, p: Seq<bool>, w: Seq<usize>, cur: (int, int)) -> bool {
    &&& p.len() == 65536
    &&& forall|c: (int, int)| #[trigger]
        marked(p, c) ==> wf_counts(c) && reachable(start, c) && (in_work(w, c) || c == cur
            || closed_at(p, c))
    &&& forall|j: int| 0 <= j < w.len() ==> (#[trigger] w[j]) < 65536 && p[w[j] as int]
}

/// The marked places of a grid.
spec fn seen(p: Seq<bool>) -> Set<int> {
    Set::new(|k: int| 0 <= k < 65536 && p[k])
}

/// The number of places that are not marked yet.
spec fn unseen(p: Seq<bool>) -> int {
    65536 - seen(p).len()
}

/// Marking a place that was not marked leaves one place fewer unmarked;
/// marking a marked one changes nothing.
proof fn lemma_unseen(p: Seq<bool>, k: int)
    requires
        p.len() == 65536,
        0 <= k < 65536,
    ensures
        0 <= unseen(p),
        p[k] ==> unseen(p.update(k, true)) == unseen(p),
        !p[k] ==> unseen(p.update(k, true)) == unseen(p) - 1,
{
    let all = vstd::set_lib::set_int_range(0, 65536);
    vstd::set_lib::lemma_int_range(0, 65536);
    let q = p.update(k, true);
    assert(seen(p).subset_of(all));
    assert(seen(q).subset_of(all));
    vstd::set_lib::lemma_len_subset(seen(p), all);
    vstd::set_lib::lemma_len_subset(seen(q), all);
    assert(seen(q) =~= seen(p).insert(k));
    if p[k] {
        assert(seen(q) =~= seen(p));
    }
}

/// Marks the pair `(n0, n1)` and puts it on the work list, unless it is
/// marked already.
fn visit(
    present: &mut Vec<bool>,
    work: &mut Vec<usize>,
    n0: u32,
    n1: u32,
    Ghost(start): Ghost<Seq<E>>,
    Ghost(cur): Ghost<(int, int)>,
)
    requires
        search_inv(start, old(present)@, old(work)@, cur),
        wf_counts((n0 as int, n1 as int)),
        reachable(start, (n0 as int, n1 as int)),
    ensures
        search_inv(start, final(present)@, final(work)@, cur),
        final(present)@.len() == 65536,
        marked(final(present)@, (n0 as int, n1 as int)),
        forall|c: (int, int)| #[trigger] marked(old(present)@, c) ==> marked(final(present)@, c),
        final(work)@ == old(work)@ || (final(work)@.len() == old(work)@.len() + 1 && unseen(
            final(present)@,
        ) < unseen(old(present)@)),
        unseen(final(present)@) <= unseen(old(present)@),
{
    reveal(search_inv);
    let k: usize = (n0 * 256 + n1) as usize;
    let ghost p0 = present@;
    let ghost w0 = work@;
    let ghost t = (n0 as int, n1 as int);
    proof {
        lemma_unseen(p0, k as int);
    }
    if !present[k] {
        present[k] = true;
        work.push(k);
        proof {
            let p1 = present@;
            let w1 = work@;
            assert(w1[w0.len() as int] == k);
            assert forall|c: (int, int)| #[trigger] marked(p1, c) implies wf_counts(c)
                && reachable(start, c) && (in_work(w1, c) || c == cur || closed_at(p1, c)) by {
                if key_spec(c) == k {
                    assert(c == t);
                    assert(in_work(w1, c));
                } else {
                    assert(marked(p0, c));
                    if in_work(w0, c) {
                        let j = choose|j: int| 0 <= j < w0.len() && #[trigger] w0[j] == key_spec(c);
                        assert(w1[j] == key_spec(c));
                    } else if c != cur {
                        lemma_closed_at_grows(p0, p1, c);
                    }
                }
            }
            assert forall|j: int| 0 <= j < w1.len() implies (#[trigger] w1[j]) < 65536
                && p1[w1[j] as int] by {
                if j < w0.len() {
                    assert(w1[j] == w0[j]);
                }
            }
        }
    } else {
        assert(present@ =~= p0.update(k as int, true));
    }
}

/// Adding a state to a sequence keeps the counts that it holds.
proof fn lemma_holds_push(s: Seq<E>, e: E, c: (int, int))
    requires
        holds(s, c) || e.counts() == c,
    ensures
        holds(s.push(e), c),
{
    let t = s.push(e);
    if holds(s, c) {
        let i = choose|i: int| 0 <= i < s.len() && #[trigger] s[i].counts() == c;
        assert(t[i].counts() == c);
    } else {
        assert(t[s.len() as int].counts() == c);
    }
}

/// Taking the last pair off the work list keeps the search's invariant, with
/// that pair in hand.
proof fn lemma_take_work(
    start: Seq<E>,
    p: Seq<bool>,
    w0: Seq<usize>,
    w1: Seq<usize>,
    cur: (int, int),
)
    requires
        search_inv(start, p, w0, nowhere()),
        w0.len() > 0,
        w1 == w0.subrange(0, w0.len() - 1),
        cur == (w0[w0.len() - 1] as int / 256, w0[w0.len() - 1] as int % 256),
    ensures
        w0[w0.len() - 1] < 65536,
        search_inv(start, p, w1, cur),
        marked(p, cur),
        wf_counts(cur),
        reachable(start, cur),
{
    reveal(search_inv);
    let k = w0[w0.len() - 1];
    assert(p[k as int]);
    assert(marked(p, cur));
    assert forall|c: (int, int)| #[trigger] marked(p, c) implies in_work(w1, c) || c == cur
        || closed_at(p, c) by {
        if key_spec(c) == k {
            assert(c == cur);
        } else if in_work(w0, c) {
            let j = choose|j: int| 0 <= j < w0.len() && #[trigger] w0[j] == key_spec(c);
            assert(w1[j] == key_spec(c));
        }
    }
    assert forall|j: int| 0 <= j < w1.len() implies (#[trigger] w1[j]) < 65536 && p[w1[j] as int] by {
        assert(w1[j] == w0[j]);
    }
}

/// Once all successors of the pair in hand are marked, the invariant holds
/// with no pair in hand.
proof fn lemma_put_back(start: Seq<E>, p: Seq<bool>, w: Seq<usize>, cur: (int, int))
    requires
        search_inv(start, p, w, cur),
        closed_at(p, cur),
    ensures
        search_inv(start, p, w, nowhere()),
{
    reveal(search_inv);
    assert forall|c: (int, int)| #[trigger] marked(p, c) implies in_work(w, c) || closed_at(p, c) by {
    }
}

/// When the work list is empty, every marked pair is representable and
/// reachable and has all its successors marked.
proof fn lemma_search_done(start: Seq<E>, p: Seq<bool>, w: Seq<usize>)
    requires
        search_inv(start, p, w, nowhere()),
        w.len() == 0,
    ensures
        forall|c: (int, int)| #[trigger]
            marked(p, c) ==> wf_counts(c) && reachable(start, c) && closed_at(p, c),
{
    reveal(search_inv);
    assert forall|c: (int, int)| #[trigger] marked(p, c) implies closed_at(p, c) by {
        assert(!in_work(w, c));
    }
}

/// Among pairs of counts below 256, the order of the places is the order of
/// the pairs.
proof fn lemma_key_order(a: (int, int), b: (int, int))
    requires
        in_range(a),
        in_range(b),
        key_spec(a) < key_spec(b),
    ensures
        lex_lt(a, b),
{
}

/// Every reachable pair is marked in a grid that has the starting set
/// marked and, with each marked pair, its successors.
proof fn lemma_reachable_is_marked(start: Seq<E>, p: Seq<bool>, c: (int, int))
    requires
        forall|j: int| 0 <= j < start.len() ==> marked(p, #[trigger] start[j].counts()),
        forall|c: (int, int)| #[trigger] marked(p, c) ==> closed_at(p, c),
        reachable(start, c),
    ensures
        marked(p, c),
{
    let m = Set::new(|c: (int, int)| marked(p, c));
    assert forall|a: (int, int), b: (int, int)| m.contains(a) && #[trigger] step(a, b) implies m.contains(
        b,
    ) by {
        assert(marked(p, a));
        lemma_closed_at_step(p, a, b);
    }
    assert forall|i: int| 0 <= i < start.len() implies m.contains(#[trigger] start[i].counts()) by {
        assert(marked(p, start[i].counts()));
    }
    let path = choose|path: Seq<(int, int)>| #[trigger] is_path(start, path) && path.last() == c;
    lemma_closed_set_holds_paths(start, m, path);
}

/// When the work list is empty, a sequence that lists the marked pairs in
/// ascending order of their places is the closure of the starting set.
proof fn lemma_grid_is_closure(start: Seq<E>, p: Seq<bool>, w: Seq<usize>, out: Seq<E>)
    requires
        search_inv(start, p, w, nowhere()),
        w.len() == 0,
        forall|j: int| 0 <= j < start.len() ==> marked(p, #[trigger] start[j].counts()),
        forall|i: int|
            0 <= i < out.len() ==> (#[trigger] out[i]).unresolved() && marked(p, out[i].counts()),
        forall|i: int, j: int|
            0 <= i < j < out.len() ==> key_spec(#[trigger] out[i].counts()) < key_spec(
                #[trigger] out[j].counts(),
            ),
        forall|c: (int, int)| #[trigger] marked(p, c) ==> holds(out, c),
    ensures
        is_closure_of(start, out),
{
    lemma_search_done(start, p, w);
    assert forall|c: (int, int)| holds(out, c) <==> reachable(start, c) by {
        if reachable(start, c) {
            lemma_reachable_is_marked(start, p, c);
        }
        if holds(out, c) {
            let i = choose|i: int| 0 <= i < out.len() && #[trigger] out[i].counts() == c;
            assert(marked(p, out[i].counts()));
        }
    }
    assert forall|i: int| 0 <= i < out.len() implies (#[trigger] out[i]).wf() by {
        assert(marked(p, out[i].counts()));
    }
    assert forall|i: int, j: int| 0 <= i < j < out.len() implies lex_lt(
        #[trigger] out[i].counts(),
        #[trigger] out[j].counts(),
    ) by {
        assert(marked(p, out[i].counts()));
        assert(marked(p, out[j].counts()));
        lemma_key_order(out[i].counts(), out[j].counts());
    }
}

/// The closure of `start`: every state that can be reached from a state of
/// `start` by transitions, each once, in ascending order of `(n0, n1)`, with
/// no successor resolved.
pub fn closure_from(start: &Vec<E>) -> (r: Vec<E>)
    requires
        all_wf(start@),
    ensures
        is_closure_of(start@, r@),
        is_closed(r@),
        r@.len() <= 65536,
{
    let mut present: Vec<bool> = Vec::new();
    let mut k: usize = 0;
    while k < 65536
        invariant
            k <= 65536,
            present.len() == k,
            forall|j: int| 0 <= j < k ==> !present[j],
        decreases 65536 - k,
    {
        present.push(false);
        k += 1;
    }
    let mut work: Vec<usize> = Vec::new();
    let mut i: usize = 0;
    proof {
        reveal(search_inv);
        assert(search_inv(start@, present@, work@, nowhere()));
    }
    while i < start.len()
        invariant
            i <= start.len(),
            all_wf(start@),
            search_inv(start@, present@, work@, nowhere()),
            forall|j: int| 0 <= j < i ==> marked(present@, #[trigger] start[j].counts()),
        decreases start.len() - i,
    {
        let e: E = start[i];
        proof {
            assert(start@[i as int].wf());
            lemma_reach_start(start@, i as int);
        }
        visit(&mut present, &mut work, e.n0, e.n1, Ghost(start@), Ghost(nowhere()));
        i += 1;
    }
    while work.len() > 0
        invariant
            present.len() == 65536,
            search_inv(start@, present@, work@, nowhere()),
            forall|j: int| 0 <= j < start.len() ==> marked(present@, #[trigger] start[j].counts()),
        decreases unseen(present@), work.len(),
    {
        let ghost w0 = work@;
        let ghost p0 = present@;
        let k: usize = work.pop().unwrap();
        let ghost cur = (k as int / 256, k as int % 256);
        proof {
            lemma_take_work(start@, p0, w0, work@, cur);
            lemma_unseen(p0, k as int);
        }
        let n0: u32 = (k / 256) as u32;
        let n1: u32 = (k % 256) as u32;
        let d0: u32 = dec(n0);
        let d1: u32 = dec(n1);
        let i0: u32 = inc(n0);
        let i1: u32 = inc(n1);
        proof {
            lemma_reach_step(start@, cur, (n0 as int, d1 as int));
            lemma_reach_step(start@, cur, (i0 as int, d1 as int));
            lemma_reach_step(start@, cur, (d0 as int, n1 as int));
            lemma_reach_step(start@, cur, (d0 as int, i1 as int));
        }
        visit(&mut present, &mut work, n0, d1, Ghost(start@), Ghost(cur));
        visit(&mut present, &mut work, i0, d1, Ghost(start@), Ghost(cur));
        visit(&mut present, &mut work, d0, n1, Ghost(start@), Ghost(cur));
        visit(&mut present, &mut work, d0, i1, Ghost(start@), Ghost(cur));
        proof {
            assert(closed_at(present@, cur)) by {
                reveal(closed_at);
            }
            lemma_put_back(start@, present@, work@, cur);
            lemma_unseen(present@, 0);
            assert(work@.len() == w0.len() - 1 || unseen(present@) < unseen(p0));
            assert(unseen(present@) <= unseen(p0));
            assert forall|j: int| 0 <= j < start.len() implies marked(
                present@,
                #[trigger] start[j].counts(),
            ) by {
                assert(marked(p0, start[j].counts()));
            }
        }
    }
    let mut out: Vec<E> = Vec::new();
    let mut k: usize = 0;
    while k < 65536
        invariant
            k <= 65536,
            present.len() == 65536,
            out.len() <= k,
            forall|i: int|
                0 <= i < out.len() ==> {
                    &&& (#[trigger] out[i]).unresolved()
                    &&& marked(present@, out[i].counts())
                    &&& key_spec(out[i].counts()) < k
                },
            forall|i: int, j: int|
                0 <= i < j < out.len() ==> key_spec(#[trigger] out[i].counts()) < key_spec(
                    #[trigger] out[j].counts(),
                ),
            forall|c: (int, int)| #[trigger] marked(present@, c) && key_spec(c) < k ==> holds(out@, c),
        decreases 65536 - k,
    {
        if present[k] {
            let e = E::new((k / 256) as u32, (k % 256) as u32);
            let ghost before = out@;
            out.push(e);
            proof {
                assert(key_spec(e.counts()) == k);
                assert forall|c: (int, int)| #[trigger]
                    marked(present@, c) && key_spec(c) < k + 1 implies holds(out@, c) by {
                    if key_spec(c) == k {
                        assert(c == e.counts());
                    }
                    lemma_holds_push(before, e, c);
                }
            }
        }
        k += 1;
    }
    proof {
        lemma_grid_is_closure(start@, present@, work@, out@);
        lemma_closure_is_closed(start@, out@);
    }
    out
}

/// The state set of the generator: the closure of the state `(0, 0)`.
pub fn closure() -> (r: Vec<E>)
    ensures
        is_closure_of(origin(), r@),
        is_closed(r@),
        r@.len() <= 65536,
{
    let mut start: Vec<E> = Vec::new();
    start.push(E::new(0, 0));
    assert(start@ =~= origin());
    closure_from(&start)
}

/// A closure is closed under transitions and holds the set it started from.
pub proof fn lemma_closure_is_closed(start: Seq<E>, s: Seq<E>)
    requires
        is_closure_of(start, s),
    ensures
        is_closed(s),
        forall|i: int| 0 <= i < start.len() ==> holds(s, #[trigger] start[i].counts()),
{
    assert forall|i: int, c: (int, int)| 0 <= i < s.len() && #[trigger] step(
        s[i].counts(),
        c,
    ) implies holds(s, c) by {
        assert(holds(s, s[i].counts()));
        lemma_reach_step(start, s[i].counts(), c);
    }
    assert forall|i: int| 0 <= i < start.len() implies holds(s, #[trigger] start[i].counts()) by {
        lemma_reach_start(start, i);
    }
}

} // verus!
