//! The gap assignments are exactly the distributions of the faces over the
//! slots, each once: every face in one slot that allows it, in any order.

use vstd::prelude::*;
use vstd::multiset::Multiset;
use crate::gaps::{
    empty_slots, held, lemma_held_empty, lemma_solutions_keep_slots, lemma_solutions_place_all, placed,
    position_solutions, respects, slot_solutions, solutions,
};

verus! {

proof fn lemma_filter_unfold(s: Seq<usize>, p: spec_fn(usize) -> bool)
    requires
        s.len() > 0,
    ensures
        s.filter(p) == if p(s.last()) {
            s.drop_last().filter(p).push(s.last())
        } else {
            s.drop_last().filter(p)
        },
{
    assert(s =~= s.drop_last().push(s.last()));
    s.drop_last().lemma_filter_push(s.last(), p);
}

/// Filtering by a test that every entry passes changes nothing.
proof fn lemma_filter_all(s: Seq<usize>, p: spec_fn(usize) -> bool)
    requires
        forall|i: int| 0 <= i < s.len() ==> p(#[trigger] s[i]),
    ensures
        s.filter(p) == s,
    decreases s.len(),
{
    if s.len() == 0 {
        reveal(Seq::filter);
    } else {
        lemma_filter_unfold(s, p);
        lemma_filter_all(s.drop_last(), p);
        assert(p(s[s.len() - 1]));
        assert(s.drop_last().push(s.last()) =~= s);
    }
}

/// Two tests that agree on every entry filter alike.
proof fn lemma_filter_same(s: Seq<usize>, p: spec_fn(usize) -> bool, q: spec_fn(usize) -> bool)
    requires
        forall|i: int| 0 <= i < s.len() ==> p(#[trigger] s[i]) == q(s[i]),
    ensures
        s.filter(p) == s.filter(q),
    decreases s.len(),
{
    if s.len() == 0 {
        reveal(Seq::filter);
    } else {
        lemma_filter_unfold(s, p);
        lemma_filter_unfold(s, q);
        lemma_filter_same(s.drop_last(), p, q);
        assert(p(s[s.len() - 1]) == q(s[s.len() - 1]));
    }
}

/// Filtering by a weaker test first changes nothing.
proof fn lemma_filter_twice(s: Seq<usize>, p: spec_fn(usize) -> bool, q: spec_fn(usize) -> bool)
    requires
        forall|x: usize| #[trigger] q(x) ==> p(x),
    ensures
        s.filter(p).filter(q) == s.filter(q),
    decreases s.len(),
{
    if s.len() == 0 {
        reveal(Seq::filter);
    } else {
        lemma_filter_unfold(s, p);
        lemma_filter_unfold(s, q);
        lemma_filter_twice(s.drop_last(), p, q);
        if p(s.last()) {
            s.drop_last().filter(p).lemma_filter_push(s.last(), q);
        }
    }
}

/// An entry that fails the test can be inserted anywhere before filtering.
proof fn lemma_filter_insert_skip(s: Seq<usize>, t: int, f: usize, p: spec_fn(usize) -> bool)
    requires
        0 <= t <= s.len(),
        !p(f),
    ensures
        s.insert(t, f).filter(p) == s.filter(p),
    decreases s.len(),
{
    let u = s.insert(t, f);
    if t == s.len() {
        assert(u =~= s.push(f));
        s.lemma_filter_push(f, p);
    } else {
        lemma_filter_unfold(u, p);
        lemma_filter_unfold(s, p);
        assert(u.drop_last() =~= s.drop_last().insert(t, f));
        assert(u.last() == s.last());
        lemma_filter_insert_skip(s.drop_last(), t, f, p);
    }
}

/// Where `f` stands only at position `t` of `s`, filtering by a test that
/// also passes `f` inserts it among the entries that the narrower test keeps.
proof fn lemma_filter_gain(s: Seq<usize>, t: int, f: usize, p: spec_fn(usize) -> bool, q: spec_fn(usize) -> bool)
    requires
        0 <= t < s.len(),
        s[t] == f,
        forall|j: int| 0 <= j < s.len() && j != t ==> #[trigger] s[j] != f,
        !p(f),
        forall|x: usize| #[trigger] q(x) == (p(x) || x == f),
    ensures
        s.subrange(0, t).filter(p).len() <= s.filter(p).len(),
        s.filter(q) == s.filter(p).insert(s.subrange(0, t).filter(p).len() as int, f),
    decreases s.len(),
{
    lemma_filter_unfold(s, p);
    lemma_filter_unfold(s, q);
    if t == s.len() - 1 {
        assert(s.subrange(0, t) =~= s.drop_last());
        assert forall|j: int| 0 <= j < s.drop_last().len() implies p(#[trigger] s.drop_last()[j]) == q(
            s.drop_last()[j],
        ) by {
            assert(s.drop_last()[j] == s[j]);
        }
        lemma_filter_same(s.drop_last(), p, q);
        assert(s.drop_last().filter(p).push(f) =~= s.drop_last().filter(p).insert(
            s.drop_last().filter(p).len() as int,
            f,
        ));
    } else {
        let d = s.drop_last();
        assert forall|j: int| 0 <= j < d.len() && j != t implies #[trigger] d[j] != f by {
            assert(d[j] == s[j]);
        }
        lemma_filter_gain(d, t, f, p, q);
        assert(d.subrange(0, t) =~= s.subrange(0, t));
        assert(s.last() != f);
        let x = s.last();
        let k = s.subrange(0, t).filter(p).len() as int;
        if p(x) {
            assert(d.filter(p).insert(k, f).push(x) =~= d.filter(p).push(x).insert(k, f));
        }
    }
}

/// Filtering by a test that no entry passes leaves nothing.
proof fn lemma_filter_none(s: Seq<usize>, p: spec_fn(usize) -> bool)
    requires
        forall|i: int| 0 <= i < s.len() ==> !p(#[trigger] s[i]),
    ensures
        s.filter(p) == Seq::<usize>::empty(),
    decreases s.len(),
{
    if s.len() == 0 {
        reveal(Seq::filter);
    } else {
        lemma_filter_unfold(s, p);
        lemma_filter_none(s.drop_last(), p);
        assert(!p(s[s.len() - 1]));
    }
}

proof fn lemma_concat_no_dup<A>(a: Seq<A>, b: Seq<A>)
    requires
        a.no_duplicates(),
        b.no_duplicates(),
        forall|x: int, y: int| 0 <= x < a.len() && 0 <= y < b.len() ==> a[x] != b[y],
    ensures
        (a + b).no_duplicates(),
{
    assert forall|x: int, y: int| 0 <= x < (a + b).len() && 0 <= y < (a + b).len() && x != y implies (a
        + b)[x] != (a + b)[y] by {
        if x < a.len() && y < a.len() {
            assert((a + b)[x] == a[x] && (a + b)[y] == a[y]);
        } else if x >= a.len() && y >= a.len() {
            assert((a + b)[x] == b[x - a.len()] && (a + b)[y] == b[y - a.len()]);
        } else if x < a.len() {
            assert((a + b)[x] == a[x] && (a + b)[y] == b[y - a.len()]);
        } else {
            assert((a + b)[y] == a[y] && (a + b)[x] == b[x - a.len()]);
        }
    }
}

/// The test that a face is among the first `k` faces.
pub open spec fn among_first(faces: Seq<usize>, k: int) -> spec_fn(usize) -> bool {
    |x: usize| faces.subrange(0, k).contains(x)
}

/// The slots of `sol` with only the first `k` faces kept: what the search
/// had placed on the way to `sol` before it placed `faces[k]`.
pub open spec fn placed_so_far(faces: Seq<usize>, k: int, sol: Seq<Seq<usize>>) -> Seq<Seq<usize>> {
    Seq::new(sol.len(), |j: int| sol[j].filter(among_first(faces, k)))
}

/// Every face in the slots of `state` is among the first `k` faces.
pub open spec fn within_first(faces: Seq<usize>, k: int, state: Seq<Seq<usize>>) -> bool {
    forall|j: int, x: usize| 0 <= j < state.len() && #[trigger] state[j].contains(x) ==> faces.subrange(0, k).contains(x)
}

/// `sol` distributes `faces` over the slots of `allowed`: one sequence per
/// slot, only faces that the slot allows, every face exactly as often as
/// `faces` lists it.
pub open spec fn is_distribution(allowed: Seq<Seq<usize>>, faces: Seq<usize>, sol: Seq<Seq<usize>>) -> bool {
    &&& sol.len() == allowed.len()
    &&& respects(allowed, sol)
    &&& held(sol) == faces.to_multiset()
}

proof fn lemma_among_next(faces: Seq<usize>, k: int)
    requires
        0 <= k < faces.len(),
        faces.no_duplicates(),
    ensures
        forall|x: usize| #[trigger] among_first(faces, k + 1)(x) == (among_first(faces, k)(x) || x == faces[k]),
        !among_first(faces, k)(faces[k]),
        forall|x: usize| #[trigger] among_first(faces, k)(x) ==> among_first(faces, k + 1)(x),
{
    assert(faces.subrange(0, k + 1) =~= faces.subrange(0, k).push(faces[k]));
    assert forall|x: usize| #[trigger] among_first(faces, k + 1)(x) == (among_first(faces, k)(x) || x == faces[k]) by {
        if faces.subrange(0, k).contains(x) {
            let j = choose|j: int| 0 <= j < k && #[trigger] faces.subrange(0, k)[j] == x;
            assert(faces.subrange(0, k + 1)[j] == x);
        }
        if faces.subrange(0, k + 1).contains(x) {
            let j = choose|j: int| 0 <= j < k + 1 && #[trigger] faces.subrange(0, k + 1)[j] == x;
            if j < k {
                assert(faces.subrange(0, k)[j] == x);
            }
        }
        if x == faces[k] {
            assert(faces.subrange(0, k + 1)[k] == x);
        }
    }
    if faces.subrange(0, k).contains(faces[k]) {
        let j = choose|j: int| 0 <= j < k && #[trigger] faces.subrange(0, k)[j] == faces[k];
        assert(faces[j] == faces[k]);
    }
}

proof fn lemma_state_kept(faces: Seq<usize>, k: int, state: Seq<Seq<usize>>, j: int)
    requires
        within_first(faces, k, state),
        0 <= j < state.len(),
    ensures
        state[j].filter(among_first(faces, k)) == state[j],
{
    assert forall|i: int| 0 <= i < state[j].len() implies among_first(faces, k)(#[trigger] state[j][i]) by {
        assert(state[j].contains(state[j][i]));
    }
    lemma_filter_all(state[j], among_first(faces, k));
}

/// `sol` came from `state` by placing `faces[k]` at position `p` of slot `i`.
pub open spec fn by_choice(faces: Seq<usize>, k: int, state: Seq<Seq<usize>>, sol: Seq<Seq<usize>>, i: int, p: int) -> bool {
    &&& 0 <= i < state.len()
    &&& 0 <= p <= state[i].len()
    &&& placed_so_far(faces, k + 1, sol) == placed(state, i, p, faces[k])
}

proof fn lemma_choice_back(faces: Seq<usize>, k: int, state: Seq<Seq<usize>>, sol: Seq<Seq<usize>>, i: int, p: int)
    requires
        faces.no_duplicates(),
        0 <= k < faces.len(),
        within_first(faces, k, state),
        by_choice(faces, k, state, sol, i, p),
    ensures
        placed_so_far(faces, k, sol) == state,
{
    lemma_among_next(faces, k);
    let next = placed(state, i, p, faces[k]);
    assert(sol.len() == next.len());
    assert forall|j: int| 0 <= j < state.len() implies placed_so_far(faces, k, sol)[j] == state[j] by {
        assert(placed_so_far(faces, k + 1, sol)[j] == next[j]);
        lemma_filter_twice(sol[j], among_first(faces, k + 1), among_first(faces, k));
        lemma_state_kept(faces, k, state, j);
        if j == i {
            lemma_filter_insert_skip(state[j], p, faces[k], among_first(faces, k));
        }
    }
    assert(placed_so_far(faces, k, sol) =~= state);
}

proof fn lemma_within_placed(faces: Seq<usize>, k: int, state: Seq<Seq<usize>>, i: int, p: int)
    requires
        faces.no_duplicates(),
        0 <= k < faces.len(),
        within_first(faces, k, state),
        0 <= i < state.len(),
        0 <= p <= state[i].len(),
    ensures
        within_first(faces, k + 1, placed(state, i, p, faces[k])),
{
    lemma_among_next(faces, k);
    let q = placed(state, i, p, faces[k]);
    assert forall|j: int, x: usize| 0 <= j < q.len() && #[trigger] q[j].contains(x) implies faces.subrange(0, k + 1).contains(x) by {
        let u = choose|u: int| 0 <= u < q[j].len() && q[j][u] == x;
        if j == i {
            if u < p {
                assert(q[j][u] == state[j][u]);
                assert(state[j].contains(x));
            } else if u > p {
                assert(q[j][u] == state[j][u - 1]);
                assert(state[j].contains(x));
            } else {
                assert(x == faces[k]);
            }
        } else {
            assert(q[j] == state[j]);
        }
        assert(among_first(faces, k + 1)(x));
    }
}

proof fn lemma_placed_differ(faces: Seq<usize>, k: int, state: Seq<Seq<usize>>, i: int, p: int, i2: int, p2: int)
    requires
        faces.no_duplicates(),
        0 <= k < faces.len(),
        within_first(faces, k, state),
        0 <= i < state.len(),
        0 <= p <= state[i].len(),
        0 <= i2 < state.len(),
        0 <= p2 <= state[i2].len(),
        i != i2 || p != p2,
    ensures
        placed(state, i, p, faces[k]) != placed(state, i2, p2, faces[k]),
{
    let f = faces[k];
    let a = placed(state, i, p, f);
    let b = placed(state, i2, p2, f);
    lemma_among_next(faces, k);
    if i != i2 {
        assert(a[i].len() == state[i].len() + 1);
        assert(b[i] == state[i]);
    } else {
        let lo = if p < p2 {
            p
        } else {
            p2
        };
        assert(!state[i].contains(f)) by {
            if state[i].contains(f) {
                assert(among_first(faces, k)(f));
            }
        }
        assert(a[i][lo] != b[i][lo]) by {
            if p < p2 {
                assert(a[i][lo] == f);
                assert(b[i][lo] == state[i][lo]);
            } else {
                assert(b[i][lo] == f);
                assert(a[i][lo] == state[i][lo]);
            }
        }
    }
}

/// The slot and the position at which `sol` placed `faces[k]` on its way
/// from `state`.
pub open spec fn choice_of(faces: Seq<usize>, k: int, state: Seq<Seq<usize>>, sol: Seq<Seq<usize>>) -> (int, int) {
    choose|c: (int, int)| by_choice(faces, k, state, sol, c.0, c.1)
}

/// `sol` placed `faces[k]` from `state` at the slot and position that
/// `choice_of` names.
pub open spec fn chosen(faces: Seq<usize>, k: int, state: Seq<Seq<usize>>, sol: Seq<Seq<usize>>) -> bool {
    by_choice(faces, k, state, sol, choice_of(faces, k, state, sol).0, choice_of(faces, k, state, sol).1)
}

proof fn lemma_choice_is(faces: Seq<usize>, k: int, state: Seq<Seq<usize>>, sol: Seq<Seq<usize>>, i: int, p: int)
    requires
        faces.no_duplicates(),
        0 <= k < faces.len(),
        within_first(faces, k, state),
        by_choice(faces, k, state, sol, i, p),
    ensures
        chosen(faces, k, state, sol),
        choice_of(faces, k, state, sol) == (i, p),
{
    assert(by_choice(faces, k, state, sol, (i, p).0, (i, p).1));
    let c = choice_of(faces, k, state, sol);
    assert(by_choice(faces, k, state, sol, c.0, c.1));
    if c != (i, p) {
        lemma_placed_differ(faces, k, state, i, p, c.0, c.1);
    }
}

proof fn lemma_solutions_once(allowed: Seq<Seq<usize>>, faces: Seq<usize>, k: int, state: Seq<Seq<usize>>)
    requires
        faces.no_duplicates(),
        0 <= k <= faces.len(),
        within_first(faces, k, state),
    ensures
        solutions(allowed, faces, k, state).no_duplicates(),
        forall|t: int|
            0 <= t < solutions(allowed, faces, k, state).len() ==> placed_so_far(
                faces,
                k,
                #[trigger] solutions(allowed, faces, k, state)[t],
            ) == state,
    decreases faces.len() - k, 2int, 0int, 0int,
{
    let sols = solutions(allowed, faces, k, state);
    if k >= faces.len() {
        assert(sols == seq![state]);
        assert forall|j: int| 0 <= j < state.len() implies placed_so_far(faces, k, state)[j] == state[j] by {
            lemma_state_kept(faces, k, state, j);
        }
        assert(placed_so_far(faces, k, state) =~= state);
        assert(seq![state][0] == state);
    } else {
        lemma_slots_once(allowed, faces, k, state, 0);
        assert(sols == slot_solutions(allowed, faces, k, state, 0));
        assert forall|t: int| 0 <= t < sols.len() implies placed_so_far(faces, k, #[trigger] sols[t]) == state by {
            assert(chosen(faces, k, state, slot_solutions(allowed, faces, k, state, 0)[t]));
            let c = choice_of(faces, k, state, sols[t]);
            lemma_choice_back(faces, k, state, sols[t], c.0, c.1);
        }
    }
}

proof fn lemma_slots_once(allowed: Seq<Seq<usize>>, faces: Seq<usize>, k: int, state: Seq<Seq<usize>>, i: int)
    requires
        faces.no_duplicates(),
        0 <= k < faces.len(),
        within_first(faces, k, state),
        0 <= i,
    ensures
        slot_solutions(allowed, faces, k, state, i).no_duplicates(),
        forall|t: int|
            0 <= t < slot_solutions(allowed, faces, k, state, i).len() ==> chosen(
                faces,
                k,
                state,
                #[trigger] slot_solutions(allowed, faces, k, state, i)[t],
            ) && i <= choice_of(faces, k, state, slot_solutions(allowed, faces, k, state, i)[t]).0,
    decreases faces.len() - k, 1int, state.len() - i, 0int,
{
    if i < state.len() {
        lemma_slots_once(allowed, faces, k, state, i + 1);
        let rest = slot_solutions(allowed, faces, k, state, i + 1);
        if i < allowed.len() && allowed[i].contains(faces[k]) {
            lemma_positions_once(allowed, faces, k, state, i, 0);
            let here = position_solutions(allowed, faces, k, state, i, 0);
            assert forall|x: int, y: int| 0 <= x < here.len() && 0 <= y < rest.len() implies here[x] != rest[y] by {
                assert(chosen(faces, k, state, here[x]));
                assert(chosen(faces, k, state, rest[y]));
            }
            lemma_concat_no_dup(here, rest);
            let all = here + rest;
            assert(slot_solutions(allowed, faces, k, state, i) == all);
            assert forall|t: int| 0 <= t < all.len() implies chosen(faces, k, state, #[trigger] all[t]) && i
                <= choice_of(faces, k, state, all[t]).0 by {
                if t < here.len() {
                    assert(all[t] == here[t]);
                    assert(chosen(faces, k, state, here[t]));
                } else {
                    assert(all[t] == rest[t - here.len()]);
                    assert(chosen(faces, k, state, rest[t - here.len()]));
                }
            }
        } else {
            assert(slot_solutions(allowed, faces, k, state, i) == rest);
            assert forall|t: int| 0 <= t < rest.len() implies chosen(faces, k, state, #[trigger] rest[t]) && i
                <= choice_of(faces, k, state, rest[t]).0 by {
                assert(chosen(faces, k, state, rest[t]));
            }
        }
    }
}

proof fn lemma_positions_once(allowed: Seq<Seq<usize>>, faces: Seq<usize>, k: int, state: Seq<Seq<usize>>, i: int, p: int)
    requires
        faces.no_duplicates(),
        0 <= k < faces.len(),
        within_first(faces, k, state),
        0 <= i < state.len(),
        0 <= p,
    ensures
        position_solutions(allowed, faces, k, state, i, p).no_duplicates(),
        forall|t: int|
            0 <= t < position_solutions(allowed, faces, k, state, i, p).len() ==> chosen(
                faces,
                k,
                state,
                #[trigger] position_solutions(allowed, faces, k, state, i, p)[t],
            ) && choice_of(faces, k, state, position_solutions(allowed, faces, k, state, i, p)[t]).0 == i && p
                <= choice_of(faces, k, state, position_solutions(allowed, faces, k, state, i, p)[t]).1,
    decreases faces.len() - k, 0int, state.len() - i, state[i].len() + 1 - p,
{
    if p <= state[i].len() {
        let f = faces[k];
        let next = placed(state, i, p, f);
        lemma_within_placed(faces, k, state, i, p);
        lemma_solutions_once(allowed, faces, k + 1, next);
        lemma_positions_once(allowed, faces, k, state, i, p + 1);
        let here = solutions(allowed, faces, k + 1, next);
        let rest = position_solutions(allowed, faces, k, state, i, p + 1);
        assert forall|t: int| 0 <= t < here.len() implies choice_of(faces, k, state, #[trigger] here[t]) == (i, p)
            && chosen(faces, k, state, here[t]) by {
            assert(placed_so_far(faces, k + 1, here[t]) == next);
            lemma_choice_is(faces, k, state, here[t], i, p);
        }
        assert forall|x: int, y: int| 0 <= x < here.len() && 0 <= y < rest.len() implies here[x] != rest[y] by {
            assert(choice_of(faces, k, state, here[x]) == (i, p));
            assert(chosen(faces, k, state, rest[y]));
        }
        lemma_concat_no_dup(here, rest);
        let all = here + rest;
        assert(position_solutions(allowed, faces, k, state, i, p) == all);
        assert forall|t: int| 0 <= t < all.len() implies chosen(faces, k, state, #[trigger] all[t]) && choice_of(
            faces,
            k,
            state,
            all[t],
        ).0 == i && p <= choice_of(faces, k, state, all[t]).1 by {
            if t < here.len() {
                assert(all[t] == here[t]);
                assert(choice_of(faces, k, state, here[t]) == (i, p));
            } else {
                assert(all[t] == rest[t - here.len()]);
                assert(chosen(faces, k, state, rest[t - here.len()]));
            }
        }
    }
}

proof fn lemma_held_slot(sol: Seq<Seq<usize>>, j: int, x: usize)
    requires
        0 <= j < sol.len(),
    ensures
        sol[j].to_multiset().count(x) <= held(sol).count(x),
    decreases sol.len(),
{
    if j < sol.len() - 1 {
        lemma_held_slot(sol.drop_last(), j, x);
        assert(sol.drop_last()[j] == sol[j]);
    }
}

proof fn lemma_held_two_slots(sol: Seq<Seq<usize>>, j1: int, j2: int, x: usize)
    requires
        0 <= j1 < j2 < sol.len(),
    ensures
        sol[j1].to_multiset().count(x) + sol[j2].to_multiset().count(x) <= held(sol).count(x),
    decreases sol.len(),
{
    if j2 < sol.len() - 1 {
        lemma_held_two_slots(sol.drop_last(), j1, j2, x);
        assert(sol.drop_last()[j1] == sol[j1]);
        assert(sol.drop_last()[j2] == sol[j2]);
    } else {
        lemma_held_slot(sol.drop_last(), j1, x);
        assert(sol.drop_last()[j1] == sol[j1]);
    }
}

proof fn lemma_held_some_slot(sol: Seq<Seq<usize>>, x: usize)
    requires
        held(sol).count(x) > 0,
    ensures
        exists|j: int| 0 <= j < sol.len() && #[trigger] sol[j].contains(x),
    decreases sol.len(),
{
    if sol.len() == 0 {
        assert(held(sol) =~= Multiset::<usize>::empty());
    } else {
        let last = sol.last();
        last.to_multiset_ensures();
        if last.to_multiset().count(x) > 0 {
            assert(sol[sol.len() - 1].contains(x));
        } else {
            lemma_held_some_slot(sol.drop_last(), x);
            let j = choose|j: int| 0 <= j < sol.drop_last().len() && #[trigger] sol.drop_last()[j].contains(x);
            assert(sol[j] == sol.drop_last()[j]);
        }
    }
}

proof fn lemma_twice_counts(s: Seq<usize>, u1: int, u2: int)
    requires
        0 <= u1 < s.len(),
        0 <= u2 < s.len(),
        u1 != u2,
        s[u1] == s[u2],
    ensures
        s.to_multiset().count(s[u1]) >= 2,
{
    broadcast use vstd::multiset::group_multiset_axioms;

    let x = s[u1];
    let r = s.remove(u1);
    vstd::seq_lib::to_multiset_remove(s, u1);
    r.to_multiset_ensures();
    s.to_multiset_ensures();
    if u2 < u1 {
        assert(r[u2] == x);
    } else {
        assert(r[u2 - 1] == x);
    }
    assert(r.contains(x));
    assert(r.to_multiset().count(x) > 0);
    assert(r.to_multiset() == s.to_multiset().remove(x));
    assert(s.to_multiset().remove(x).count(x) > 0);
}

proof fn lemma_positions_grow(
    allowed: Seq<Seq<usize>>,
    faces: Seq<usize>,
    k: int,
    state: Seq<Seq<usize>>,
    i: int,
    q: int,
    p: int,
    sol: Seq<Seq<usize>>,
)
    requires
        0 <= k < faces.len(),
        0 <= i < state.len(),
        0 <= q <= p,
        position_solutions(allowed, faces, k, state, i, p).contains(sol),
    ensures
        position_solutions(allowed, faces, k, state, i, q).contains(sol),
    decreases p - q,
{
    if q < p {
        lemma_positions_grow(allowed, faces, k, state, i, q + 1, p, sol);
        let b = position_solutions(allowed, faces, k, state, i, q + 1);
        let y = choose|y: int| 0 <= y < b.len() && b[y] == sol;
        if q <= state[i].len() {
            let a = solutions(allowed, faces, k + 1, placed(state, i, q, faces[k]));
            assert((a + b)[a.len() + y] == sol);
        }
    }
}

proof fn lemma_slots_grow(
    allowed: Seq<Seq<usize>>,
    faces: Seq<usize>,
    k: int,
    state: Seq<Seq<usize>>,
    q: int,
    i: int,
    sol: Seq<Seq<usize>>,
)
    requires
        0 <= k < faces.len(),
        0 <= q <= i,
        slot_solutions(allowed, faces, k, state, i).contains(sol),
    ensures
        slot_solutions(allowed, faces, k, state, q).contains(sol),
    decreases i - q,
{
    if q < i {
        lemma_slots_grow(allowed, faces, k, state, q + 1, i, sol);
        let b = slot_solutions(allowed, faces, k, state, q + 1);
        let y = choose|y: int| 0 <= y < b.len() && b[y] == sol;
        if q < state.len() && q < allowed.len() && allowed[q].contains(faces[k]) {
            let a = position_solutions(allowed, faces, k, state, q, 0);
            assert((a + b)[a.len() + y] == sol);
        }
    }
}

proof fn lemma_complete(allowed: Seq<Seq<usize>>, faces: Seq<usize>, k: int, sol: Seq<Seq<usize>>)
    requires
        faces.no_duplicates(),
        0 <= k <= faces.len(),
        respects(allowed, sol),
        held(sol) == faces.to_multiset(),
    ensures
        solutions(allowed, faces, k, placed_so_far(faces, k, sol)).contains(sol),
    decreases faces.len() - k,
{
    let state = placed_so_far(faces, k, sol);
    faces.to_multiset_ensures();
    if k == faces.len() {
        assert(faces.subrange(0, k) =~= faces);
        assert forall|j: int| 0 <= j < sol.len() implies state[j] == sol[j] by {
            assert forall|u: int| 0 <= u < sol[j].len() implies among_first(faces, k)(#[trigger] sol[j][u]) by {
                let x = sol[j][u];
                sol[j].to_multiset_ensures();
                assert(sol[j].contains(x));
                lemma_held_slot(sol, j, x);
                assert(faces.contains(x));
            }
            lemma_filter_all(sol[j], among_first(faces, k));
        }
        assert(state =~= sol);
        assert(seq![sol][0] == sol);
    } else {
        let f = faces[k];
        lemma_among_next(faces, k);
        faces.lemma_multiset_has_no_duplicates();
        assert(faces.contains(f));
        assert(faces.to_multiset().count(f) == 1);
        lemma_held_some_slot(sol, f);
        let i = choose|j: int| 0 <= j < sol.len() && #[trigger] sol[j].contains(f);
        let t = choose|u: int| 0 <= u < sol[i].len() && sol[i][u] == f;
        sol[i].to_multiset_ensures();
        lemma_held_slot(sol, i, f);
        assert forall|j: int, u: int| 0 <= j < sol.len() && 0 <= u < sol[j].len() && (j != i || u != t) implies #[trigger] sol[j][u]
            != f by {
            if sol[j][u] == f {
                sol[j].to_multiset_ensures();
                assert(sol[j].contains(f));
                if j == i {
                    lemma_twice_counts(sol[i], t, u);
                } else if j < i {
                    lemma_held_two_slots(sol, j, i, f);
                } else {
                    lemma_held_two_slots(sol, i, j, f);
                }
            }
        }
        let next = placed_so_far(faces, k + 1, sol);
        assert forall|u: int| 0 <= u < sol[i].len() && u != t implies #[trigger] sol[i][u] != f by {}
        lemma_filter_gain(sol[i], t, f, among_first(faces, k), among_first(faces, k + 1));
        let pp = sol[i].subrange(0, t).filter(among_first(faces, k)).len() as int;
        assert forall|j: int| 0 <= j < sol.len() implies next[j] == placed(state, i, pp, f)[j] by {
            if j != i {
                assert forall|u: int| 0 <= u < sol[j].len() implies among_first(faces, k + 1)(#[trigger] sol[j][u])
                    == among_first(faces, k)(sol[j][u]) by {
                    assert(sol[j][u] != f);
                }
                lemma_filter_same(sol[j], among_first(faces, k + 1), among_first(faces, k));
            }
        }
        assert(next =~= placed(state, i, pp, f));
        assert(i < allowed.len() && allowed[i].contains(f));
        lemma_complete(allowed, faces, k + 1, sol);
        let a = solutions(allowed, faces, k + 1, next);
        let y = choose|y: int| 0 <= y < a.len() && a[y] == sol;
        let b = position_solutions(allowed, faces, k, state, i, pp + 1);
        assert(position_solutions(allowed, faces, k, state, i, pp) == a + b);
        assert((a + b)[y] == sol);
        lemma_positions_grow(allowed, faces, k, state, i, 0, pp, sol);
        let c = position_solutions(allowed, faces, k, state, i, 0);
        let z = choose|z: int| 0 <= z < c.len() && c[z] == sol;
        let d = slot_solutions(allowed, faces, k, state, i + 1);
        assert(slot_solutions(allowed, faces, k, state, i) == c + d);
        assert((c + d)[z] == sol);
        lemma_slots_grow(allowed, faces, k, state, 0, i, sol);
    }
}

/// With no face listed twice, the gap assignments are exactly the
/// distributions of the faces over the slots, each once: every face in one
/// slot that allows it, the faces of a slot in any order.
pub proof fn lemma_gap_assignments_exact(allowed: Seq<Seq<usize>>, faces: Seq<usize>, sol: Seq<Seq<usize>>)
    requires
        faces.no_duplicates(),
    ensures
        solutions(allowed, faces, 0, empty_slots(allowed.len())).contains(sol) <==> is_distribution(
            allowed,
            faces,
            sol,
        ),
        solutions(allowed, faces, 0, empty_slots(allowed.len())).no_duplicates(),
{
    let e = empty_slots(allowed.len());
    assert(within_first(faces, 0, e));
    lemma_solutions_once(allowed, faces, 0, e);
    let sols = solutions(allowed, faces, 0, e);
    if sols.contains(sol) {
        lemma_solutions_keep_slots(allowed, faces, 0, e);
        lemma_solutions_place_all(allowed, faces, 0, e);
        lemma_held_empty(allowed.len());
        assert(respects(allowed, e));
        assert(faces.subrange(0, faces.len() as int) =~= faces);
        assert(Multiset::<usize>::empty().add(faces.to_multiset()) =~= faces.to_multiset());
        let t = choose|t: int| 0 <= t < sols.len() && sols[t] == sol;
    }
    if is_distribution(allowed, faces, sol) {
        lemma_complete(allowed, faces, 0, sol);
        assert forall|j: int| 0 <= j < sol.len() implies placed_so_far(faces, 0, sol)[j] == e[j] by {
            assert forall|u: int| 0 <= u < sol[j].len() implies !among_first(faces, 0)(#[trigger] sol[j][u]) by {
                assert(faces.subrange(0, 0).len() == 0);
            }
            lemma_filter_none(sol[j], among_first(faces, 0));
        }
        assert(placed_so_far(faces, 0, sol) =~= e);
    }
}

} // verus!
