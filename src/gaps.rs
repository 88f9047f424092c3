//! Distributing the faces left over between two ranks into the gaps of a
//! layer, in every admissible way and in every order inside each gap.

use vstd::prelude::*;
use vstd::multiset::Multiset;

verus! {

/// The slot contents after `f` is inserted at position `p` of slot `i`.
pub open spec fn placed(state: Seq<Seq<usize>>, i: int, p: int, f: usize) -> Seq<Seq<usize>> {
    state.update(i, state[i].insert(p, f))
}

/// Every way of placing `faces[k..]`, one after the other, into the slots of
/// `state`: each face goes into one slot whose `allowed` entry holds it, at
/// any position of that slot. Earlier choices of slot and of position come
/// first.
pub open spec fn solutions(
    allowed: Seq<Seq<usize>>,
    faces: Seq<usize>,
    k: int,
    state: Seq<Seq<usize>>,
) -> Seq<Seq<Seq<usize>>>
    decreases faces.len() - k, 2int, 0int, 0int,
{
    if k >= faces.len() {
        seq![state]
    } else {
        slot_solutions(allowed, faces, k, state, 0)
    }
}

/// The placements of `faces[k..]` whose first face goes into slot `i` or a
/// later one.
pub open spec fn slot_solutions(
    allowed: Seq<Seq<usize>>,
    faces: Seq<usize>,
    k: int,
    state: Seq<Seq<usize>>,
    i: int,
) -> Seq<Seq<Seq<usize>>>
    decreases faces.len() - k, 1int, state.len() - i, 0int,
{
    if k < 0 || k >= faces.len() || i < 0 || i >= state.len() {
        seq![]
    } else {
        let rest = slot_solutions(allowed, faces, k, state, i + 1);
        if i < allowed.len() && allowed[i].contains(faces[k]) {
            position_solutions(allowed, faces, k, state, i, 0) + rest
        } else {
            rest
        }
    }
}

/// The placements of `faces[k..]` whose first face goes into slot `i` at
/// position `p` or a later one.
pub open spec fn position_solutions(
    allowed: Seq<Seq<usize>>,
    faces: Seq<usize>,
    k: int,
    state: Seq<Seq<usize>>,
    i: int,
    p: int,
) -> Seq<Seq<Seq<usize>>>
    decreases faces.len() - k, 0int, state.len() - i, state[i].len() + 1 - p,
{
    if k < 0 || k >= faces.len() || i < 0 || i >= state.len() || p < 0 || p > state[i].len() {
        seq![]
    } else {
        solutions(allowed, faces, k + 1, placed(state, i, p, faces[k])) + position_solutions(
            allowed,
            faces,
            k,
            state,
            i,
            p + 1,
        )
    }
}

proof fn lemma_concat_keeps_slots(a: Seq<Seq<Seq<usize>>>, b: Seq<Seq<Seq<usize>>>, n: nat)
    requires
        forall|j: int| 0 <= j < a.len() ==> (#[trigger] a[j]).len() == n,
        forall|j: int| 0 <= j < b.len() ==> (#[trigger] b[j]).len() == n,
    ensures
        forall|j: int| 0 <= j < (a + b).len() ==> (#[trigger] (a + b)[j]).len() == n,
{
    assert forall|j: int| 0 <= j < (a + b).len() implies (#[trigger] (a + b)[j]).len() == n by {
        if j < a.len() {
            assert((a + b)[j] == a[j]);
        } else {
            assert((a + b)[j] == b[j - a.len()]);
        }
    }
}

/// Every placement keeps the number of slots.
pub proof fn lemma_solutions_keep_slots(
    allowed: Seq<Seq<usize>>,
    faces: Seq<usize>,
    k: int,
    state: Seq<Seq<usize>>,
)
    ensures
        forall|j: int|
            0 <= j < solutions(allowed, faces, k, state).len() ==> (#[trigger] solutions(
                allowed,
                faces,
                k,
                state,
            )[j]).len() == state.len(),
    decreases faces.len() - k, 2int, 0int, 0int,
{
    if k < faces.len() {
        lemma_slot_solutions_keep_slots(allowed, faces, k, state, 0);
        assert(solutions(allowed, faces, k, state) == slot_solutions(allowed, faces, k, state, 0));
    } else {
        assert(solutions(allowed, faces, k, state) == seq![state]);
        assert(seq![state][0] == state);
    }
}

/// Every placement from slot `i` on keeps the number of slots.
proof fn lemma_slot_solutions_keep_slots(
    allowed: Seq<Seq<usize>>,
    faces: Seq<usize>,
    k: int,
    state: Seq<Seq<usize>>,
    i: int,
)
    ensures
        forall|j: int|
            0 <= j < slot_solutions(allowed, faces, k, state, i).len() ==> (#[trigger] slot_solutions(
                allowed,
                faces,
                k,
                state,
                i,
            )[j]).len() == state.len(),
    decreases faces.len() - k, 1int, state.len() - i, 0int,
{
    if !(k < 0 || k >= faces.len() || i < 0 || i >= state.len()) {
        lemma_slot_solutions_keep_slots(allowed, faces, k, state, i + 1);
        if i < allowed.len() && allowed[i].contains(faces[k]) {
            lemma_position_solutions_keep_slots(allowed, faces, k, state, i, 0);
            lemma_concat_keeps_slots(
                position_solutions(allowed, faces, k, state, i, 0),
                slot_solutions(allowed, faces, k, state, i + 1),
                state.len(),
            );
        }
    }
}

/// Every placement into slot `i` from position `p` on keeps the number of
/// slots.
proof fn lemma_position_solutions_keep_slots(
    allowed: Seq<Seq<usize>>,
    faces: Seq<usize>,
    k: int,
    state: Seq<Seq<usize>>,
    i: int,
    p: int,
)
    ensures
        forall|j: int|
            0 <= j < position_solutions(allowed, faces, k, state, i, p).len() ==> (
            #[trigger] position_solutions(allowed, faces, k, state, i, p)[j]).len() == state.len(),
    decreases faces.len() - k, 0int, state.len() - i, state[i].len() + 1 - p,
{
    if !(k < 0 || k >= faces.len() || i < 0 || i >= state.len() || p < 0 || p > state[i].len()) {
        let next = placed(state, i, p, faces[k]);
        lemma_solutions_keep_slots(allowed, faces, k + 1, next);
        lemma_position_solutions_keep_slots(allowed, faces, k, state, i, p + 1);
        let a = solutions(allowed, faces, k + 1, next);
        let b = position_solutions(allowed, faces, k, state, i, p + 1);
        assert(next.len() == state.len());
        lemma_concat_keeps_slots(a, b, state.len());
    }
}

/// Everything that the slots hold, counted with multiplicity.
pub open spec fn held(state: Seq<Seq<usize>>) -> Multiset<usize>
    decreases state.len(),
{
    if state.len() == 0 {
        Multiset::empty()
    } else {
        held(state.drop_last()).add(state.last().to_multiset())
    }
}

/// Every slot holds only faces that its `allowed` entry holds.
pub open spec fn respects(allowed: Seq<Seq<usize>>, state: Seq<Seq<usize>>) -> bool {
    forall|i: int, x: usize|
        0 <= i < state.len() && #[trigger] state[i].contains(x) ==> i < allowed.len() && allowed[i].contains(x)
}

proof fn lemma_held_placed(state: Seq<Seq<usize>>, i: int, p: int, f: usize)
    requires
        0 <= i < state.len(),
        0 <= p <= state[i].len(),
    ensures
        held(placed(state, i, p, f)) == held(state).insert(f),
    decreases state.len(),
{
    let q = placed(state, i, p, f);
    vstd::seq_lib::to_multiset_insert(state[i], p, f);
    if i == state.len() - 1 {
        assert(q.drop_last() =~= state.drop_last());
        assert(q.last() == state[i].insert(p, f));
        assert(held(q) =~= held(state).insert(f));
    } else {
        assert(q.drop_last() =~= placed(state.drop_last(), i, p, f));
        lemma_held_placed(state.drop_last(), i, p, f);
        assert(held(q) =~= held(state).insert(f));
    }
}

proof fn lemma_respects_placed(allowed: Seq<Seq<usize>>, state: Seq<Seq<usize>>, i: int, p: int, f: usize)
    requires
        0 <= i < state.len(),
        0 <= p <= state[i].len(),
        respects(allowed, state),
        i < allowed.len(),
        allowed[i].contains(f),
    ensures
        respects(allowed, placed(state, i, p, f)),
{
    let q = placed(state, i, p, f);
    assert forall|a: int, x: usize| 0 <= a < q.len() && #[trigger] q[a].contains(x) implies a < allowed.len()
        && allowed[a].contains(x) by {
        if a == i {
            let k = choose|k: int| 0 <= k < q[a].len() && q[a][k] == x;
            assert(q[a] == state[i].insert(p, f));
            if k < p {
                assert(q[a][k] == state[a][k]);
                assert(state[a].contains(x));
            } else if k > p {
                assert(q[a][k] == state[a][k - 1]);
                assert(state[a].contains(x));
            } else {
                assert(q[a][k] == f);
            }
        } else {
            assert(q[a] == state[a]);
        }
    }
}

/// Every solution from `faces[k..]` and `state` holds what `state` holds and
/// those faces, and respects `allowed` where `state` does.
pub open spec fn places_all(
    allowed: Seq<Seq<usize>>,
    faces: Seq<usize>,
    k: int,
    state: Seq<Seq<usize>>,
    sols: Seq<Seq<Seq<usize>>>,
) -> bool {
    forall|j: int|
        0 <= j < sols.len() ==> {
            &&& held(#[trigger] sols[j]) == held(state).add(faces.subrange(k, faces.len() as int).to_multiset())
            &&& respects(allowed, state) ==> respects(allowed, sols[j])
        }
}

proof fn lemma_places_concat(
    allowed: Seq<Seq<usize>>,
    faces: Seq<usize>,
    k: int,
    state: Seq<Seq<usize>>,
    a: Seq<Seq<Seq<usize>>>,
    b: Seq<Seq<Seq<usize>>>,
)
    requires
        places_all(allowed, faces, k, state, a),
        places_all(allowed, faces, k, state, b),
    ensures
        places_all(allowed, faces, k, state, a + b),
{
    assert forall|j: int| 0 <= j < (a + b).len() implies {
        &&& held(#[trigger] (a + b)[j]) == held(state).add(faces.subrange(k, faces.len() as int).to_multiset())
        &&& respects(allowed, state) ==> respects(allowed, (a + b)[j])
    } by {
        if j < a.len() {
            assert((a + b)[j] == a[j]);
        } else {
            assert((a + b)[j] == b[j - a.len()]);
        }
    }
}

pub(crate) proof fn lemma_solutions_place_all(allowed: Seq<Seq<usize>>, faces: Seq<usize>, k: int, state: Seq<Seq<usize>>)
    requires
        0 <= k <= faces.len(),
    ensures
        places_all(allowed, faces, k, state, solutions(allowed, faces, k, state)),
    decreases faces.len() - k, 2int, 0int, 0int,
{
    if k < faces.len() {
        lemma_slot_solutions_place_all(allowed, faces, k, state, 0);
    } else {
        lemma_empty_multiset(faces.subrange(k, faces.len() as int));
        assert(held(state).add(Multiset::empty()) =~= held(state));
        assert(seq![state][0] == state);
    }
}

proof fn lemma_slot_solutions_place_all(
    allowed: Seq<Seq<usize>>,
    faces: Seq<usize>,
    k: int,
    state: Seq<Seq<usize>>,
    i: int,
)
    requires
        0 <= k < faces.len(),
    ensures
        places_all(allowed, faces, k, state, slot_solutions(allowed, faces, k, state, i)),
    decreases faces.len() - k, 1int, state.len() - i, 0int,
{
    if !(i < 0 || i >= state.len()) {
        lemma_slot_solutions_place_all(allowed, faces, k, state, i + 1);
        if i < allowed.len() && allowed[i].contains(faces[k]) {
            lemma_position_solutions_place_all(allowed, faces, k, state, i, 0);
            lemma_places_concat(
                allowed,
                faces,
                k,
                state,
                position_solutions(allowed, faces, k, state, i, 0),
                slot_solutions(allowed, faces, k, state, i + 1),
            );
        }
    }
}

proof fn lemma_position_solutions_place_all(
    allowed: Seq<Seq<usize>>,
    faces: Seq<usize>,
    k: int,
    state: Seq<Seq<usize>>,
    i: int,
    p: int,
)
    requires
        0 <= k < faces.len(),
        0 <= i < state.len(),
        i < allowed.len(),
        allowed[i].contains(faces[k]),
    ensures
        places_all(allowed, faces, k, state, position_solutions(allowed, faces, k, state, i, p)),
    decreases faces.len() - k, 0int, state.len() - i, state[i].len() + 1 - p,
{
    if !(p < 0 || p > state[i].len()) {
        let f = faces[k];
        let next = placed(state, i, p, f);
        lemma_solutions_place_all(allowed, faces, k + 1, next);
        lemma_position_solutions_place_all(allowed, faces, k, state, i, p + 1);
        lemma_held_placed(state, i, p, f);
        if respects(allowed, state) {
            lemma_respects_placed(allowed, state, i, p, f);
        }
        let rest = faces.subrange(k + 1, faces.len() as int);
        assert(faces.subrange(k, faces.len() as int) =~= rest.insert(0, f));
        vstd::seq_lib::to_multiset_insert(rest, 0, f);
        assert(held(next).add(rest.to_multiset()) =~= held(state).add(
            faces.subrange(k, faces.len() as int).to_multiset(),
        ));
        lemma_places_concat(
            allowed,
            faces,
            k,
            state,
            solutions(allowed, faces, k + 1, next),
            position_solutions(allowed, faces, k, state, i, p + 1),
        );
    }
}

/// `n` empty slots.
pub open spec fn empty_slots(n: nat) -> Seq<Seq<usize>> {
    Seq::new(n, |i: int| Seq::<usize>::empty())
}

/// Each row of the deep view of `v` is the view of that row.
pub proof fn lemma_rows(v: Vec<Vec<usize>>)
    ensures
        v.deep_view().len() == v@.len(),
        forall|j: int| 0 <= j < v@.len() ==> #[trigger] v.deep_view()[j] == v@[j]@,
{
    assert forall|j: int| 0 <= j < v@.len() implies #[trigger] v.deep_view()[j] == v@[j]@ by {
        assert(v@[j].deep_view() =~= v@[j]@);
    }
}

proof fn lemma_empty_multiset(s: Seq<usize>)
    requires
        s.len() == 0,
    ensures
        s.to_multiset() == Multiset::<usize>::empty(),
{
    s.to_multiset_ensures();
    vstd::multiset::lemma_multiset_empty_len(s.to_multiset());
}

pub(crate) proof fn lemma_held_empty(n: nat)
    ensures
        held(empty_slots(n)) == Multiset::<usize>::empty(),
    decreases n,
{
    if n > 0 {
        lemma_held_empty((n - 1) as nat);
        assert(empty_slots(n).drop_last() =~= empty_slots((n - 1) as nat));
        lemma_empty_multiset(empty_slots(n).last());
        assert(Multiset::<usize>::empty().add(Multiset::<usize>::empty()) =~= Multiset::<usize>::empty());
    }
}

fn copy_slot(v: &Vec<usize>) -> (r: Vec<usize>)
    ensures
        r@ == v@,
{
    let r = v.clone();
    proof {
        assert(r@ =~= v@);
    }
    r
}

fn place_from(
    allowed: &Vec<Vec<usize>>,
    faces: &Vec<usize>,
    k: usize,
    state: &mut Vec<Vec<usize>>,
    out: &mut Vec<Vec<Vec<usize>>>,
)
    requires
        k <= faces.len(),
    ensures
        final(state).deep_view() == old(state).deep_view(),
        final(out).deep_view() == old(out).deep_view() + solutions(
            allowed.deep_view(),
            faces@,
            k as int,
            old(state).deep_view(),
        ),
    decreases faces.len() - k,
{
    let ghost s0 = state.deep_view();
    let ghost out0 = out.deep_view();
    let ghost al = allowed.deep_view();
    if k == faces.len() {
        let snapshot = state.clone();
        proof {
            assert(snapshot.deep_view() =~= s0);
        }
        out.push(snapshot);
        proof {
            assert(out.deep_view() =~= out0 + seq![s0]);
        }
        return;
    }
    let f = faces[k];
    let mut i: usize = 0;
    while i < state.len()
        invariant
            k < faces.len(),
            f == faces@[k as int],
            al == allowed.deep_view(),
            state.deep_view() == s0,
            i <= s0.len(),
            out.deep_view() + slot_solutions(al, faces@, k as int, s0, i as int) == out0
                + slot_solutions(al, faces@, k as int, s0, 0),
        decreases s0.len() - i,
    {
        let ghost out_i = out.deep_view();
        if i < allowed.len() && crate::interval::contains(&allowed[i], f) {
            proof {
                assert(allowed.deep_view()[i as int] == allowed@[i as int]@);
            }
            let len = state[i].len();
            proof {
                lemma_rows(*state);
                assert(state.deep_view()[i as int] == state@[i as int]@);
            }
            let mut p: usize = 0;
            loop
                invariant_except_break
                    k < faces.len(),
                    f == faces@[k as int],
                    al == allowed.deep_view(),
                    state.deep_view() == s0,
                    i < s0.len(),
                    len == s0[i as int].len(),
                    p <= len,
                    out.deep_view() + position_solutions(al, faces@, k as int, s0, i as int, p as int)
                        == out_i + position_solutions(al, faces@, k as int, s0, i as int, 0),
                ensures
                    state.deep_view() == s0,
                    out.deep_view() == out_i + position_solutions(al, faces@, k as int, s0, i as int, 0),
                decreases len - p,
            {
                let ghost out_p = out.deep_view();
                proof {
                    lemma_rows(*state);
                }
                let mut slot = copy_slot(&state[i]);
                slot.insert(p, f);
                state.set(i, slot);
                proof {
                    lemma_rows(*state);
                    assert(state.deep_view() =~= placed(s0, i as int, p as int, f));
                }
                place_from(allowed, faces, k + 1, state, out);
                proof {
                    lemma_rows(*state);
                    assert(state.deep_view()[i as int] == state@[i as int]@);
                    assert(state@[i as int]@ == s0[i as int].insert(p as int, f));
                }
                let mut back = copy_slot(&state[i]);
                back.remove(p);
                let ghost mid = *state;
                state.set(i, back);
                proof {
                    lemma_rows(*state);
                    assert(s0[i as int].insert(p as int, f).remove(p as int) =~= s0[i as int]);
                    lemma_rows(mid);
                    assert forall|j: int| 0 <= j < s0.len() implies state.deep_view()[j] == s0[j] by {
                        assert(state.deep_view()[j] == state@[j]@);
                        if j != i {
                            assert(mid.deep_view()[j] == mid@[j]@);
                        }
                    }
                    assert(state.deep_view() =~= s0);
                    let a = out_p;
                    let b = solutions(al, faces@, k + 1, placed(s0, i as int, p as int, f));
                    let c = position_solutions(al, faces@, k as int, s0, i as int, p + 1);
                    assert(a + (b + c) =~= (a + b) + c);
                }
                if p == len {
                    proof {
                        assert(position_solutions(al, faces@, k as int, s0, i as int, p + 1) == Seq::<Seq<Seq<usize>>>::empty());
                        assert(out.deep_view() + seq![] =~= out.deep_view());
                    }
                    break;
                }
                p += 1;
            }
            proof {
                let a = out_i;
                let b = position_solutions(al, faces@, k as int, s0, i as int, 0);
                let c = slot_solutions(al, faces@, k as int, s0, i + 1);
                assert(a + (b + c) =~= (a + b) + c);
                assert(out.deep_view() + seq![] =~= out.deep_view());
            }
        } else {
            proof {
                if i < allowed.len() {
                    assert(allowed.deep_view()[i as int] == allowed@[i as int]@);
                }
            }
        }
        i += 1;
    }
    proof {
        assert(out.deep_view() + seq![] =~= out.deep_view());
    }
}

/// Every way to distribute `faces` over the slots of `allowed`, each face into
/// a slot that allows it and at any position among the faces placed there
/// before it; with no face to place, the one solution of empty slots.
pub fn gap_assignments_simple(allowed: &Vec<Vec<usize>>, faces: &Vec<usize>) -> (r: Vec<
    Vec<Vec<usize>>,
>)
    ensures
        r.deep_view() == solutions(
            allowed.deep_view(),
            faces@,
            0,
            empty_slots(allowed.len() as nat),
        ),
        forall|j: int|
            0 <= j < r.deep_view().len() ==> {
                let sol = #[trigger] r.deep_view()[j];
                &&& sol.len() == allowed.len()
                &&& respects(allowed.deep_view(), sol)
                &&& held(sol) == faces@.to_multiset()
            },
        faces@.no_duplicates() ==> r.deep_view().no_duplicates(),
        faces@.no_duplicates() ==> forall|sol: Seq<Seq<usize>>|
            r.deep_view().contains(sol) <==> #[trigger] crate::distribute::is_distribution(
                allowed.deep_view(),
                faces@,
                sol,
            ),
{
    proof {
        if faces@.no_duplicates() {
            assert forall|sol: Seq<Seq<usize>>|
                solutions(allowed.deep_view(), faces@, 0, empty_slots(allowed.len() as nat)).contains(sol)
                    <==> #[trigger] crate::distribute::is_distribution(allowed.deep_view(), faces@, sol) by {
                assert(allowed.deep_view().len() == allowed.len());
                crate::distribute::lemma_gap_assignments_exact(allowed.deep_view(), faces@, sol);
            }
            crate::distribute::lemma_gap_assignments_exact(allowed.deep_view(), faces@, seq![]);
        }
        let al = allowed.deep_view();
        let e = empty_slots(allowed.len() as nat);
        lemma_solutions_keep_slots(al, faces@, 0, e);
        lemma_solutions_place_all(al, faces@, 0, e);
        lemma_held_empty(allowed.len() as nat);
        assert(respects(al, e));
        assert(faces@.subrange(0, faces@.len() as int) =~= faces@);
        assert(Multiset::<usize>::empty().add(faces@.to_multiset()) =~= faces@.to_multiset());
    }
    let mut state: Vec<Vec<usize>> = Vec::new();
    let mut i: usize = 0;
    while i < allowed.len()
        invariant
            i <= allowed.len(),
            state.deep_view() == empty_slots(i as nat),
        decreases allowed.len() - i,
    {
        let ghost old_state = state;
        state.push(Vec::new());
        proof {
            lemma_rows(state);
            lemma_rows(old_state);
            assert forall|j: int| 0 <= j <= i implies state.deep_view()[j] == empty_slots((i + 1) as nat)[j] by {
                assert(state.deep_view()[j] == state@[j]@);
                if j < i {
                    assert(state@[j] == old_state@[j]);
                    assert(old_state.deep_view()[j] == old_state@[j]@);
                    assert(old_state.deep_view()[j] == empty_slots(i as nat)[j]);
                }
                assert(empty_slots((i + 1) as nat)[j] == Seq::<usize>::empty());
            }
            assert(state.deep_view() =~= empty_slots((i + 1) as nat));
        }
        i += 1;
    }
    let mut out: Vec<Vec<Vec<usize>>> = Vec::new();
    place_from(allowed, faces, 0, &mut state, &mut out);
    proof {
        assert(out.deep_view() =~= Seq::<Seq<Seq<usize>>>::empty() + solutions(
            allowed.deep_view(),
            faces@,
            0,
            empty_slots(allowed.len() as nat),
        ));
    }
    out
}

} // verus!
