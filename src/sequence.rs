//! Reading a strip as a sequence of moves: which layer advances, one face at
//! a time, while the faces in view stay linked across neighbouring ranks.

use vstd::prelude::*;
use crate::interval::contains;
use crate::lattice::Lattice;

verus! {

/// The face of layer `i` at position `p`, counted around the layer.
pub open spec fn face_at(layers: Seq<Seq<usize>>, i: int, p: int) -> usize {
    layers[i][p % (layers[i].len() as int)]
}

/// Layer `i` may advance: it has not reached its end, and its next face is
/// covered by the face in view one layer up and covers the face in view one
/// layer down, where those layers exist.
pub open spec fn may_advance(l: &Lattice, layers: Seq<Seq<usize>>, ptrs: Seq<usize>, i: int) -> bool {
    let f = face_at(layers, i, ptrs[i] + 1) as int;
    &&& ptrs[i] != layers[i].len()
    &&& i + 1 < layers.len() ==> l.upset_of(f).contains(face_at(layers, i + 1, ptrs[i + 1] as int))
    &&& i > 0 ==> l.downset_of(f).contains(face_at(layers, i - 1, ptrs[i - 1] as int))
}

/// The first layer from `i` on that may advance.
pub open spec fn first_mover(l: &Lattice, layers: Seq<Seq<usize>>, ptrs: Seq<usize>, i: int) -> Option<int>
    decreases layers.len() - i,
{
    if i < 0 || i >= layers.len() {
        None
    } else if may_advance(l, layers, ptrs, i) {
        Some(i)
    } else {
        first_mover(l, layers, ptrs, i + 1)
    }
}

/// A layer that `first_mover` names may advance.
proof fn lemma_first_mover(l: &Lattice, layers: Seq<Seq<usize>>, ptrs: Seq<usize>, i: int, k: int)
    requires
        first_mover(l, layers, ptrs, i) == Some(k),
    ensures
        0 <= k < layers.len(),
        may_advance(l, layers, ptrs, k),
    decreases layers.len() - i,
{
    if !(i < 0 || i >= layers.len()) && !may_advance(l, layers, ptrs, i) {
        lemma_first_mover(l, layers, ptrs, i + 1, k);
    }
}

/// Every layer at its first position.
pub open spec fn start_positions(n: nat) -> Seq<usize> {
    Seq::new(n, |i: int| 0usize)
}

/// The moves from the positions `ptrs`, each time the first layer that may
/// advance, for at most `fuel` moves.
pub open spec fn moves(l: &Lattice, layers: Seq<Seq<usize>>, ptrs: Seq<usize>, fuel: nat) -> Seq<usize>
    decreases fuel,
{
    if fuel == 0 {
        seq![]
    } else {
        match first_mover(l, layers, ptrs, 0) {
            None => seq![],
            Some(i) => seq![i as usize] + moves(l, layers, ptrs.update(i, (ptrs[i] + 1) as usize), (fuel - 1) as nat),
        }
    }
}

/// The steps left to the first `k` layers from the positions `ptrs`.
pub open spec fn steps_left(layers: Seq<Seq<usize>>, ptrs: Seq<usize>, k: int) -> int
    decreases k,
{
    if k <= 0 {
        0
    } else {
        steps_left(layers, ptrs, k - 1) + layers[k - 1].len() - ptrs[k - 1]
    }
}

proof fn lemma_steps_left_update(layers: Seq<Seq<usize>>, ptrs: Seq<usize>, j: int, k: int)
    requires
        0 <= j < ptrs.len(),
        k <= ptrs.len(),
        ptrs[j] + 1 <= usize::MAX,
    ensures
        steps_left(layers, ptrs.update(j, (ptrs[j] + 1) as usize), k) == steps_left(layers, ptrs, k) - if j < k {
            1int
        } else {
            0int
        },
    decreases k,
{
    if k > 0 {
        lemma_steps_left_update(layers, ptrs, j, k - 1);
        let q = ptrs.update(j, (ptrs[j] + 1) as usize);
        if k - 1 == j {
            assert(q[k - 1] == ptrs[j] + 1);
        } else {
            assert(q[k - 1] == ptrs[k - 1]);
        }
    }
}

proof fn lemma_steps_left_nonneg(layers: Seq<Seq<usize>>, ptrs: Seq<usize>, k: int)
    requires
        k <= ptrs.len(),
        k <= layers.len(),
        forall|i: int| 0 <= i < k ==> #[trigger] ptrs[i] <= layers[i].len(),
    ensures
        steps_left(layers, ptrs, k) >= 0,
        forall|i: int| 0 <= i < k ==> steps_left(layers, ptrs, k) >= layers[i].len() - #[trigger] ptrs[i],
    decreases k,
{
    if k > 0 {
        lemma_steps_left_nonneg(layers, ptrs, k - 1);
    }
}

fn face_of(layer: &Vec<usize>, p: usize) -> (f: usize)
    requires
        layer.len() > 0,
    ensures
        f == layer@[(p as int) % (layer@.len() as int)],
{
    layer[p % layer.len()]
}

fn advance_ok(l: &Lattice, layers: &Vec<Vec<usize>>, ptrs: &Vec<usize>, i: usize) -> (r: bool)
    requires
        i < layers.len(),
        ptrs.len() == layers.len(),
        forall|j: int| 0 <= j < layers@.len() ==> #[trigger] layers@[j]@.len() > 0,
        forall|j: int| 0 <= j < layers@.len() ==> #[trigger] ptrs@[j] <= layers@[j]@.len(),
    ensures
        r == may_advance(l, layers.deep_view(), ptrs@, i as int),
{
    proof {
        crate::gaps::lemma_rows(*layers);
        assert(layers.deep_view()[i as int] == layers@[i as int]@);
    }
    let p = ptrs[i];
    if p == layers[i].len() {
        return false;
    }
    let f = face_of(&layers[i], p + 1);
    if i + 1 < layers.len() {
        proof {
            assert(layers.deep_view()[i + 1] == layers@[i + 1]@);
        }
        let above = face_of(&layers[i + 1], ptrs[i + 1]);
        if f >= l.faces.len() || !contains(&l.faces[f].upset, above) {
            return false;
        }
    }
    if i > 0 {
        proof {
            assert(layers.deep_view()[i - 1] == layers@[i - 1]@);
        }
        let below = face_of(&layers[i - 1], ptrs[i - 1]);
        if f >= l.faces.len() || !contains(&l.faces[f].downset, below) {
            return false;
        }
    }
    true
}

/// The moves that read the strip `layers`: from the first position of every
/// layer, the first layer that may advance moves on by one face, until no
/// layer may.
pub fn layers_to_sequence(layers: &Vec<Vec<usize>>, l: &Lattice) -> (seq: Vec<usize>)
    requires
        forall|j: int| 0 <= j < layers@.len() ==> #[trigger] layers@[j]@.len() > 0,
    ensures
        seq@ == moves(
            l,
            layers.deep_view(),
            start_positions(layers@.len()),
            steps_left(layers.deep_view(), start_positions(layers@.len()), layers@.len() as int) as nat,
        ),
{
    let ghost ls = layers.deep_view();
    let ghost n = layers@.len() as int;
    proof {
        crate::gaps::lemma_rows(*layers);
    }
    let mut pointers: Vec<usize> = Vec::new();
    while pointers.len() < layers.len()
        invariant
            pointers@.len() <= layers@.len(),
            forall|j: int| 0 <= j < pointers@.len() ==> #[trigger] pointers@[j] == 0,
        decreases layers.len() - pointers.len(),
    {
        pointers.push(0);
    }
    let ghost zeros = start_positions(layers@.len());
    proof {
        assert(pointers@ =~= zeros);
        assert forall|j: int| 0 <= j < n implies #[trigger] pointers@[j] <= ls[j].len() by {}
        lemma_steps_left_nonneg(ls, pointers@, n);
    }
    let ghost total = steps_left(ls, zeros, n) as nat;
    let mut seq: Vec<usize> = Vec::new();
    loop
        invariant
            ls == layers.deep_view(),
            n == layers@.len(),
            ls.len() == n,
            forall|j: int| 0 <= j < n ==> #[trigger] ls[j] == layers@[j]@,
            forall|j: int| 0 <= j < n ==> #[trigger] layers@[j]@.len() > 0,
            pointers@.len() == n,
            forall|j: int| 0 <= j < n ==> #[trigger] pointers@[j] <= layers@[j]@.len(),
            steps_left(ls, pointers@, n) >= 0,
            zeros == start_positions(n as nat),
            total == steps_left(ls, zeros, n) as nat,
            seq@ + moves(l, ls, pointers@, steps_left(ls, pointers@, n) as nat) == moves(l, ls, zeros, total),
        decreases steps_left(ls, pointers@, n),
    {
        let mut i: usize = 0;
        let mut mover: Option<usize> = None;
        while i < layers.len()
            invariant_except_break
                ls == layers.deep_view(),
                n == layers@.len(),
                pointers@.len() == n,
                forall|j: int| 0 <= j < n ==> #[trigger] layers@[j]@.len() > 0,
                forall|j: int| 0 <= j < n ==> #[trigger] pointers@[j] <= layers@[j]@.len(),
                i <= n,
                mover is None,
                first_mover(l, ls, pointers@, 0) == first_mover(l, ls, pointers@, i as int),
            ensures
                match mover {
                    None => first_mover(l, ls, pointers@, 0) is None,
                    Some(k) => k < n && first_mover(l, ls, pointers@, 0) == Some(k as int),
                },
            decreases layers.len() - i,
        {
            if advance_ok(l, layers, &pointers, i) {
                mover = Some(i);
                break;
            }
            i += 1;
        }
        proof {
            lemma_steps_left_nonneg(ls, pointers@, n);
        }
        match mover {
            None => {
                proof {
                    let rest = steps_left(ls, pointers@, n);
                    if rest > 0 {
                        assert(moves(l, ls, pointers@, rest as nat) == Seq::<usize>::empty());
                    }
                    assert(seq@ + seq![] =~= seq@);
                }
                return seq;
            },
            Some(k) => {
                let ghost before = pointers@;
                let p = pointers[k];
                let len_k = layers[k].len();
                proof {
                    lemma_first_mover(l, ls, before, 0, k as int);
                    assert(ls[k as int] == layers@[k as int]@);
                    assert(p < len_k);
                    lemma_steps_left_update(ls, before, k as int, n);
                }
                pointers.set(k, p + 1);
                seq.push(k);
                proof {
                    let rest = steps_left(ls, before, n);
                    assert(rest >= 1);
                    assert(pointers@ == before.update(k as int, (before[k as int] + 1) as usize));
                    assert(moves(l, ls, before, rest as nat) == seq![k] + moves(l, ls, pointers@, (rest - 1) as nat));
                    assert forall|j: int| 0 <= j < n implies #[trigger] pointers@[j] <= layers@[j]@.len() by {
                        if j != k {
                            assert(pointers@[j] == before[j]);
                        }
                    }
                    assert(seq@ + moves(l, ls, pointers@, (rest - 1) as nat) =~= seq@.drop_last() + (seq![k]
                        + moves(l, ls, pointers@, (rest - 1) as nat)));
                }
            },
        }
    }
}

} // verus!
