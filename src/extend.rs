//! Extending one layer of a strip to every admissible layer one rank above.

use vstd::prelude::*;
use crate::gaps::{empty_slots, gap_assignments_simple, lemma_rows, lemma_solutions_keep_slots, solutions};
use crate::interval::{collapse, duplicates_removed, interval_ok, layer_ok, remove_used, without};
use crate::lattice::Lattice;

verus! {

/// The number of bridges of a layer of length `n`: one after each position,
/// the last one only when the layer closes up.
pub open spec fn bridge_count(n: int, cyclic: bool) -> int {
    if cyclic {
        n
    } else {
        n - 1
    }
}

/// The table entry for position `i` of `layer` and the position after it.
pub open spec fn bridge_pos(l: &Lattice, layer: Seq<usize>, i: int) -> Option<usize> {
    l.bridge_at(layer[i] as int, layer[(i + 1) % (layer.len() as int)] as int)
}

/// Every bridge position of `layer` has a bridge.
pub open spec fn all_bridged(l: &Lattice, layer: Seq<usize>, cyclic: bool) -> bool {
    forall|i: int| 0 <= i < bridge_count(layer.len() as int, cyclic) ==> #[trigger] bridge_pos(l, layer, i) is Some
}

/// The bridges of `layer`, one per bridge position.
pub open spec fn bridge_seq(l: &Lattice, layer: Seq<usize>, cyclic: bool) -> Seq<usize> {
    Seq::new(
        bridge_count(layer.len() as int, cyclic) as nat,
        |i: int|
            match bridge_pos(l, layer, i) {
                Some(g) => g,
                None => 0,
            },
    )
}

/// The gap of each position of `layer`: its upset less the bridges `b`.
pub open spec fn gaps_of(l: &Lattice, layer: Seq<usize>, b: Seq<usize>) -> Seq<Seq<usize>> {
    Seq::new(layer.len(), |i: int| without(l.upset_of(layer[i] as int), b))
}

/// The faces one rank above `layer` that are no bridge in `b`.
pub open spec fn faces_left_of(l: &Lattice, layer: Seq<usize>, b: Seq<usize>) -> Seq<usize> {
    without(l.level(l.faces@[layer[0] as int].dim + 1), b)
}

/// Gap `0`, bridge `0`, gap `1`, bridge `1`, ..., up to bridge `k - 1`.
pub open spec fn interleave(b: Seq<usize>, g: Seq<Seq<usize>>, k: int) -> Seq<usize>
    decreases k,
{
    if k <= 0 {
        seq![]
    } else {
        interleave(b, g, k - 1) + g[k - 1] + seq![b[k - 1]]
    }
}

/// The gaps `g` and the bridges `b` in position order, with the gap after the
/// last bridge at the end when there is one.
pub open spec fn combine(b: Seq<usize>, g: Seq<Seq<usize>>) -> Seq<usize> {
    interleave(b, g, b.len() as int) + if g.len() > b.len() {
        g[b.len() as int]
    } else {
        seq![]
    }
}

/// The layer that a gap assignment gives: gaps and bridges joined, with
/// repetitions collapsed.
pub open spec fn candidate(b: Seq<usize>, cyclic: bool) -> spec_fn(Seq<Seq<usize>>) -> Seq<usize> {
    |a: Seq<Seq<usize>>| collapse(combine(b, a), cyclic)
}

/// The test that a candidate layer passes: the interval property.
pub open spec fn keeps(cyclic: bool) -> spec_fn(Seq<usize>) -> bool {
    |c: Seq<usize>| interval_ok(c, cyclic)
}

/// The layers one rank above `layer`: for every distribution of the faces
/// left into the gaps, the gaps and the bridges joined, with repetitions
/// collapsed, kept when it has the interval property. No layer where a
/// position lacks a bridge or the bridges fail the interval property.
pub open spec fn next_layers_of(l: &Lattice, layer: Seq<usize>, cyclic: bool) -> Seq<Seq<usize>> {
    if layer.len() == 0 || layer[0] >= l.size() || !all_bridged(l, layer, cyclic) || !interval_ok(
        bridge_seq(l, layer, cyclic),
        cyclic,
    ) {
        seq![]
    } else {
        let b = bridge_seq(l, layer, cyclic);
        let sols = solutions(
            gaps_of(l, layer, b),
            faces_left_of(l, layer, b),
            0,
            empty_slots(layer.len()),
        );
        sols.map_values(candidate(b, cyclic)).filter(keeps(cyclic))
    }
}

/// Every layer that `next_layers_of` gives has the interval property, read
/// in the same mode.
pub proof fn lemma_next_layers_interval(l: &Lattice, layer: Seq<usize>, cyclic: bool)
    ensures
        forall|k: int|
            0 <= k < next_layers_of(l, layer, cyclic).len() ==> interval_ok(
                #[trigger] next_layers_of(l, layer, cyclic)[k],
                cyclic,
            ),
{
    let r = next_layers_of(l, layer, cyclic);
    assert forall|k: int| 0 <= k < r.len() implies interval_ok(#[trigger] r[k], cyclic) by {
        if !(layer.len() == 0 || layer[0] >= l.size() || !all_bridged(l, layer, cyclic) || !interval_ok(
            bridge_seq(l, layer, cyclic),
            cyclic,
        )) {
            let b = bridge_seq(l, layer, cyclic);
            let sols = solutions(
                gaps_of(l, layer, b),
                faces_left_of(l, layer, b),
                0,
                empty_slots(layer.len()),
            );
            sols.map_values(candidate(b, cyclic)).lemma_filter_pred(keeps(cyclic), k);
        }
    }
}

fn bridge_lookup(l: &Lattice, a: usize, b: usize) -> (r: Option<usize>)
    ensures
        r == l.bridge_at(a as int, b as int),
{
    if a < l.bridges.len() && b < l.bridges[a].len() {
        l.bridges[a][b]
    } else {
        None
    }
}

fn push_all(r: &mut Vec<usize>, s: &Vec<usize>)
    ensures
        final(r)@ == old(r)@ + s@,
{
    let mut j: usize = 0;
    while j < s.len()
        invariant
            j <= s.len(),
            r@ == old(r)@ + s@.subrange(0, j as int),
        decreases s.len() - j,
    {
        r.push(s[j]);
        proof {
            assert(old(r)@ + s@.subrange(0, j + 1) =~= old(r)@ + s@.subrange(0, j as int) + seq![s@[j as int]]);
        }
        j += 1;
    }
    proof {
        assert(s@.subrange(0, s@.len() as int) =~= s@);
    }
}

/// The gaps and the bridges joined in position order.
fn combine_to_layer(bridges: &Vec<usize>, gaps: &Vec<Vec<usize>>) -> (r: Vec<usize>)
    requires
        bridges.len() <= gaps.len(),
    ensures
        r@ == combine(bridges@, gaps.deep_view()),
{
    let ghost g = gaps.deep_view();
    proof {
        lemma_rows(*gaps);
    }
    let mut r: Vec<usize> = Vec::new();
    let mut i: usize = 0;
    while i < bridges.len()
        invariant
            i <= bridges.len(),
            bridges.len() <= gaps.len(),
            g == gaps.deep_view(),
            g.len() == gaps@.len(),
            forall|j: int| 0 <= j < gaps@.len() ==> #[trigger] g[j] == gaps@[j]@,
            r@ == interleave(bridges@, g, i as int),
        decreases bridges.len() - i,
    {
        push_all(&mut r, &gaps[i]);
        r.push(bridges[i]);
        proof {
            assert(g[i as int] == gaps@[i as int]@);
        }
        i += 1;
    }
    if gaps.len() > bridges.len() {
        push_all(&mut r, &gaps[bridges.len()]);
        proof {
            assert(g[bridges.len() as int] == gaps@[bridges.len() as int]@);
        }
    } else {
        proof {
            assert(r@ + seq![] =~= r@);
        }
    }
    r
}

/// Every layer one rank above `last_layer`, read cyclically when `cyclic`,
/// in the order of the gap assignments that give them. Equal layers that
/// two assignments give are both kept: counts of strips count assignments.
pub fn next_layers(last_layer: &Vec<usize>, l: &Lattice, cyclic: bool) -> (r: Vec<Vec<usize>>)
    ensures
        r.deep_view() == next_layers_of(l, last_layer@, cyclic),
        forall|k: int| 0 <= k < r.deep_view().len() ==> interval_ok(#[trigger] r.deep_view()[k], cyclic),
{
    proof {
        lemma_next_layers_interval(l, last_layer@, cyclic);
    }
    let ghost layer = last_layer@;
    let n = last_layer.len();
    if n == 0 || last_layer[0] >= l.faces.len() {
        return empty_layers();
    }
    let nb = if cyclic {
        n
    } else {
        n - 1
    };
    let mut bridges: Vec<usize> = Vec::new();
    let mut i: usize = 0;
    while i < nb
        invariant
            n == layer.len(),
            layer == last_layer@,
            n > 0,
            nb == bridge_count(n as int, cyclic),
            i <= nb,
            bridges@.len() == i,
            forall|j: int| 0 <= j < i ==> #[trigger] bridge_pos(l, layer, j) == Some(bridges@[j]),
        decreases nb - i,
    {
        let next = if i + 1 < n {
            i + 1
        } else {
            0
        };
        proof {
            if i + 1 < n {
                vstd::arithmetic::div_mod::lemma_small_mod((i + 1) as nat, n as nat);
            } else {
                assert((n as int) % (n as int) == 0) by (nonlinear_arith)
                    requires
                        n > 0,
                ;
            }
        }
        match bridge_lookup(l, last_layer[i], last_layer[next]) {
            Some(g) => {
                bridges.push(g);
            },
            None => {
                proof {
                    assert(bridge_pos(l, layer, i as int) is None);
                    assert(!all_bridged(l, layer, cyclic));
                }
                return empty_layers();
            },
        }
        i += 1;
    }
    proof {
        assert(all_bridged(l, layer, cyclic));
        assert(bridges@ =~= bridge_seq(l, layer, cyclic));
    }
    if !layer_ok(&bridges, cyclic) {
        return empty_layers();
    }
    let ghost b = bridges@;
    let dim = l.faces[last_layer[0]].dim;
    let faces_left = if dim < l.levels.len() && dim + 1 < l.levels.len() {
        remove_used(&l.levels[dim + 1], &bridges)
    } else {
        proof {
            assert(without(seq![], b) =~= seq![]) by {
                reveal(Seq::filter);
            }
        }
        Vec::new()
    };
    let mut gaps: Vec<Vec<usize>> = Vec::new();
    let mut i: usize = 0;
    while i < n
        invariant
            n == layer.len(),
            layer == last_layer@,
            b == bridges@,
            i <= n,
            gaps@.len() == i,
            forall|j: int| 0 <= j < i ==> #[trigger] gaps@[j]@ == gaps_of(l, layer, b)[j],
        decreases n - i,
    {
        let x = last_layer[i];
        let gap = if x < l.faces.len() {
            remove_used(&l.faces[x].upset, &bridges)
        } else {
            proof {
                assert(without(seq![], b) =~= seq![]) by {
                    reveal(Seq::filter);
                }
            }
            Vec::new()
        };
        gaps.push(gap);
        i += 1;
    }
    proof {
        lemma_rows(gaps);
        assert(gaps.deep_view() =~= gaps_of(l, layer, b));
    }
    let sols = gap_assignments_simple(&gaps, &faces_left);
    let ghost ss = sols.deep_view();
    let ghost f = candidate(b, cyclic);
    let ghost ok = keeps(cyclic);
    proof {
        lemma_solutions_keep_slots(gaps_of(l, layer, b), faces_left@, 0, empty_slots(n as nat));
        lemma_rows_nested(sols);
    }
    let mut r: Vec<Vec<usize>> = Vec::new();
    let mut j: usize = 0;
    while j < sols.len()
        invariant
            b == bridges@,
            b.len() <= n,
            f == candidate(b, cyclic),
            ok == keeps(cyclic),
            ss == sols.deep_view(),
            ss.len() == sols@.len(),
            forall|k: int| 0 <= k < sols@.len() ==> #[trigger] ss[k] == sols@[k].deep_view(),
            forall|k: int| 0 <= k < ss.len() ==> (#[trigger] ss[k]).len() == n,
            j <= sols.len(),
            r.deep_view() == ss.subrange(0, j as int).map_values(f).filter(ok),
        decreases sols.len() - j,
    {
        proof {
            assert(ss[j as int] == sols@[j as int].deep_view());
            lemma_rows(sols@[j as int]);
        }
        let joined = combine_to_layer(&bridges, &sols[j]);
        let cand = duplicates_removed(&joined, cyclic);
        proof {
            assert(f(ss[j as int]) == cand@);
            assert(ss.subrange(0, j + 1).map_values(f) =~= ss.subrange(0, j as int).map_values(f).push(
                f(ss[j as int]),
            ));
            ss.subrange(0, j as int).map_values(f).lemma_filter_push(f(ss[j as int]), ok);
            lemma_rows(r);
        }
        let keep = layer_ok(&cand, cyclic);
        proof {
            assert(ok(cand@) == keep);
        }
        if keep {
            let ghost r0 = r;
            r.push(cand);
            proof {
                lemma_rows(r);
                lemma_rows(r0);
                assert(r.deep_view() =~= r0.deep_view().push(cand@));
            }
        }
        j += 1;
    }
    proof {
        assert(ss.subrange(0, ss.len() as int) =~= ss);
    }
    r
}

fn empty_layers() -> (r: Vec<Vec<usize>>)
    ensures
        r.deep_view() == Seq::<Seq<usize>>::empty(),
{
    let r: Vec<Vec<usize>> = Vec::new();
    proof {
        assert(r.deep_view() =~= Seq::<Seq<usize>>::empty());
    }
    r
}

proof fn lemma_rows_nested(v: Vec<Vec<Vec<usize>>>)
    ensures
        v.deep_view().len() == v@.len(),
        forall|j: int| 0 <= j < v@.len() ==> #[trigger] v.deep_view()[j] == v@[j].deep_view(),
{
}

/// The layers one rank above `last_layer`, read linearly.
pub fn next_layers_simple_non_cyclic(last_layer: &Vec<usize>, l: &Lattice) -> (r: Vec<Vec<usize>>)
    ensures
        r.deep_view() == next_layers_of(l, last_layer@, false),
{
    next_layers(last_layer, l, false)
}

/// The layers one rank above `last_layer`, read cyclically.
pub fn next_layers_simple(last_layer: &Vec<usize>, l: &Lattice) -> (r: Vec<Vec<usize>>)
    ensures
        r.deep_view() == next_layers_of(l, last_layer@, true),
{
    next_layers(last_layer, l, true)
}

} // verus!
