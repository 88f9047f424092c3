//! The strip search: growing a strip layer by layer up to the top rank, as
//! an existence check, a full enumeration, or a search for the first strip.

use vstd::prelude::*;
use crate::extend::{all_bridged, bridge_pos, bridge_seq, faces_left_of, gaps_of, next_layers, next_layers_of};
use crate::lattice::Lattice;

verus! {

/// The complete strips that extend `strip` until its last layer has rank
/// `max_dim` (a strip of `r + 1` layers ends at rank `r`); siblings come in
/// the order of the layers that `next_layers_of` gives.
pub open spec fn strips_from(l: &Lattice, strip: Seq<Seq<usize>>, max_dim: int, cyclic: bool) -> Seq<
    Seq<Seq<usize>>,
>
    decreases max_dim - strip.len() + 1, 1int, 0int,
{
    if strip.len() == 0 {
        seq![]
    } else if strip.len() - 1 >= max_dim {
        seq![strip]
    } else {
        let cands = next_layers_of(l, strip.last(), cyclic);
        extensions(l, strip, cands, max_dim, cyclic, cands.len() as int)
    }
}

/// The complete strips that extend `strip` by one of the first `m` layers of
/// `cands`, in that order.
pub open spec fn extensions(
    l: &Lattice,
    strip: Seq<Seq<usize>>,
    cands: Seq<Seq<usize>>,
    max_dim: int,
    cyclic: bool,
    m: int,
) -> Seq<Seq<Seq<usize>>>
    decreases max_dim - strip.len() + 1, 0int, m,
{
    if m <= 0 || m > cands.len() || strip.len() == 0 || strip.len() - 1 >= max_dim {
        seq![]
    } else {
        extensions(l, strip, cands, max_dim, cyclic, m - 1) + strips_from(
            l,
            strip.push(cands[m - 1]),
            max_dim,
            cyclic,
        )
    }
}

/// Some strip grows from `layer`, of rank `rank`, up to rank `max_dim`.
pub open spec fn strip_exists(l: &Lattice, layer: Seq<usize>, rank: int, max_dim: int, cyclic: bool) -> bool
    decreases max_dim - rank, 1int, 0int,
{
    if rank >= max_dim {
        true
    } else {
        let cands = next_layers_of(l, layer, cyclic);
        any_grows(l, cands, rank + 1, max_dim, cyclic, cands.len() as int)
    }
}

/// Some strip grows from one of the first `m` layers of `cands`, of rank
/// `rank`, up to rank `max_dim`.
pub open spec fn any_grows(
    l: &Lattice,
    cands: Seq<Seq<usize>>,
    rank: int,
    max_dim: int,
    cyclic: bool,
    m: int,
) -> bool
    decreases max_dim - rank + 1, 0int, m,
{
    if m <= 0 || m > cands.len() || rank > max_dim {
        false
    } else {
        any_grows(l, cands, rank, max_dim, cyclic, m - 1) || strip_exists(l, cands[m - 1], rank, max_dim, cyclic)
    }
}

/// Once one of the first `j` layers grows a strip, so does one of the first
/// `m`, for `j <= m`.
proof fn lemma_any_grows_monotone(
    l: &Lattice,
    cands: Seq<Seq<usize>>,
    rank: int,
    max_dim: int,
    cyclic: bool,
    j: int,
    m: int,
)
    requires
        j <= m <= cands.len(),
        any_grows(l, cands, rank, max_dim, cyclic, j),
    ensures
        any_grows(l, cands, rank, max_dim, cyclic, m),
    decreases m - j,
{
    if j < m {
        lemma_any_grows_monotone(l, cands, rank, max_dim, cyclic, j, m - 1);
    }
}

proof fn lemma_exists_iff_strips(l: &Lattice, strip: Seq<Seq<usize>>, max_dim: int, cyclic: bool)
    requires
        strip.len() > 0,
    ensures
        strip_exists(l, strip.last(), strip.len() - 1, max_dim, cyclic) == (strips_from(
            l,
            strip,
            max_dim,
            cyclic,
        ).len() > 0),
    decreases max_dim - strip.len() + 1, 1int, 0int,
{
    if strip.len() - 1 < max_dim {
        let cands = next_layers_of(l, strip.last(), cyclic);
        lemma_any_iff_extensions(l, strip, cands, max_dim, cyclic, cands.len() as int);
    }
}

proof fn lemma_any_iff_extensions(
    l: &Lattice,
    strip: Seq<Seq<usize>>,
    cands: Seq<Seq<usize>>,
    max_dim: int,
    cyclic: bool,
    m: int,
)
    requires
        strip.len() > 0,
        strip.len() - 1 < max_dim,
        0 <= m <= cands.len(),
    ensures
        any_grows(l, cands, strip.len() as int, max_dim, cyclic, m) == (extensions(
            l,
            strip,
            cands,
            max_dim,
            cyclic,
            m,
        ).len() > 0),
    decreases max_dim - strip.len() + 1, 0int, m,
{
    if m > 0 {
        lemma_any_iff_extensions(l, strip, cands, max_dim, cyclic, m - 1);
        let longer = strip.push(cands[m - 1]);
        lemma_exists_iff_strips(l, longer, max_dim, cyclic);
        assert(longer.last() == cands[m - 1]);
        assert(longer.len() - 1 == strip.len());
    }
}

/// A strip grows from `seed` at rank 0 exactly when the enumeration from
/// the one-layer strip `[seed]` finds at least one.
pub proof fn lemma_exists_iff_enumerated(l: &Lattice, seed: Seq<usize>, max_dim: int, cyclic: bool)
    ensures
        strip_exists(l, seed, 0, max_dim, cyclic) == (strips_from(l, seq![seed], max_dim, cyclic).len()
            > 0),
{
    lemma_exists_iff_strips(l, seq![seed], max_dim, cyclic);
    assert(seq![seed].last() == seed);
}

/// Whether a strip grows from `current_layer`, of rank `current_dim`, up to
/// rank `max_dim`; stops at the first branch that succeeds.
pub fn rhombic_strip_exists(
    current_layer: &Vec<usize>,
    current_dim: usize,
    l: &Lattice,
    max_dim: usize,
    cyclic: bool,
) -> (r: bool)
    ensures
        r == strip_exists(l, current_layer@, current_dim as int, max_dim as int, cyclic),
    decreases max_dim - current_dim,
{
    if current_dim >= max_dim {
        return true;
    }
    let cands = next_layers(current_layer, l, cyclic);
    let ghost cs = next_layers_of(l, current_layer@, cyclic);
    proof {
        crate::gaps::lemma_rows(cands);
    }
    let mut j: usize = 0;
    while j < cands.len()
        invariant
            current_dim < max_dim,
            cs == next_layers_of(l, current_layer@, cyclic),
            cs == cands.deep_view(),
            cs.len() == cands@.len(),
            forall|k: int| 0 <= k < cands@.len() ==> #[trigger] cs[k] == cands@[k]@,
            j <= cands.len(),
            !any_grows(l, cs, current_dim + 1, max_dim as int, cyclic, j as int),
        decreases cands.len() - j,
    {
        proof {
            assert(cs[j as int] == cands@[j as int]@);
        }
        if rhombic_strip_exists(&cands[j], current_dim + 1, l, max_dim, cyclic) {
            proof {
                let rank = current_dim as int;
                lemma_any_grows_monotone(l, cs, rank + 1, max_dim as int, cyclic, j + 1, cs.len() as int);
            }
            return true;
        }
        j += 1;
    }
    false
}

/// Every complete strip that extends `strip` up to rank `max_dim`.
pub fn rhombic_strips_dfs_simple(strip: Vec<Vec<usize>>, l: &Lattice, max_dim: usize, cyclic: bool) -> (r: Vec<
    Vec<Vec<usize>>,
>)
    ensures
        r.deep_view() == strips_from(l, strip.deep_view(), max_dim as int, cyclic),
    decreases max_dim - strip.len() + 1,
{
    let ghost s = strip.deep_view();
    proof {
        crate::gaps::lemma_rows(strip);
    }
    if strip.len() == 0 {
        let r: Vec<Vec<Vec<usize>>> = Vec::new();
        proof {
            assert(r.deep_view() =~= Seq::<Seq<Seq<usize>>>::empty());
        }
        return r;
    }
    if strip.len() - 1 >= max_dim {
        let mut r: Vec<Vec<Vec<usize>>> = Vec::new();
        r.push(strip);
        proof {
            assert(r.deep_view() =~= seq![s]);
        }
        return r;
    }
    let cands = next_layers(&strip[strip.len() - 1], l, cyclic);
    let ghost cs = next_layers_of(l, s.last(), cyclic);
    proof {
        assert(s.last() == strip@[strip.len() - 1]@);
        crate::gaps::lemma_rows(cands);
    }
    let mut out: Vec<Vec<Vec<usize>>> = Vec::new();
    let mut j: usize = 0;
    while j < cands.len()
        invariant
            0 < strip.len() <= max_dim,
            s == strip.deep_view(),
            cs == next_layers_of(l, s.last(), cyclic),
            cs == cands.deep_view(),
            cs.len() == cands@.len(),
            forall|k: int| 0 <= k < cands@.len() ==> #[trigger] cs[k] == cands@[k]@,
            j <= cands.len(),
            out.deep_view() == extensions(l, s, cs, max_dim as int, cyclic, j as int),
        decreases cands.len() - j,
    {
        let mut longer = strip.clone();
        longer.push(cands[j].clone());
        proof {
            assert(cs[j as int] == cands@[j as int]@);
            crate::gaps::lemma_rows(longer);
            assert(longer.deep_view() =~= s.push(cs[j as int]));
        }
        let mut more = rhombic_strips_dfs_simple(longer, l, max_dim, cyclic);
        let ghost out0 = out.deep_view();
        out.append(&mut more);
        proof {
            assert(out.deep_view() =~= out0 + strips_from(l, s.push(cs[j as int]), max_dim as int, cyclic));
        }
        j += 1;
    }
    out
}

/// The strips from the first `j` candidates come first among those from the
/// first `m`, for `j <= m`.
proof fn lemma_extensions_prefix(
    l: &Lattice,
    strip: Seq<Seq<usize>>,
    cands: Seq<Seq<usize>>,
    max_dim: int,
    cyclic: bool,
    j: int,
    m: int,
)
    requires
        0 <= j <= m <= cands.len(),
    ensures
        extensions(l, strip, cands, max_dim, cyclic, j).len() <= extensions(
            l,
            strip,
            cands,
            max_dim,
            cyclic,
            m,
        ).len(),
        forall|i: int|
            0 <= i < extensions(l, strip, cands, max_dim, cyclic, j).len() ==> #[trigger] extensions(
                l,
                strip,
                cands,
                max_dim,
                cyclic,
                m,
            )[i] == extensions(l, strip, cands, max_dim, cyclic, j)[i],
    decreases m - j,
{
    if j < m {
        lemma_extensions_prefix(l, strip, cands, max_dim, cyclic, j, m - 1);
        let a = extensions(l, strip, cands, max_dim, cyclic, m - 1);
        if !(strip.len() == 0 || strip.len() - 1 >= max_dim) {
            let b = strips_from(l, strip.push(cands[m - 1]), max_dim, cyclic);
            assert forall|i: int| 0 <= i < a.len() implies #[trigger] (a + b)[i] == a[i] by {}
        }
    }
}

/// The first complete strip that extends `strip` up to rank `max_dim`, found
/// without enumerating the ones after it; none when there is no such strip.
pub fn find_first_rhombic_strip(strip: Vec<Vec<usize>>, l: &Lattice, max_dim: usize, cyclic: bool) -> (r:
    Option<Vec<Vec<usize>>>)
    ensures
        match r {
            None => strips_from(l, strip.deep_view(), max_dim as int, cyclic).len() == 0,
            Some(found) => strips_from(l, strip.deep_view(), max_dim as int, cyclic).len() > 0
                && found.deep_view() == strips_from(l, strip.deep_view(), max_dim as int, cyclic)[0],
        },
    decreases max_dim - strip.len() + 1,
{
    let ghost s = strip.deep_view();
    proof {
        crate::gaps::lemma_rows(strip);
    }
    if strip.len() == 0 {
        return None;
    }
    if strip.len() - 1 >= max_dim {
        proof {
            assert(strips_from(l, s, max_dim as int, cyclic) == seq![s]);
        }
        return Some(strip);
    }
    let cands = next_layers(&strip[strip.len() - 1], l, cyclic);
    let ghost cs = next_layers_of(l, s.last(), cyclic);
    proof {
        assert(s.last() == strip@[strip.len() - 1]@);
        crate::gaps::lemma_rows(cands);
    }
    let mut j: usize = 0;
    while j < cands.len()
        invariant
            0 < strip.len() <= max_dim,
            s == strip.deep_view(),
            cs == next_layers_of(l, s.last(), cyclic),
            cs == cands.deep_view(),
            cs.len() == cands@.len(),
            forall|k: int| 0 <= k < cands@.len() ==> #[trigger] cs[k] == cands@[k]@,
            j <= cands.len(),
            extensions(l, s, cs, max_dim as int, cyclic, j as int).len() == 0,
        decreases cands.len() - j,
    {
        let mut longer = strip.clone();
        longer.push(cands[j].clone());
        proof {
            assert(cs[j as int] == cands@[j as int]@);
            crate::gaps::lemma_rows(longer);
            assert(longer.deep_view() =~= s.push(cs[j as int]));
        }
        let found = find_first_rhombic_strip(longer, l, max_dim, cyclic);
        match found {
            Some(f) => {
                proof {
                    let a = extensions(l, s, cs, max_dim as int, cyclic, j as int);
                    let b = strips_from(l, s.push(cs[j as int]), max_dim as int, cyclic);
                    assert((a + b)[0] == b[0]);
                    lemma_extensions_prefix(l, s, cs, max_dim as int, cyclic, j + 1, cs.len() as int);
                }
                return Some(f);
            },
            None => {},
        }
        j += 1;
    }
    None
}

/// `l` and `m` agree on all that the search reads: the bridge table, the
/// levels, and the rank and the upset of every face.
pub open spec fn same_search_data(l: &Lattice, m: &Lattice) -> bool {
    &&& l.size() == m.size()
    &&& forall|a: int, b: int| #[trigger] l.bridge_at(a, b) == m.bridge_at(a, b)
    &&& forall|r: int| #[trigger] l.level(r) == m.level(r)
    &&& forall|f: int| #[trigger] l.upset_of(f) == m.upset_of(f)
    &&& forall|f: int| 0 <= f < l.size() ==> #[trigger] l.faces@[f].dim == m.faces@[f].dim
}

proof fn lemma_next_layers_same(l: &Lattice, m: &Lattice, layer: Seq<usize>, cyclic: bool)
    requires
        same_search_data(l, m),
    ensures
        next_layers_of(l, layer, cyclic) == next_layers_of(m, layer, cyclic),
{
    assert forall|i: int|
        #![trigger bridge_pos(l, layer, i)]
        #![trigger bridge_pos(m, layer, i)]
        bridge_pos(l, layer, i) == bridge_pos(m, layer, i) by {
        assert(l.bridge_at(layer[i] as int, layer[(i + 1) % (layer.len() as int)] as int) == m.bridge_at(
            layer[i] as int,
            layer[(i + 1) % (layer.len() as int)] as int,
        ));
    }
    assert(all_bridged(l, layer, cyclic) == all_bridged(m, layer, cyclic));
    let b = bridge_seq(l, layer, cyclic);
    assert(b =~= bridge_seq(m, layer, cyclic));
    assert(gaps_of(l, layer, b) =~= gaps_of(m, layer, b)) by {
        assert forall|i: int| 0 <= i < layer.len() implies gaps_of(l, layer, b)[i] == gaps_of(m, layer, b)[i] by {
            assert(l.upset_of(layer[i] as int) == m.upset_of(layer[i] as int));
        }
    }
    if layer.len() > 0 && layer[0] < l.size() {
        assert(l.faces@[layer[0] as int].dim == m.faces@[layer[0] as int].dim);
        let r = l.faces@[layer[0] as int].dim + 1;
        assert(l.level(r) == m.level(r));
        assert(faces_left_of(l, layer, b) == faces_left_of(m, layer, b));
    }
}

proof fn lemma_strips_same(l: &Lattice, m: &Lattice, strip: Seq<Seq<usize>>, max_dim: int, cyclic: bool)
    requires
        same_search_data(l, m),
    ensures
        strips_from(l, strip, max_dim, cyclic) == strips_from(m, strip, max_dim, cyclic),
    decreases max_dim - strip.len() + 1, 1int, 0int,
{
    if strip.len() > 0 && strip.len() - 1 < max_dim {
        lemma_next_layers_same(l, m, strip.last(), cyclic);
        let cands = next_layers_of(l, strip.last(), cyclic);
        lemma_extensions_same(l, m, strip, cands, max_dim, cyclic, cands.len() as int);
    }
}

proof fn lemma_extensions_same(
    l: &Lattice,
    m: &Lattice,
    strip: Seq<Seq<usize>>,
    cands: Seq<Seq<usize>>,
    max_dim: int,
    cyclic: bool,
    k: int,
)
    requires
        same_search_data(l, m),
        strip.len() > 0,
        strip.len() - 1 < max_dim,
        0 <= k <= cands.len(),
    ensures
        extensions(l, strip, cands, max_dim, cyclic, k) == extensions(m, strip, cands, max_dim, cyclic, k),
    decreases max_dim - strip.len() + 1, 0int, k,
{
    if k > 0 {
        lemma_extensions_same(l, m, strip, cands, max_dim, cyclic, k - 1);
        lemma_strips_same(l, m, strip.push(cands[k - 1]), max_dim, cyclic);
    }
}

/// Enumerating the strips of a seed twice gives the same strips, as a
/// multiset and in order, also where the second lattice differs from the
/// first only in what the search never reads (labels, carried seeds).
pub proof fn lemma_enumeration_repeatable(
    l: &Lattice,
    m: &Lattice,
    seed: Seq<usize>,
    max_dim: int,
    cyclic: bool,
)
    requires
        same_search_data(l, m),
    ensures
        strips_from(l, seq![seed], max_dim, cyclic) == strips_from(m, seq![seed], max_dim, cyclic),
        strips_from(l, seq![seed], max_dim, cyclic).to_multiset() == strips_from(
            m,
            seq![seed],
            max_dim,
            cyclic,
        ).to_multiset(),
{
    lemma_strips_same(l, m, seq![seed], max_dim, cyclic);
}

} // verus!
