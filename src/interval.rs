//! Sequences of face ids: membership, the interval property and the
//! collapsing of adjacent repetitions.

use vstd::prelude::*;

verus! {

/// Position `i` of `s` ends a run of equal entries: the entry after it
/// (after the last one comes the first, when `cyclic`) differs or is missing.
pub open spec fn run_end(s: Seq<usize>, cyclic: bool, i: int) -> bool {
    if i + 1 < s.len() {
        s[i + 1] != s[i]
    } else if cyclic {
        s[0] != s[i]
    } else {
        true
    }
}

/// The interval property: the occurrences of every value of `s` form one
/// contiguous run (read around the end when `cyclic`), that is, no two
/// positions holding the same value both end a run.
pub open spec fn interval_ok(s: Seq<usize>, cyclic: bool) -> bool {
    forall|i: int, j: int|
        0 <= i < j < s.len() && s[i] == s[j] ==> !(#[trigger] run_end(s, cyclic, i) && #[trigger] run_end(
            s,
            cyclic,
            j,
        ))
}

/// `v` with every entry that equals its predecessor left out.
pub open spec fn dedup_adjacent(v: Seq<usize>) -> Seq<usize>
    decreases v.len(),
{
    if v.len() <= 1 {
        v
    } else {
        let d = dedup_adjacent(v.drop_last());
        if v[v.len() - 2] == v.last() {
            d
        } else {
            d.push(v.last())
        }
    }
}

/// `v` with adjacent repetitions merged; when `cyclic`, a last entry equal to
/// the first is merged into it as well.
pub open spec fn collapse(v: Seq<usize>, cyclic: bool) -> Seq<usize> {
    let d = dedup_adjacent(v);
    if cyclic && d.len() > 1 && d.last() == d[0] {
        d.drop_last()
    } else {
        d
    }
}

/// The entries of `s` that do not occur in `used`, in their order.
pub open spec fn without(s: Seq<usize>, used: Seq<usize>) -> Seq<usize> {
    s.filter(|x: usize| !used.contains(x))
}

/// Whether `x` occurs in `v`.
pub fn contains(v: &Vec<usize>, x: usize) -> (r: bool)
    ensures
        r == v@.contains(x),
{
    let mut i: usize = 0;
    while i < v.len()
        invariant
            i <= v.len(),
            forall|k: int| 0 <= k < i ==> v@[k] != x,
        decreases v.len() - i,
    {
        if v[i] == x {
            return true;
        }
        i += 1;
    }
    false
}

/// The entries of `s` that do not occur in `used`.
pub fn remove_used(s: &Vec<usize>, used: &Vec<usize>) -> (r: Vec<usize>)
    ensures
        r@ == without(s@, used@),
{
    let mut r: Vec<usize> = Vec::new();
    let mut i: usize = 0;
    while i < s.len()
        invariant
            i <= s.len(),
            r@ == without(s@.subrange(0, i as int), used@),
        decreases s.len() - i,
    {
        let x = s[i];
        proof {
            assert(s@.subrange(0, i + 1) =~= s@.subrange(0, i as int).push(x));
            s@.subrange(0, i as int).lemma_filter_push(x, |y: usize| !used@.contains(y));
        }
        if !contains(used, x) {
            r.push(x);
        }
        i += 1;
    }
    proof {
        assert(s@.subrange(0, s@.len() as int) =~= s@);
    }
    r
}

fn ends_run(s: &Vec<usize>, cyclic: bool, i: usize) -> (r: bool)
    requires
        i < s.len(),
    ensures
        r == run_end(s@, cyclic, i as int),
{
    if i + 1 < s.len() {
        s[i + 1] != s[i]
    } else if cyclic {
        s[0] != s[i]
    } else {
        true
    }
}

/// Whether `layer` has the interval property, read cyclically or linearly.
pub fn layer_ok(layer: &Vec<usize>, cyclic: bool) -> (r: bool)
    ensures
        r == interval_ok(layer@, cyclic),
{
    let n = layer.len();
    let mut i: usize = 0;
    while i < n
        invariant
            n == layer.len(),
            i <= n,
            forall|a: int, b: int|
                0 <= a < i && a < b < n && layer@[a] == layer@[b] ==> !(#[trigger] run_end(
                    layer@,
                    cyclic,
                    a,
                ) && #[trigger] run_end(layer@, cyclic, b)),
        decreases n - i,
    {
        if ends_run(layer, cyclic, i) {
            let mut j: usize = i + 1;
            while j < n
                invariant
                    n == layer.len(),
                    i < n,
                    i < j <= n,
                    run_end(layer@, cyclic, i as int),
                    forall|b: int|
                        i < b < j && layer@[i as int] == layer@[b] ==> !#[trigger] run_end(
                            layer@,
                            cyclic,
                            b,
                        ),
                decreases n - j,
            {
                if layer[j] == layer[i] && ends_run(layer, cyclic, j) {
                    return false;
                }
                j += 1;
            }
        }
        i += 1;
    }
    true
}

/// `v` with adjacent repetitions merged, and, when `cyclic`, a last entry
/// equal to the first merged into it.
pub fn duplicates_removed(v: &Vec<usize>, cyclic: bool) -> (r: Vec<usize>)
    ensures
        r@ == collapse(v@, cyclic),
{
    if v.len() == 0 {
        proof {
            assert(dedup_adjacent(v@) == v@);
        }
        return Vec::new();
    }
    let mut r: Vec<usize> = Vec::new();
    r.push(v[0]);
    proof {
        assert(v@.subrange(0, 1) =~= seq![v@[0]]);
        assert(r@ =~= seq![v@[0]]);
    }
    let mut i: usize = 1;
    while i < v.len()
        invariant
            1 <= i <= v.len(),
            r@ == dedup_adjacent(v@.subrange(0, i as int)),
        decreases v.len() - i,
    {
        proof {
            assert(v@.subrange(0, i + 1).drop_last() =~= v@.subrange(0, i as int));
        }
        if v[i - 1] != v[i] {
            r.push(v[i]);
        }
        i += 1;
    }
    proof {
        assert(v@.subrange(0, v@.len() as int) =~= v@);
    }
    if cyclic && r.len() > 1 && r[r.len() - 1] == r[0] {
        r.pop();
        proof {
            assert(r@ =~= dedup_adjacent(v@).drop_last());
        }
    }
    r
}

} // verus!
