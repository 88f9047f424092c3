//! Text pieces: splitting at a separator and reading decimal numbers.

use vstd::prelude::*;

verus! {

/// `pat` occurs in `s` at position `j`.
pub open spec fn matches_at(s: Seq<char>, pat: Seq<char>, j: int) -> bool {
    0 <= j && j + pat.len() <= s.len() && s.subrange(j, j + pat.len()) == pat
}

/// The first position from `i` on where `pat` occurs in `s`.
pub open spec fn find_from(s: Seq<char>, pat: Seq<char>, i: int) -> Option<int>
    decreases s.len() + 1 - i,
{
    if i < 0 || i + pat.len() > s.len() {
        None
    } else if matches_at(s, pat, i) {
        Some(i)
    } else {
        find_from(s, pat, i + 1)
    }
}

/// The pieces of `s[start..]` between the occurrences of `pat`, read from
/// the left; as many pieces as occurrences plus one.
pub open spec fn split_from(s: Seq<char>, pat: Seq<char>, start: int) -> Seq<Seq<char>>
    decreases s.len() - start,
{
    if pat.len() == 0 || start < 0 || start > s.len() {
        seq![s.subrange(start, s.len() as int)]
    } else {
        match find_from(s, pat, start) {
            Some(j) => if start <= j && j + pat.len() <= s.len() {
                seq![s.subrange(start, j)] + split_from(s, pat, j + pat.len())
            } else {
                seq![s.subrange(start, s.len() as int)]
            },
            None => seq![s.subrange(start, s.len() as int)],
        }
    }
}

/// The pieces of `s` between the occurrences of `pat`.
pub open spec fn split_by(s: Seq<char>, pat: Seq<char>) -> Seq<Seq<char>> {
    split_from(s, pat, 0)
}

/// `c` is a decimal digit.
pub open spec fn is_digit(c: char) -> bool {
    '0' <= c && c <= '9'
}

/// The value of the decimal digits `s`.
pub open spec fn digits_value(s: Seq<char>) -> int
    decreases s.len(),
{
    if s.len() == 0 {
        0
    } else {
        digits_value(s.drop_last()) * 10 + (s.last() as int - '0' as int)
    }
}

/// The digits of a number: `s` without a leading `+`.
pub open spec fn unsigned_digits(s: Seq<char>) -> Seq<char> {
    if s.len() > 0 && s[0] == '+' {
        s.drop_first()
    } else {
        s
    }
}

/// The `usize` that `s` writes: an optional `+` and at least one decimal
/// digit, of a value that fits; none otherwise.
pub open spec fn decimal(s: Seq<char>) -> Option<usize> {
    let d = unsigned_digits(s);
    if d.len() > 0 && (forall|i: int| 0 <= i < d.len() ==> is_digit(#[trigger] d[i])) && digits_value(d)
        <= usize::MAX {
        Some(digits_value(d) as usize)
    } else {
        None
    }
}

fn matches_exec(s: &Vec<char>, pat: &Vec<char>, j: usize) -> (r: bool)
    requires
        j + pat.len() <= s.len(),
    ensures
        r == matches_at(s@, pat@, j as int),
{
    let mut k: usize = 0;
    while k < pat.len()
        invariant
            j + pat.len() <= s.len(),
            k <= pat.len(),
            forall|q: int| 0 <= q < k ==> s@[j + q] == pat@[q],
        decreases pat.len() - k,
    {
        if s[j + k] != pat[k] {
            proof {
                assert(s@.subrange(j as int, j + pat.len())[k as int] != pat@[k as int]);
            }
            return false;
        }
        k += 1;
    }
    proof {
        assert(s@.subrange(j as int, j + pat.len()) =~= pat@);
    }
    true
}

fn find_exec(s: &Vec<char>, pat: &Vec<char>, start: usize) -> (r: Option<usize>)
    requires
        start <= s.len(),
    ensures
        match r {
            Some(j) => find_from(s@, pat@, start as int) == Some(j as int),
            None => find_from(s@, pat@, start as int) is None,
        },
{
    if pat.len() > s.len() || start > s.len() - pat.len() {
        return None;
    }
    let last = s.len() - pat.len();
    let mut j: usize = start;
    loop
        invariant
            start <= j <= last,
            last + pat.len() == s.len(),
            find_from(s@, pat@, start as int) == find_from(s@, pat@, j as int),
        decreases last - j,
    {
        if matches_exec(s, pat, j) {
            return Some(j);
        }
        if j == last {
            proof {
                assert(find_from(s@, pat@, j + 1) is None);
            }
            return None;
        }
        j += 1;
    }
}

fn slice_of(s: &Vec<char>, a: usize, b: usize) -> (r: Vec<char>)
    requires
        a <= b <= s.len(),
    ensures
        r@ == s@.subrange(a as int, b as int),
{
    let mut r: Vec<char> = Vec::new();
    let mut i: usize = a;
    while i < b
        invariant
            a <= i <= b <= s.len(),
            r@ == s@.subrange(a as int, i as int),
        decreases b - i,
    {
        r.push(s[i]);
        proof {
            assert(s@.subrange(a as int, i + 1) =~= s@.subrange(a as int, i as int).push(s@[i as int]));
        }
        i += 1;
    }
    r
}

/// The pieces of `s` between the occurrences of `pat`.
pub fn split_text(s: &Vec<char>, pat: &Vec<char>) -> (r: Vec<Vec<char>>)
    ensures
        r.deep_view() == split_by(s@, pat@),
{
    let mut r: Vec<Vec<char>> = Vec::new();
    if pat.len() == 0 {
        r.push(slice_of(s, 0, s.len()));
        proof {
            lemma_rows_char(r);
            assert(r.deep_view() =~= split_by(s@, pat@));
        }
        return r;
    }
    let mut start: usize = 0;
    loop
        invariant
            pat.len() > 0,
            start <= s.len(),
            r.deep_view() + split_from(s@, pat@, start as int) == split_from(s@, pat@, 0),
        decreases s.len() - start,
    {
        let ghost r0 = r;
        proof {
            lemma_rows_char(r0);
        }
        match find_exec(s, pat, start) {
            Some(j) => {
                proof {
                    lemma_find_bounds(s@, pat@, start as int);
                }
                r.push(slice_of(s, start, j));
                proof {
                    lemma_rows_char(r);
                    assert(r.deep_view() =~= r0.deep_view().push(s@.subrange(start as int, j as int)));
                    let rest = split_from(s@, pat@, j + pat.len());
                    assert(r0.deep_view() + (seq![s@.subrange(start as int, j as int)] + rest) =~= r.deep_view()
                        + rest);
                }
                start = j + pat.len();
            },
            None => {
                r.push(slice_of(s, start, s.len()));
                proof {
                    lemma_rows_char(r);
                    assert(r.deep_view() =~= r0.deep_view().push(s@.subrange(start as int, s@.len() as int)));
                    assert(r0.deep_view() + seq![s@.subrange(start as int, s@.len() as int)] =~= r.deep_view());
                }
                return r;
            },
        }
    }
}

proof fn lemma_find_bounds(s: Seq<char>, pat: Seq<char>, i: int)
    requires
        find_from(s, pat, i) is Some,
    ensures
        i <= find_from(s, pat, i)->Some_0,
        find_from(s, pat, i)->Some_0 + pat.len() <= s.len(),
    decreases s.len() + 1 - i,
{
    if !(i < 0 || i + pat.len() > s.len()) && !matches_at(s, pat, i) {
        lemma_find_bounds(s, pat, i + 1);
    }
}

/// Each row of the deep view of `v` is the view of that row.
pub proof fn lemma_rows_char(v: Vec<Vec<char>>)
    ensures
        v.deep_view().len() == v@.len(),
        forall|j: int| 0 <= j < v@.len() ==> #[trigger] v.deep_view()[j] == v@[j]@,
{
    assert forall|j: int| 0 <= j < v@.len() implies #[trigger] v.deep_view()[j] == v@[j]@ by {
        assert(v@[j].deep_view() =~= v@[j]@);
    }
}

proof fn lemma_digits_grow(s: Seq<char>, k: int)
    requires
        0 <= k <= s.len(),
        forall|i: int| 0 <= i < s.len() ==> is_digit(#[trigger] s[i]),
    ensures
        digits_value(s.subrange(0, k)) <= digits_value(s),
        digits_value(s.subrange(0, k)) >= 0,
    decreases s.len() - k,
{
    if k < s.len() {
        lemma_digits_grow(s, k + 1);
        assert(s.subrange(0, k + 1).drop_last() =~= s.subrange(0, k));
        assert(is_digit(s[k]));
    } else {
        assert(s.subrange(0, k) =~= s);
        lemma_digits_nonneg(s);
    }
}

proof fn lemma_digits_nonneg(s: Seq<char>)
    requires
        forall|i: int| 0 <= i < s.len() ==> is_digit(#[trigger] s[i]),
    ensures
        digits_value(s) >= 0,
    decreases s.len(),
{
    if s.len() > 0 {
        lemma_digits_nonneg(s.drop_last());
        assert(is_digit(s[s.len() - 1]));
    }
}

/// The `usize` that `s` writes, as `usize::from_str` reads one: an optional
/// `+` and decimal digits, of a value that fits.
pub fn parse_decimal(s: &Vec<char>) -> (r: Option<usize>)
    ensures
        r == decimal(s@),
{
    let ghost d = unsigned_digits(s@);
    let start: usize = if s.len() > 0 && s[0] == '+' {
        1
    } else {
        0
    };
    proof {
        assert(d =~= s@.subrange(start as int, s@.len() as int));
    }
    if start == s.len() {
        return None;
    }
    let mut v: usize = 0;
    let mut i: usize = start;
    while i < s.len()
        invariant
            start <= i <= s.len(),
            d == unsigned_digits(s@),
            d == s@.subrange(start as int, s@.len() as int),
            forall|q: int| 0 <= q < i - start ==> is_digit(#[trigger] d[q]),
            v == digits_value(d.subrange(0, i - start)),
        decreases s.len() - i,
    {
        let c = s[i];
        if !('0' <= c && c <= '9') {
            proof {
                assert(!is_digit(d[i - start]));
            }
            return None;
        }
        let digit = (c as u32 - '0' as u32) as usize;
        proof {
            assert(d.subrange(0, i - start + 1).drop_last() =~= d.subrange(0, i - start));
            assert(d[i - start] == c);
        }
        if v > (usize::MAX - digit) / 10 {
            proof {
                assert(v * 10 + digit > usize::MAX) by (nonlinear_arith)
                    requires
                        v > (usize::MAX - digit) / 10,
                        digit <= 9,
                ;
                assert(digits_value(d.subrange(0, i - start + 1)) == v * 10 + digit);
                if forall|q: int| 0 <= q < d.len() ==> is_digit(#[trigger] d[q]) {
                    lemma_digits_grow(d, i - start + 1);
                }
            }
            return None;
        }
        v = v * 10 + digit;
        i += 1;
    }
    proof {
        assert(d.subrange(0, d.len() as int) =~= d);
    }
    Some(v)
}

} // verus!
