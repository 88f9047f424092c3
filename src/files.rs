//! The text formats: lattice files, one face or one seed per line, and edge
//! lists of graphs, one graph per line.

use vstd::prelude::*;
use crate::graph::Graph;
use crate::lattice::{lattice_from_faces, Face, Lattice};
use crate::text::{decimal, lemma_rows_char, parse_decimal, split_by, split_text};

verus! {

/// What a face line of a lattice file holds: rank, label, upset, downset.
pub type FaceRecord = (usize, Seq<char>, Seq<usize>, Seq<usize>);

/// Why a lattice file was refused.
#[derive(Debug, PartialEq, Eq)]
pub enum LatticeFileError {
    /// The line of this index (from 0) is neither a face nor a seed.
    Malformed(usize),
    /// The file holds no face.
    NoFaces,
    /// A face has the largest `usize` as rank, so the levels cannot be held.
    RankTooLarge,
}

/// The numbers that the pieces write, one each; none if one does not.
pub open spec fn numbers_of(pieces: Seq<Seq<char>>) -> Option<Seq<usize>>
    decreases pieces.len(),
{
    if pieces.len() == 0 {
        Some(seq![])
    } else {
        match (numbers_of(pieces.drop_last()), decimal(pieces.last())) {
            (Some(v), Some(x)) => Some(v.push(x)),
            _ => None,
        }
    }
}

/// The separator of ids in a list.
pub open spec fn comma() -> Seq<char> {
    seq![',', ' ']
}

/// The ids of a list followed by `tail` closing characters: none written
/// when the text is the closing characters alone, else numbers separated by
/// `", "`.
pub open spec fn id_list(s: Seq<char>, tail: int) -> Option<Seq<usize>> {
    if s.len() == tail {
        Some(seq![])
    } else if s.len() < tail {
        None
    } else {
        numbers_of(split_by(s.subrange(0, s.len() - tail), comma()))
    }
}

/// A face line: the rank before the first `": "`, the label up to the next
/// one, the upset after the first `'{'` (closed by `"}, "`), the downset
/// after the second (closed by `'}'`).
pub open spec fn face_line(line: Seq<char>) -> Option<FaceRecord> {
    let by_colon = split_by(line, seq![':', ' ']);
    let by_brace = split_by(line, seq!['{']);
    if by_colon.len() < 2 || by_brace.len() < 3 {
        None
    } else {
        match (decimal(by_colon[0]), id_list(by_brace[1], 3), id_list(by_brace[2], 1)) {
            (Some(d), Some(up), Some(down)) => Some((d, by_colon[1], up, down)),
            _ => None,
        }
    }
}

/// A seed line: ids separated by `", "` between its first and its last
/// character.
pub open spec fn seed_line(line: Seq<char>) -> Option<Seq<usize>> {
    if line.len() < 2 {
        None
    } else {
        numbers_of(split_by(line.subrange(1, line.len() - 1), comma()))
    }
}

/// `l` without a final carriage return.
pub open spec fn strip_cr(l: Seq<char>) -> Seq<char> {
    if l.len() > 0 && l.last() == '\r' {
        l.drop_last()
    } else {
        l
    }
}

/// The lines of `text`: split at each line feed, without a final carriage
/// return, and without an empty piece after the last line feed.
pub open spec fn file_lines(text: Seq<char>) -> Seq<Seq<char>> {
    let pieces = split_by(text, seq!['\n']);
    let whole = if pieces.len() > 0 && pieces.last().len() == 0 {
        pieces.drop_last()
    } else {
        pieces
    };
    Seq::new(whole.len(), |i: int| strip_cr(whole[i]))
}

/// The faces and the last seed of the first `k` lines, or the index of the
/// first line that is neither a face nor a seed (a seed line starts with
/// `'['`).
pub open spec fn read_lines(lines: Seq<Seq<char>>, k: int) -> Result<(Seq<FaceRecord>, Option<Seq<usize>>), int>
    decreases k,
{
    if k <= 0 {
        Ok((seq![], None))
    } else {
        match read_lines(lines, k - 1) {
            Err(e) => Err(e),
            Ok((faces, seed)) => {
                let line = lines[k - 1];
                if line.len() == 0 {
                    Err(k - 1)
                } else if line[0] == '[' {
                    match seed_line(line) {
                        Some(c) => Ok((faces, Some(c))),
                        None => Err(k - 1),
                    }
                } else {
                    match face_line(line) {
                        Some(f) => Ok((faces.push(f), seed)),
                        None => Err(k - 1),
                    }
                }
            },
        }
    }
}

/// The faces hold the records: rank, label, upset and downset.
pub open spec fn faces_hold(faces: Seq<Face>, recs: Seq<FaceRecord>) -> bool {
    &&& faces.len() == recs.len()
    &&& forall|i: int|
        0 <= i < recs.len() ==> {
            let f = #[trigger] faces[i];
            &&& f.dim == recs[i].0
            &&& f.label@ == recs[i].1
            &&& f.upset@ == recs[i].2
            &&& f.downset@ == recs[i].3
        }
}

/// Relies on std's `FromIterator<char>` for `String`: the string of the
/// characters, in order.
#[verifier::external_body]
fn string_from(chars: &Vec<char>) -> (r: String)
    ensures
        r@ == chars@,
{
    chars.iter().collect()
}

fn parse_numbers(pieces: &Vec<Vec<char>>) -> (r: Option<Vec<usize>>)
    ensures
        match numbers_of(pieces.deep_view()) {
            Some(v) => r is Some && r->Some_0@ == v,
            None => r is None,
        },
{
    proof {
        lemma_rows_char(*pieces);
    }
    let ghost ps = pieces.deep_view();
    let mut r: Vec<usize> = Vec::new();
    let mut i: usize = 0;
    while i < pieces.len()
        invariant
            i <= pieces.len(),
            ps == pieces.deep_view(),
            ps.len() == pieces@.len(),
            forall|j: int| 0 <= j < pieces@.len() ==> #[trigger] ps[j] == pieces@[j]@,
            numbers_of(ps.subrange(0, i as int)) == Some(r@),
        decreases pieces.len() - i,
    {
        proof {
            assert(ps.subrange(0, i + 1).drop_last() =~= ps.subrange(0, i as int));
            assert(ps[i as int] == pieces@[i as int]@);
        }
        match parse_decimal(&pieces[i]) {
            Some(x) => {
                r.push(x);
            },
            None => {
                proof {
                    lemma_numbers_prefix_none(ps, i + 1);
                }
                return None;
            },
        }
        i += 1;
    }
    proof {
        assert(ps.subrange(0, ps.len() as int) =~= ps);
    }
    Some(r)
}

proof fn lemma_numbers_prefix_none(ps: Seq<Seq<char>>, k: int)
    requires
        0 <= k <= ps.len(),
        numbers_of(ps.subrange(0, k)) is None,
    ensures
        numbers_of(ps) is None,
    decreases ps.len() - k,
{
    if k < ps.len() {
        assert(ps.subrange(0, k + 1).drop_last() =~= ps.subrange(0, k));
        lemma_numbers_prefix_none(ps, k + 1);
    } else {
        assert(ps.subrange(0, k) =~= ps);
    }
}

fn parse_id_list(s: &Vec<char>, tail: usize) -> (r: Option<Vec<usize>>)
    ensures
        match id_list(s@, tail as int) {
            Some(v) => r is Some && r->Some_0@ == v,
            None => r is None,
        },
{
    if s.len() == tail {
        return Some(Vec::new());
    }
    if s.len() < tail {
        return None;
    }
    let mut body: Vec<char> = Vec::new();
    let mut i: usize = 0;
    while i < s.len() - tail
        invariant
            tail < s.len(),
            i <= s.len() - tail,
            body@ == s@.subrange(0, i as int),
        decreases s.len() - tail - i,
    {
        body.push(s[i]);
        proof {
            assert(s@.subrange(0, i + 1) =~= s@.subrange(0, i as int).push(s@[i as int]));
        }
        i += 1;
    }
    let sep = vec![',', ' '];
    proof {
        assert(sep@ =~= comma());
    }
    parse_numbers(&split_text(&body, &sep))
}

fn parse_face_line(line: &Vec<char>) -> (r: Option<(usize, Vec<char>, Vec<usize>, Vec<usize>)>)
    ensures
        match face_line(line@) {
            Some(f) => r is Some && ({
                let (d, label, up, down) = r->Some_0;
                d == f.0 && label@ == f.1 && up@ == f.2 && down@ == f.3
            }),
            None => r is None,
        },
{
    let colon = vec![':', ' '];
    let brace = vec!['{'];
    proof {
        assert(colon@ =~= seq![':', ' ']);
        assert(brace@ =~= seq!['{']);
    }
    let by_colon = split_text(line, &colon);
    let by_brace = split_text(line, &brace);
    proof {
        lemma_rows_char(by_colon);
        lemma_rows_char(by_brace);
    }
    if by_colon.len() < 2 || by_brace.len() < 3 {
        return None;
    }
    proof {
        assert(by_colon.deep_view()[0] == by_colon@[0]@);
        assert(by_colon.deep_view()[1] == by_colon@[1]@);
        assert(by_brace.deep_view()[1] == by_brace@[1]@);
        assert(by_brace.deep_view()[2] == by_brace@[2]@);
    }
    let d = parse_decimal(&by_colon[0]);
    let up = parse_id_list(&by_brace[1], 3);
    let down = parse_id_list(&by_brace[2], 1);
    match (d, up, down) {
        (Some(d), Some(up), Some(down)) => Some((d, by_colon[1].clone(), up, down)),
        _ => None,
    }
}

fn parse_seed_line(line: &Vec<char>) -> (r: Option<Vec<usize>>)
    ensures
        match seed_line(line@) {
            Some(v) => r is Some && r->Some_0@ == v,
            None => r is None,
        },
{
    if line.len() < 2 {
        return None;
    }
    let mut body: Vec<char> = Vec::new();
    let mut i: usize = 1;
    while i < line.len() - 1
        invariant
            2 <= line.len(),
            1 <= i <= line.len() - 1,
            body@ == line@.subrange(1, i as int),
        decreases line.len() - 1 - i,
    {
        body.push(line[i]);
        proof {
            assert(line@.subrange(1, i + 1) =~= line@.subrange(1, i as int).push(line@[i as int]));
        }
        i += 1;
    }
    let sep = vec![',', ' '];
    proof {
        assert(sep@ =~= comma());
    }
    parse_numbers(&split_text(&body, &sep))
}

fn without_cr(l: &Vec<char>) -> (r: Vec<char>)
    ensures
        r@ == strip_cr(l@),
{
    let mut r = l.clone();
    proof {
        assert(r@ =~= l@);
    }
    if r.len() > 0 && r[r.len() - 1] == '\r' {
        r.pop();
    }
    r
}

fn lines_of(text: &Vec<char>) -> (r: Vec<Vec<char>>)
    ensures
        r.deep_view() == file_lines(text@),
{
    let nl = vec!['\n'];
    proof {
        assert(nl@ =~= seq!['\n']);
    }
    let pieces = split_text(text, &nl);
    let ghost ps = pieces.deep_view();
    proof {
        lemma_rows_char(pieces);
    }
    let mut count = pieces.len();
    if count > 0 && pieces[count - 1].len() == 0 {
        count = count - 1;
        proof {
            assert(ps[ps.len() - 1] == pieces@[ps.len() - 1]@);
        }
    }
    let ghost whole = if ps.len() > 0 && ps.last().len() == 0 {
        ps.drop_last()
    } else {
        ps
    };
    proof {
        if count < pieces.len() {
            assert(ps[ps.len() - 1] == pieces@[ps.len() - 1]@);
        } else if ps.len() > 0 {
            assert(ps[ps.len() - 1] == pieces@[ps.len() - 1]@);
        }
        assert(whole.len() == count);
    }
    let mut r: Vec<Vec<char>> = Vec::new();
    let mut i: usize = 0;
    while i < count
        invariant
            i <= count,
            count <= pieces@.len(),
            whole.len() == count,
            ps == pieces.deep_view(),
            forall|j: int| 0 <= j < pieces@.len() ==> #[trigger] ps[j] == pieces@[j]@,
            forall|j: int| 0 <= j < count ==> #[trigger] whole[j] == ps[j],
            r@.len() == i,
            forall|j: int| 0 <= j < i ==> #[trigger] r@[j]@ == strip_cr(whole[j]),
        decreases count - i,
    {
        proof {
            assert(ps[i as int] == pieces@[i as int]@);
        }
        r.push(without_cr(&pieces[i]));
        i += 1;
    }
    proof {
        lemma_rows_char(r);
        assert(r.deep_view() =~= file_lines(text@));
    }
    r
}

/// The lattice that a lattice file writes, with its last seed line as its
/// one seed (none written: one empty seed).
pub fn lattice_from_text(text: &Vec<char>) -> (r: Result<Lattice, LatticeFileError>)
    ensures
        match read_lines(file_lines(text@), file_lines(text@).len() as int) {
            Err(i) => r == Err::<Lattice, LatticeFileError>(LatticeFileError::Malformed(i as usize)),
            Ok((recs, seed)) => if recs.len() == 0 {
                r == Err::<Lattice, LatticeFileError>(LatticeFileError::NoFaces)
            } else if exists|i: int| 0 <= i < recs.len() && #[trigger] recs[i].0 == usize::MAX {
                r == Err::<Lattice, LatticeFileError>(LatticeFileError::RankTooLarge)
            } else {
                r is Ok && r->Ok_0.wf() && faces_hold(r->Ok_0.faces@, recs)
                    && r->Ok_0.ham_cycles.deep_view() == seq![
                    match seed {
                        Some(c) => c,
                        None => Seq::<usize>::empty(),
                    },
                ]
            },
        },
{
    let lines = lines_of(text);
    let ghost ls = lines.deep_view();
    proof {
        lemma_rows_char(lines);
    }
    let mut faces: Vec<Face> = Vec::new();
    let mut seed: Vec<usize> = Vec::new();
    let mut has_seed = false;
    let mut too_large = false;
    let mut k: usize = 0;
    while k < lines.len()
        invariant
            k <= lines.len(),
            ls == lines.deep_view(),
            ls == file_lines(text@),
            forall|j: int| 0 <= j < lines@.len() ==> #[trigger] ls[j] == lines@[j]@,
            read_lines(ls, k as int) is Ok,
            faces_hold(faces@, read_lines(ls, k as int)->Ok_0.0),
            has_seed == read_lines(ls, k as int)->Ok_0.1 is Some,
            has_seed ==> seed@ == read_lines(ls, k as int)->Ok_0.1->Some_0,
            !has_seed ==> seed@ == Seq::<usize>::empty(),
            too_large == exists|i: int| 0 <= i < faces@.len() && #[trigger] faces@[i].dim == usize::MAX,
        decreases lines.len() - k,
    {
        let line = &lines[k];
        proof {
            assert(ls[k as int] == line@);
        }
        if line.len() == 0 {
            proof {
                lemma_read_lines_err(ls, k as int + 1);
            }
            return Err(LatticeFileError::Malformed(k));
        }
        if line[0] == '[' {
            match parse_seed_line(line) {
                Some(c) => {
                    seed = c;
                    has_seed = true;
                },
                None => {
                    proof {
                        lemma_read_lines_err(ls, k as int + 1);
                    }
                    return Err(LatticeFileError::Malformed(k));
                },
            }
        } else {
            match parse_face_line(line) {
                Some((d, label, up, down)) => {
                    let ghost f0 = faces@;
                    faces.push(Face { label: string_from(&label), dim: d, upset: up, downset: down });
                    proof {
                        let recs = read_lines(ls, k as int + 1)->Ok_0.0;
                        assert forall|i: int| 0 <= i < recs.len() implies {
                            let f = #[trigger] faces@[i];
                            &&& f.dim == recs[i].0
                            &&& f.label@ == recs[i].1
                            &&& f.upset@ == recs[i].2
                            &&& f.downset@ == recs[i].3
                        } by {
                            if i < f0.len() {
                                assert(faces@[i] == f0[i]);
                            }
                        }
                    }
                    if d == usize::MAX {
                        too_large = true;
                    }
                    proof {
                        if !too_large {
                            assert forall|i: int| 0 <= i < faces@.len() implies #[trigger] faces@[i].dim != usize::MAX by {
                                if i < f0.len() {
                                    assert(faces@[i] == f0[i]);
                                }
                            }
                        } else {
                            if d != usize::MAX {
                                let i = choose|i: int| 0 <= i < f0.len() && #[trigger] f0[i].dim == usize::MAX;
                                assert(faces@[i] == f0[i]);
                            } else {
                                assert(faces@[f0.len() as int].dim == usize::MAX);
                            }
                        }
                    }
                },
                None => {
                    proof {
                        lemma_read_lines_err(ls, k as int + 1);
                    }
                    return Err(LatticeFileError::Malformed(k));
                },
            }
        }
        k += 1;
    }
    let ghost recs = read_lines(ls, ls.len() as int)->Ok_0.0;
    if faces.len() == 0 {
        return Err(LatticeFileError::NoFaces);
    }
    if too_large {
        proof {
            let i = choose|i: int| 0 <= i < faces@.len() && #[trigger] faces@[i].dim == usize::MAX;
            assert(recs[i].0 == usize::MAX);
        }
        return Err(LatticeFileError::RankTooLarge);
    }
    proof {
        assert forall|i: int| 0 <= i < faces@.len() implies #[trigger] faces@[i].dim <= usize::MAX - 1 by {}
        crate::lattice::lemma_max_rank_bound(faces@, faces@.len() as int, (usize::MAX - 1) as nat);
        assert(!(exists|i: int| 0 <= i < recs.len() && #[trigger] recs[i].0 == usize::MAX)) by {
            if exists|i: int| 0 <= i < recs.len() && #[trigger] recs[i].0 == usize::MAX {
                let i = choose|i: int| 0 <= i < recs.len() && #[trigger] recs[i].0 == usize::MAX;
                assert(faces@[i].dim == usize::MAX);
            }
        }
    }
    let mut seeds: Vec<Vec<usize>> = Vec::new();
    seeds.push(seed);
    proof {
        crate::gaps::lemma_rows(seeds);
        assert(seeds.deep_view() =~= seq![
            match read_lines(ls, ls.len() as int)->Ok_0.1 {
                Some(c) => c,
                None => Seq::<usize>::empty(),
            },
        ]);
    }
    Ok(lattice_from_faces(faces, seeds))
}

proof fn lemma_read_lines_err(ls: Seq<Seq<char>>, k: int)
    requires
        0 < k <= ls.len(),
        read_lines(ls, k) is Err,
        read_lines(ls, k)->Err_0 == k - 1,
    ensures
        read_lines(ls, ls.len() as int) == Err::<(Seq<FaceRecord>, Option<Seq<usize>>), int>(k - 1),
{
    lemma_read_lines_err_keep(ls, k, ls.len() as int);
}

proof fn lemma_read_lines_err_keep(ls: Seq<Seq<char>>, k: int, m: int)
    requires
        0 < k <= m <= ls.len(),
        read_lines(ls, k) is Err,
    ensures
        read_lines(ls, m) == read_lines(ls, k),
    decreases m - k,
{
    if k < m {
        lemma_read_lines_err_keep(ls, k, m - 1);
    }
}

/// The edge that a piece of an edge list writes: its first two numbers,
/// where every part between `", "` is a number.
pub open spec fn edge_piece(piece: Seq<char>) -> Option<(usize, usize)> {
    match numbers_of(split_by(piece, comma())) {
        Some(v) => if v.len() >= 2 {
            Some((v[0], v[1]))
        } else {
            None
        },
        None => None,
    }
}

/// The separator of edges in an edge list.
pub open spec fn edge_sep() -> Seq<char> {
    seq![')', ',', ' ', '(']
}

/// The edges that the first `k` pieces write; none if one does not.
pub open spec fn edges_of_pieces(pieces: Seq<Seq<char>>, k: int) -> Option<Seq<(usize, usize)>>
    decreases k,
{
    if k <= 0 {
        Some(seq![])
    } else {
        match (edges_of_pieces(pieces, k - 1), edge_piece(pieces[k - 1])) {
            (Some(es), Some(e)) => Some(es.push(e)),
            _ => None,
        }
    }
}

/// The edges of an edge-list line: pairs separated by `"), ("` between two
/// leading and two trailing characters, as in `[(0, 1), (1, 2)]`.
pub open spec fn edge_line(line: Seq<char>) -> Option<Seq<(usize, usize)>> {
    if line.len() < 4 {
        None
    } else {
        let pieces = split_by(line.subrange(2, line.len() - 2), edge_sep());
        edges_of_pieces(pieces, pieces.len() as int)
    }
}

/// The vertices of the first `k` edges, in the order they first appear.
pub open spec fn vertices_from(edges: Seq<(usize, usize)>, k: int) -> Seq<usize>
    decreases k,
{
    if k <= 0 {
        seq![]
    } else {
        let v = vertices_from(edges, k - 1);
        let (a, b) = edges[k - 1];
        let with_a = if v.contains(a) {
            v
        } else {
            v.push(a)
        };
        if with_a.contains(b) {
            with_a
        } else {
            with_a.push(b)
        }
    }
}

/// `g` is the graph of the edges `es`, with its vertices in the order they
/// first appear and no tubes yet.
pub open spec fn graph_of_edges(g: Graph, es: Seq<(usize, usize)>) -> bool {
    &&& g.edges@.len() == es.len()
    &&& forall|i: int| 0 <= i < es.len() ==> #[trigger] g.edges@[i]@ == seq![es[i].0, es[i].1]
    &&& g.vertices@ == vertices_from(es, es.len() as int)
    &&& g.tubes is None
}

fn parse_edge_piece(piece: &Vec<char>) -> (r: Option<[usize; 2]>)
    ensures
        match edge_piece(piece@) {
            Some(e) => r is Some && r->Some_0@ == seq![e.0, e.1],
            None => r is None,
        },
{
    let sep = vec![',', ' '];
    proof {
        assert(sep@ =~= comma());
    }
    match parse_numbers(&split_text(piece, &sep)) {
        Some(v) => {
            if v.len() >= 2 {
                let e = [v[0], v[1]];
                proof {
                    assert(e@ =~= seq![v@[0], v@[1]]);
                }
                Some(e)
            } else {
                None
            }
        },
        None => None,
    }
}

/// The graph that an edge-list line writes; none for a malformed line.
pub fn graph_from_line(line: &Vec<char>) -> (r: Option<Graph>)
    ensures
        match edge_line(line@) {
            Some(es) => r is Some && graph_of_edges(r->Some_0, es),
            None => r is None,
        },
{
    if line.len() < 4 {
        return None;
    }
    let mut body: Vec<char> = Vec::new();
    let mut i: usize = 2;
    while i < line.len() - 2
        invariant
            4 <= line.len(),
            2 <= i <= line.len() - 2,
            body@ == line@.subrange(2, i as int),
        decreases line.len() - 2 - i,
    {
        body.push(line[i]);
        proof {
            assert(line@.subrange(2, i + 1) =~= line@.subrange(2, i as int).push(line@[i as int]));
        }
        i += 1;
    }
    let sep = vec![')', ',', ' ', '('];
    proof {
        assert(sep@ =~= edge_sep());
    }
    let pieces = split_text(&body, &sep);
    let ghost ps = pieces.deep_view();
    proof {
        lemma_rows_char(pieces);
    }
    let mut edges: Vec<[usize; 2]> = Vec::new();
    let mut vertices: Vec<usize> = Vec::new();
    let ghost mut es: Seq<(usize, usize)> = seq![];
    let mut k: usize = 0;
    while k < pieces.len()
        invariant
            k <= pieces.len(),
            ps == pieces.deep_view(),
            ps == split_by(line@.subrange(2, line@.len() - 2), edge_sep()),
            forall|j: int| 0 <= j < pieces@.len() ==> #[trigger] ps[j] == pieces@[j]@,
            edges_of_pieces(ps, k as int) == Some(es),
            edges@.len() == es.len(),
            forall|j: int| 0 <= j < es.len() ==> #[trigger] edges@[j]@ == seq![es[j].0, es[j].1],
            vertices@ == vertices_from(es, es.len() as int),
        decreases pieces.len() - k,
    {
        proof {
            assert(ps[k as int] == pieces@[k as int]@);
        }
        match parse_edge_piece(&pieces[k]) {
            Some(e) => {
                let a = e[0];
                let b = e[1];
                let ghost e0 = edges@;
                let ghost es0 = es;
                edges.push(e);
                proof {
                    es = es.push((a, b));
                    lemma_vertices_same(es0, es, es0.len() as int);
                    assert(es[es.len() - 1] == (a, b));
                    assert forall|j: int| 0 <= j < es.len() implies #[trigger] edges@[j]@ == seq![es[j].0, es[j].1] by {
                        if j < e0.len() {
                            assert(edges@[j] == e0[j]);
                        }
                    }
                }
                if !crate::interval::contains(&vertices, a) {
                    vertices.push(a);
                }
                if !crate::interval::contains(&vertices, b) {
                    vertices.push(b);
                }

            },
            None => {
                proof {
                    lemma_edges_none(ps, k as int + 1);
                }
                return None;
            },
        }
        k += 1;
    }
    Some(Graph { vertices, edges, tubes: None })
}

proof fn lemma_vertices_same(a: Seq<(usize, usize)>, b: Seq<(usize, usize)>, k: int)
    requires
        0 <= k <= a.len(),
        k <= b.len(),
        forall|i: int| 0 <= i < k ==> a[i] == b[i],
    ensures
        vertices_from(a, k) == vertices_from(b, k),
    decreases k,
{
    if k > 0 {
        lemma_vertices_same(a, b, k - 1);
    }
}

proof fn lemma_edges_none(ps: Seq<Seq<char>>, k: int)
    requires
        0 < k <= ps.len(),
        edges_of_pieces(ps, k) is None,
    ensures
        edges_of_pieces(ps, ps.len() as int) is None,
    decreases ps.len() - k,
{
    if k < ps.len() {
        lemma_edges_none(ps, k + 1);
    }
}

} // verus!
