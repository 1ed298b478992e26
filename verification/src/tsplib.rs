//! The TSPLIB file format, as far as this program reads it: the
//! `DIMENSION` and `EDGE_WEIGHT_TYPE` header entries, then after
//! `NODE_COORD_SECTION` one `index x y` triple per node.

use vstd::prelude::*;
use crate::scanner::Scanner;
use crate::text::{parse_usize, spec_parse_usize};

verus! {

/// Why a TSPLIB text is refused, with the tokens involved as plain text.
pub enum TspFault {
    /// `DIMENSION` is not followed by a separator and a value.
    MissingDimension,
    /// The value after `DIMENSION` is not a `usize`.
    BadDimension(Seq<char>),
    /// The edge weight type is not `EUC_2D`.
    WrongEdgeWeightType(Seq<char>),
    /// The input ends before the coordinates of every node are read; the
    /// coordinate tokens read before, in order.
    MissingToken(Seq<Seq<char>>),
    /// A node's index is not a `usize`; the coordinate tokens read before,
    /// in order.
    BadIndex(Seq<char>, Seq<Seq<char>>),
}

/// Why a TSPLIB text is refused.
#[derive(Debug)]
pub enum TspError {
    /// `DIMENSION` is not followed by a separator and a value.
    MissingDimension,
    /// The value after `DIMENSION` is not a `usize`.
    BadDimension(Vec<char>),
    /// The edge weight type is not `EUC_2D`.
    WrongEdgeWeightType(Vec<char>),
    /// The input ends before the coordinates of every node are read; the
    /// coordinate tokens read before, in order.
    MissingToken(Vec<Vec<char>>),
    /// A node's index is not a `usize`; the coordinate tokens read before,
    /// in order.
    BadIndex(Vec<char>, Vec<Vec<char>>),
}

/// Tokens as plain text.
pub open spec fn tokens_view(v: Seq<Vec<char>>) -> Seq<Seq<char>> {
    v.map_values(|t: Vec<char>| t@)
}

impl TspError {
    pub open spec fn fault(&self) -> TspFault {
        match self {
            TspError::MissingDimension => TspFault::MissingDimension,
            TspError::BadDimension(t) => TspFault::BadDimension(t@),
            TspError::WrongEdgeWeightType(t) => TspFault::WrongEdgeWeightType(t@),
            TspError::MissingToken(l) => TspFault::MissingToken(tokens_view(l@)),
            TspError::BadIndex(t, l) => TspFault::BadIndex(t@, tokens_view(l@)),
        }
    }
}

/// The header read from token `i` on, with `dim` the dimension seen so
/// far: the dimension and the index of the first token after the header.
pub open spec fn scan_header(toks: Seq<Seq<char>>, i: int, dim: usize) -> Result<
    (usize, int),
    TspFault,
>
    decreases toks.len() - i,
{
    if i < 0 || i >= toks.len() {
        Ok((dim, toks.len() as int))
    } else if toks[i] == "DIMENSION"@ {
        if i + 2 >= toks.len() {
            Err(TspFault::MissingDimension)
        } else {
            match spec_parse_usize(toks[i + 2]) {
                Some(v) => scan_header(toks, i + 3, v),
                None => Err(TspFault::BadDimension(toks[i + 2])),
            }
        }
    } else if toks[i] == "EDGE_WEIGHT_TYPE"@ {
        if i + 2 >= toks.len() {
            Ok((dim, toks.len() as int))
        } else if toks[i + 2] != "EUC_2D"@ {
            Err(TspFault::WrongEdgeWeightType(toks[i + 2]))
        } else {
            scan_header(toks, i + 3, dim)
        }
    } else if toks[i] == "NODE_COORD_SECTION"@ {
        Ok((dim, i + 1))
    } else {
        scan_header(toks, i + 1, dim)
    }
}

/// The coordinate tokens of `count` nodes, read from token `i` on.
pub open spec fn read_nodes(toks: Seq<Seq<char>>, i: int, count: nat) -> Result<
    Seq<(Seq<char>, Seq<char>)>,
    TspFault,
>
    decreases count,
{
    if count == 0 {
        Ok(seq![])
    } else if i < 0 || i >= toks.len() {
        Err(TspFault::MissingToken(seq![]))
    } else if spec_parse_usize(toks[i]) is None {
        Err(TspFault::BadIndex(toks[i], seq![]))
    } else if i + 1 >= toks.len() {
        Err(TspFault::MissingToken(seq![]))
    } else if i + 2 >= toks.len() {
        Err(TspFault::MissingToken(seq![toks[i + 1]]))
    } else {
        prepend_nodes(seq![(toks[i + 1], toks[i + 2])], read_nodes(toks, i + 3, (count - 1) as nat))
    }
}

/// The coordinate tokens of nodes, one after the other.
pub open spec fn flatten(p: Seq<(Seq<char>, Seq<char>)>) -> Seq<Seq<char>>
    decreases p.len(),
{
    if p.len() == 0 {
        seq![]
    } else {
        flatten(p.drop_last()) + seq![p.last().0, p.last().1]
    }
}

/// `r` with the nodes `p` in front of the nodes, or of the coordinate
/// tokens, that it holds.
pub open spec fn prepend_nodes(
    p: Seq<(Seq<char>, Seq<char>)>,
    r: Result<Seq<(Seq<char>, Seq<char>)>, TspFault>,
) -> Result<Seq<(Seq<char>, Seq<char>)>, TspFault> {
    match r {
        Ok(v) => Ok(p + v),
        Err(TspFault::MissingToken(l)) => Err(TspFault::MissingToken(flatten(p) + l)),
        Err(TspFault::BadIndex(t, l)) => Err(TspFault::BadIndex(t, flatten(p) + l)),
        Err(e) => Err(e),
    }
}

/// What a TSPLIB text with tokens `toks` gives: the `x` and `y` coordinate
/// tokens of each node, in order, or why it is refused.
pub open spec fn spec_read_tsp(toks: Seq<Seq<char>>) -> Result<
    Seq<(Seq<char>, Seq<char>)>,
    TspFault,
> {
    match scan_header(toks, 0, 0) {
        Ok((dim, start)) => read_nodes(toks, start, dim as nat),
        Err(e) => Err(e),
    }
}

/// Whether reading the header from token `i` on runs past the last token:
/// the header is not closed by `NODE_COORD_SECTION` and not refused for a
/// token that is there.
pub open spec fn header_runs_out(toks: Seq<Seq<char>>, i: int) -> bool
    decreases toks.len() - i,
{
    if i < 0 || i >= toks.len() {
        true
    } else if toks[i] == "DIMENSION"@ {
        if i + 2 >= toks.len() {
            true
        } else {
            match spec_parse_usize(toks[i + 2]) {
                Some(v) => header_runs_out(toks, i + 3),
                None => false,
            }
        }
    } else if toks[i] == "EDGE_WEIGHT_TYPE"@ {
        if i + 2 >= toks.len() {
            true
        } else if toks[i + 2] != "EUC_2D"@ {
            false
        } else {
            header_runs_out(toks, i + 3)
        }
    } else if toks[i] == "NODE_COORD_SECTION"@ {
        false
    } else {
        header_runs_out(toks, i + 1)
    }
}

/// Whether reading a TSPLIB text with tokens `toks` asks for a token after
/// the last one: in the header, or for a node's coordinates.
pub open spec fn tsp_runs_out(toks: Seq<Seq<char>>) -> bool {
    header_runs_out(toks, 0) || spec_read_tsp(toks) is Err && spec_read_tsp(toks)->Err_0 is MissingToken
}

proof fn lemma_header_runs_out(toks: Seq<Seq<char>>, i: int, dim: usize)
    requires
        0 <= i <= toks.len(),
        header_runs_out(toks, i),
    ensures
        scan_header(toks, i, dim) matches Ok((d, start)) ==> start == toks.len(),
    decreases toks.len() - i,
{
    if i < toks.len() {
        if toks[i] == "DIMENSION"@ {
            if i + 2 < toks.len() {
                if let Some(v) = spec_parse_usize(toks[i + 2]) {
                    lemma_header_runs_out(toks, i + 3, v);
                }
            }
        } else if toks[i] == "EDGE_WEIGHT_TYPE"@ {
            if i + 2 < toks.len() {
                lemma_header_runs_out(toks, i + 3, dim);
            }
        } else if toks[i] != "NODE_COORD_SECTION"@ {
            lemma_header_runs_out(toks, i + 1, dim);
        }
    }
}

/// How many tokens a TSPLIB text with tokens `toks` takes up: the header
/// and three per node.
pub open spec fn tsp_len(toks: Seq<Seq<char>>) -> int {
    match scan_header(toks, 0, 0) {
        Ok((dim, start)) => start + 3 * dim,
        Err(_) => 0,
    }
}

/// The coordinate tokens of nodes as plain text.
pub open spec fn coords_view(v: Seq<(Vec<char>, Vec<char>)>) -> Seq<(Seq<char>, Seq<char>)> {
    v.map_values(|p: (Vec<char>, Vec<char>)| (p.0@, p.1@))
}

/// The result of [`read_tsp`] as plain text.
pub open spec fn tsp_result_view(r: Result<Vec<(Vec<char>, Vec<char>)>, TspError>) -> Result<
    Seq<(Seq<char>, Seq<char>)>,
    TspFault,
> {
    match r {
        Ok(v) => Ok(coords_view(v@)),
        Err(e) => Err(e.fault()),
    }
}

/// Whether the token is the text `word`.
fn token_is(tok: &Vec<char>, word: &str) -> (b: bool)
    ensures
        b == (tok@ == word@),
{
    let n = word.unicode_len();
    if tok.len() != n {
        return false;
    }
    let mut k: usize = 0;
    while k < n
        invariant
            k <= n,
            n == word@.len(),
            tok@.len() == n,
            forall|j: int| 0 <= j < k ==> tok@[j] == word@[j],
        decreases n - k,
    {
        if tok[k] != word.get_char(k) {
            return false;
        }
        k = k + 1;
    }
    assert(tok@ =~= word@);
    true
}

proof fn lemma_prepend_nodes_assoc(
    p: Seq<(Seq<char>, Seq<char>)>,
    q: Seq<(Seq<char>, Seq<char>)>,
    r: Result<Seq<(Seq<char>, Seq<char>)>, TspFault>,
)
    requires
        q.len() == 1,
    ensures
        prepend_nodes(p, prepend_nodes(q, r)) == prepend_nodes(p + q, r),
{
    assert((p + q).drop_last() =~= p);
    assert(q.drop_last() =~= Seq::<(Seq<char>, Seq<char>)>::empty());
    assert(flatten(q.drop_last()) =~= Seq::<Seq<char>>::empty());
    assert(flatten(q) =~= seq![q[0].0, q[0].1]);
    assert(flatten(p + q) =~= flatten(p) + flatten(q));
    match r {
        Ok(v) => {
            assert(p + (q + v) =~= (p + q) + v);
        },
        Err(TspFault::MissingToken(l)) => {
            assert(flatten(p) + (flatten(q) + l) =~= flatten(p + q) + l);
        },
        Err(TspFault::BadIndex(t, l)) => {
            assert(flatten(p) + (flatten(q) + l) =~= flatten(p + q) + l);
        },
        Err(e) => {},
    }
}

fn copy_chars(v: &Vec<char>) -> (r: Vec<char>)
    ensures
        r@ == v@,
{
    let mut r: Vec<char> = Vec::new();
    let mut k: usize = 0;
    while k < v.len()
        invariant
            k <= v@.len(),
            r@ == v@.take(k as int),
        decreases v@.len() - k,
    {
        r.push(v[k]);
        k = k + 1;
        assert(r@ =~= v@.take(k as int));
    }
    assert(v@.take(k as int) =~= v@);
    r
}

/// The coordinate tokens of the nodes read, one after the other, followed
/// by `extra`.
fn flat_coords(out: &Vec<(Vec<char>, Vec<char>)>, extra: Vec<Vec<char>>) -> (r: Vec<Vec<char>>)
    ensures
        tokens_view(r@) == flatten(coords_view(out@)) + tokens_view(extra@),
{
    let mut r: Vec<Vec<char>> = Vec::new();
    let mut k: usize = 0;
    assert(coords_view(out@).take(0) =~= Seq::<(Seq<char>, Seq<char>)>::empty());
    while k < out.len()
        invariant
            k <= out@.len(),
            tokens_view(r@) == flatten(coords_view(out@).take(k as int)),
        decreases out@.len() - k,
    {
        let ghost prev = r@;
        r.push(copy_chars(&out[k].0));
        r.push(copy_chars(&out[k].1));
        k = k + 1;
        let ghost c = coords_view(out@).take(k as int);
        assert(c.drop_last() =~= coords_view(out@).take(k - 1));
        assert(tokens_view(r@) =~= flatten(c.drop_last()) + seq![c.last().0, c.last().1]);
    }
    assert(coords_view(out@).take(k as int) =~= coords_view(out@));
    let ghost before = r@;
    let e = extra;
    let ghost ev = e@;
    let mut k3: usize = 0;
    while k3 < e.len()
        invariant
            k3 <= e@.len(),
            e@ == ev,
            tokens_view(r@) == tokens_view(before) + tokens_view(ev.take(k3 as int)),
        decreases e@.len() - k3,
    {
        let ghost prev = r@;
        let t = copy_chars(&e[k3]);
        r.push(t);
        k3 = k3 + 1;
        assert(ev.take(k3 as int) =~= ev.take(k3 - 1).push(ev[k3 - 1]));
        assert(tokens_view(r@) =~= tokens_view(prev).push(t@));
        assert(tokens_view(ev.take(k3 as int)) =~= tokens_view(ev.take(k3 - 1)).push(ev[k3 - 1]@));
        assert(tokens_view(r@) =~= tokens_view(before) + tokens_view(ev.take(k3 as int)));
    }
    assert(ev.take(k3 as int) =~= ev);
    r
}

/// Reads a TSPLIB text: skips the header, keeping the last `DIMENSION`
/// and checking that the edge weight type is `EUC_2D`, then reads after
/// `NODE_COORD_SECTION` the `index x y` triple of each node and keeps the
/// `x` and `y` tokens.
pub fn read_tsp(sc: &mut Scanner) -> (res: Result<Vec<(Vec<char>, Vec<char>)>, TspError>)
    requires
        old(sc).wf(),
    ensures
        final(sc).wf(),
        tsp_result_view(res) == spec_read_tsp(old(sc).tokens()),
        res is Ok ==> final(sc).tokens() == old(sc).tokens().skip(tsp_len(old(sc).tokens())),
        final(sc).ended() == (old(sc).ended() || tsp_runs_out(old(sc).tokens())),
{
    let ghost toks = sc.tokens();
    let mut dim: usize = 0;
    let ghost mut i: int = 0;
    assert(toks.skip(0) =~= toks);
    loop
        invariant_except_break
            toks == old(sc).tokens(),
            sc.wf(),
            0 <= i <= toks.len(),
            sc.tokens() == toks.skip(i),
            scan_header(toks, 0, 0) == scan_header(toks, i, dim),
            header_runs_out(toks, 0) == header_runs_out(toks, i),
            i < toks.len() ==> sc.ended() == old(sc).ended(),
        ensures
            sc.wf(),
            0 <= i <= toks.len(),
            sc.tokens() == toks.skip(i),
            scan_header(toks, 0, 0) == Ok::<(usize, int), TspFault>((dim, i)),
            sc.ended() == (old(sc).ended() || header_runs_out(toks, 0)),
        decreases toks.len() - i,
    {
        let ghost at = i;
        match sc.next() {
            None => {
                break;
            },
            Some(s) => {
                assert(toks.skip(at).drop_first() =~= toks.skip(at + 1));
                assert(s@ == toks[at]);
                if token_is(&s, "DIMENSION") {
                    let _ = sc.next();
                    proof {
                        if at + 1 < toks.len() {
                            assert(toks.skip(at + 1).drop_first() =~= toks.skip(at + 2));
                        }
                    }
                    assert(at + 1 < toks.len() ==> sc.tokens() == toks.skip(at + 2));
                    assert(at + 1 >= toks.len() ==> sc.tokens().len() == 0);
                    match sc.next() {
                        None => {
                            assert(at + 2 >= toks.len());
                            return Err(TspError::MissingDimension);
                        },
                        Some(v) => {
                            assert(at + 2 < toks.len());
                            assert(toks.skip(at + 2).drop_first() =~= toks.skip(at + 3));
                            assert(v@ == toks[at + 2]);
                            match parse_usize(&v) {
                                None => {
                                    return Err(TspError::BadDimension(v));
                                },
                                Some(d) => {
                                    dim = d;
                                    proof {
                                        i = at + 3;
                                    }
                                },
                            }
                        },
                    }
                } else if token_is(&s, "EDGE_WEIGHT_TYPE") {
                    let _ = sc.next();
                    proof {
                        if at + 1 < toks.len() {
                            assert(toks.skip(at + 1).drop_first() =~= toks.skip(at + 2));
                        }
                    }
                    assert(at + 1 < toks.len() ==> sc.tokens() == toks.skip(at + 2));
                    assert(at + 1 >= toks.len() ==> sc.tokens().len() == 0);
                    match sc.next() {
                        None => {
                            proof {
                                i = toks.len() as int;
                            }
                            assert(toks.skip(i) =~= Seq::<Seq<char>>::empty());
                        },
                        Some(t) => {
                            assert(at + 2 < toks.len());
                            assert(toks.skip(at + 2).drop_first() =~= toks.skip(at + 3));
                            assert(t@ == toks[at + 2]);
                            if !token_is(&t, "EUC_2D") {
                                return Err(TspError::WrongEdgeWeightType(t));
                            }
                            proof {
                                i = at + 3;
                            }
                        },
                    }
                } else if token_is(&s, "NODE_COORD_SECTION") {
                    proof {
                        i = at + 1;
                    }
                    break;
                } else {
                    proof {
                        i = at + 1;
                    }
                }
            },
        }
    }
    let ghost start = i;
    proof {
        if header_runs_out(toks, 0) {
            lemma_header_runs_out(toks, 0, 0);
        }
    }
    let mut out: Vec<(Vec<char>, Vec<char>)> = Vec::new();
    let mut k: usize = 0;
    assert(coords_view(out@) =~= Seq::<(Seq<char>, Seq<char>)>::empty());
    assert(read_nodes(toks, start, dim as nat) == prepend_nodes(
        coords_view(out@),
        read_nodes(toks, start, dim as nat),
    )) by {
        if let Ok(v) = read_nodes(toks, start, dim as nat) {
            assert(coords_view(out@) + v =~= v);
        }
    }
    while k < dim
        invariant
            toks == old(sc).tokens(),
            sc.wf(),
            k <= dim,
            0 <= start + 3 * k <= toks.len(),
            sc.tokens() == toks.skip(start + 3 * k),
            spec_read_tsp(toks) == read_nodes(toks, start, dim as nat),
            scan_header(toks, 0, 0) == Ok::<(usize, int), TspFault>((dim, start)),
            header_runs_out(toks, 0) ==> start == toks.len(),
            sc.ended() == (old(sc).ended() || header_runs_out(toks, 0)),
            read_nodes(toks, start, dim as nat) == prepend_nodes(
                coords_view(out@),
                read_nodes(toks, start + 3 * k, (dim - k) as nat),
            ),
        decreases dim - k,
    {
        let ghost j = start + 3 * k;
        let idx = match sc.next() {
            None => {
                assert(j == toks.len());
                return Err(TspError::MissingToken(flat_coords(&out, Vec::new())));
            },
            Some(t) => t,
        };
        assert(toks.skip(j).drop_first() =~= toks.skip(j + 1));
        assert(idx@ == toks[j]);
        if parse_usize(&idx).is_none() {
            return Err(TspError::BadIndex(idx, flat_coords(&out, Vec::new())));
        }
        let x = match sc.next() {
            None => {
                assert(j + 1 == toks.len());
                return Err(TspError::MissingToken(flat_coords(&out, Vec::new())));
            },
            Some(t) => t,
        };
        assert(toks.skip(j + 1).drop_first() =~= toks.skip(j + 2));
        let y = match sc.next() {
            None => {
                assert(j + 2 == toks.len());
                assert(x@ == toks[j + 1]);
                let mut extra: Vec<Vec<char>> = Vec::new();
                extra.push(x);
                assert(tokens_view(extra@) =~= seq![toks[j + 1]]);
                return Err(TspError::MissingToken(flat_coords(&out, extra)));
            },
            Some(t) => t,
        };
        assert(toks.skip(j + 2).drop_first() =~= toks.skip(j + 3));
        assert(x@ == toks[j + 1]);
        assert(y@ == toks[j + 2]);
        let ghost pair = seq![(toks[j + 1], toks[j + 2])];
        proof {
            lemma_prepend_nodes_assoc(
                coords_view(out@),
                pair,
                read_nodes(toks, j + 3, (dim - k - 1) as nat),
            );
        }
        let ghost prev = out@;
        out.push((x, y));
        assert(coords_view(out@) =~= coords_view(prev) + pair);
        k = k + 1;
    }
    assert(toks.skip(start + 3 * k) == toks.skip(start + 3 * dim));
    Ok(out)
}

/// Whether `t` is one of the header keywords that the reading acts on.
pub open spec fn is_header_keyword(t: Seq<char>) -> bool {
    t == "DIMENSION"@ || t == "EDGE_WEIGHT_TYPE"@ || t == "NODE_COORD_SECTION"@
}

proof fn lemma_scan_header_shift(x: Seq<Seq<char>>, r: Seq<Seq<char>>, j: int, d: usize)
    requires
        0 <= j <= r.len(),
    ensures
        scan_header(x + r, x.len() + j, d) == match scan_header(r, j, d) {
            Ok((dd, st)) => Ok((dd, st + x.len())),
            Err(e) => Err(e),
        },
    decreases r.len() - j,
{
    let t = x + r;
    let i = x.len() + j;
    if j < r.len() {
        assert(t[i] == r[j]);
        if j + 2 < r.len() {
            assert(t[i + 2] == r[j + 2]);
        }
        if r[j] == "DIMENSION"@ {
            if j + 2 < r.len() {
                if let Some(v) = spec_parse_usize(r[j + 2]) {
                    lemma_scan_header_shift(x, r, j + 3, v);
                }
            }
        } else if r[j] == "EDGE_WEIGHT_TYPE"@ {
            if j + 2 < r.len() && r[j + 2] == "EUC_2D"@ {
                lemma_scan_header_shift(x, r, j + 3, d);
            }
        } else if r[j] != "NODE_COORD_SECTION"@ {
            lemma_scan_header_shift(x, r, j + 1, d);
        }
    }
}

proof fn lemma_scan_header_start(r: Seq<Seq<char>>, j: int, d: usize)
    requires
        0 <= j <= r.len(),
    ensures
        scan_header(r, j, d) matches Ok((dd, st)) ==> j <= st <= r.len(),
    decreases r.len() - j,
{
    if j < r.len() {
        if r[j] == "DIMENSION"@ {
            if j + 2 < r.len() {
                if let Some(v) = spec_parse_usize(r[j + 2]) {
                    lemma_scan_header_start(r, j + 3, v);
                }
            }
        } else if r[j] == "EDGE_WEIGHT_TYPE"@ {
            if j + 2 < r.len() && r[j + 2] == "EUC_2D"@ {
                lemma_scan_header_start(r, j + 3, d);
            }
        } else if r[j] != "NODE_COORD_SECTION"@ {
            lemma_scan_header_start(r, j + 1, d);
        }
    }
}

proof fn lemma_read_nodes_shift(x: Seq<Seq<char>>, r: Seq<Seq<char>>, j: int, c: nat)
    requires
        0 <= j,
    ensures
        read_nodes(x + r, x.len() + j, c) == read_nodes(r, j, c),
    decreases c,
{
    let t = x + r;
    let i = x.len() + j;
    if c > 0 && j < r.len() {
        assert(t[i] == r[j]);
        if j + 1 < r.len() {
            assert(t[i + 1] == r[j + 1]);
        }
        if j + 2 < r.len() {
            assert(t[i + 2] == r[j + 2]);
        }
        lemma_read_nodes_shift(x, r, j + 3, (c - 1) as nat);
    }
}

proof fn lemma_read_nodes_not_header_fault(toks: Seq<Seq<char>>, i: int, c: nat)
    ensures
        read_nodes(toks, i, c) is Err ==> read_nodes(toks, i, c)->Err_0 is MissingToken
            || read_nodes(toks, i, c)->Err_0 is BadIndex,
    decreases c,
{
    if c > 0 {
        lemma_read_nodes_not_header_fault(toks, i + 3, (c - 1) as nat);
    }
}

proof fn lemma_scan_header_fault_any_dim(r: Seq<Seq<char>>, j: int, d1: usize, d2: usize)
    requires
        0 <= j <= r.len(),
        scan_header(r, j, d1) is Err,
    ensures
        scan_header(r, j, d2) == scan_header(r, j, d1),
    decreases r.len() - j,
{
    if j < r.len() {
        if r[j] == "DIMENSION"@ {
            if j + 2 < r.len() {
                if let Some(v) = spec_parse_usize(r[j + 2]) {
                    lemma_scan_header_fault_any_dim(r, j + 3, v, v);
                }
            }
        } else if r[j] == "EDGE_WEIGHT_TYPE"@ {
            if j + 2 < r.len() && r[j + 2] == "EUC_2D"@ {
                lemma_scan_header_fault_any_dim(r, j + 3, d1, d2);
            }
        } else if r[j] != "NODE_COORD_SECTION"@ {
            lemma_scan_header_fault_any_dim(r, j + 1, d1, d2);
        }
    }
}

/// A header entry `EDGE_WEIGHT_TYPE <sep> t` with `t` other than `EUC_2D`
/// has the text refused, naming `t`.
pub proof fn lemma_wrong_edge_weight_type(sep: Seq<char>, t: Seq<char>, rest: Seq<Seq<char>>)
    requires
        t != "EUC_2D"@,
    ensures
        spec_read_tsp(seq!["EDGE_WEIGHT_TYPE"@, sep, t] + rest) == Err::<
            Seq<(Seq<char>, Seq<char>)>,
            TspFault,
        >(TspFault::WrongEdgeWeightType(t)),
{
    reveal_strlit("EDGE_WEIGHT_TYPE");
    reveal_strlit("DIMENSION");
    let toks = seq!["EDGE_WEIGHT_TYPE"@, sep, t] + rest;
    assert(toks[0] == "EDGE_WEIGHT_TYPE"@);
    assert(toks[2] == t);
    assert(toks[0] != "DIMENSION"@);
}

/// A header entry `EDGE_WEIGHT_TYPE <sep> EUC_2D` changes nothing that is
/// read.
pub proof fn lemma_euc_2d_accepted(sep: Seq<char>, rest: Seq<Seq<char>>)
    ensures
        spec_read_tsp(seq!["EDGE_WEIGHT_TYPE"@, sep, "EUC_2D"@] + rest) == spec_read_tsp(rest),
{
    reveal_strlit("EDGE_WEIGHT_TYPE");
    reveal_strlit("DIMENSION");
    let x = seq!["EDGE_WEIGHT_TYPE"@, sep, "EUC_2D"@];
    let toks = x + rest;
    assert(toks[0] == "EDGE_WEIGHT_TYPE"@);
    assert(toks[2] == "EUC_2D"@);
    assert(toks[0] != "DIMENSION"@);
    lemma_scan_header_shift(x, rest, 0, 0);
    lemma_scan_header_start(rest, 0, 0);
    if let Ok((d, st)) = scan_header(rest, 0, 0) {
        lemma_read_nodes_shift(x, rest, st, d as nat);
    }
}

/// A token that is no header keyword, in front of a text, changes nothing
/// that is read.
pub proof fn lemma_other_token_skipped(x: Seq<char>, rest: Seq<Seq<char>>)
    requires
        !is_header_keyword(x),
    ensures
        spec_read_tsp(seq![x] + rest) == spec_read_tsp(rest),
{
    let p = seq![x];
    lemma_scan_header_shift(p, rest, 0, 0);
    lemma_scan_header_start(rest, 0, 0);
    assert((p + rest)[0] == x);
    if let Ok((d, st)) = scan_header(rest, 0, 0) {
        lemma_read_nodes_shift(p, rest, st, d as nat);
    }
}

/// A `DIMENSION <sep> v` entry with a number `v` in front of a text whose
/// edge weight type is refused leaves it refused.
pub proof fn lemma_dimension_keeps_refusal(sep: Seq<char>, v: Seq<char>, rest: Seq<Seq<char>>, t: Seq<char>)
    requires
        spec_parse_usize(v) is Some,
        spec_read_tsp(rest) == Err::<Seq<(Seq<char>, Seq<char>)>, TspFault>(
            TspFault::WrongEdgeWeightType(t),
        ),
    ensures
        spec_read_tsp(seq!["DIMENSION"@, sep, v] + rest) == spec_read_tsp(rest),
{
    let x = seq!["DIMENSION"@, sep, v];
    let toks = x + rest;
    assert(toks[0] == "DIMENSION"@);
    assert(toks[2] == v);
    if let Ok((d, st)) = scan_header(rest, 0, 0) {
        lemma_read_nodes_not_header_fault(rest, st, d as nat);
    }
    let n = spec_parse_usize(v).unwrap();
    lemma_scan_header_fault_any_dim(rest, 0, 0, n);
    lemma_scan_header_shift(x, rest, 0, n);
}

/// After `DIMENSION <sep> v` with `v` reading as 1 and
/// `NODE_COORD_SECTION`, a line `i x y` with a number `i` gives the single
/// node `(x, y)`, whatever follows; with `i` not a number the text is
/// refused, naming `i`.
pub proof fn lemma_one_node(
    sep: Seq<char>,
    v: Seq<char>,
    i: Seq<char>,
    x: Seq<char>,
    y: Seq<char>,
    rest: Seq<Seq<char>>,
)
    requires
        spec_parse_usize(v) == Some(1usize),
    ensures
        ({
            let toks = seq!["DIMENSION"@, sep, v, "NODE_COORD_SECTION"@, i, x, y] + rest;
            &&& spec_parse_usize(i) is Some ==> spec_read_tsp(toks) == Ok::<
                Seq<(Seq<char>, Seq<char>)>,
                TspFault,
            >(seq![(x, y)])
            &&& spec_parse_usize(i) is None ==> spec_read_tsp(toks) == Err::<
                Seq<(Seq<char>, Seq<char>)>,
                TspFault,
            >(TspFault::BadIndex(i, seq![]))
        }),
{
    reveal_strlit("DIMENSION");
    reveal_strlit("EDGE_WEIGHT_TYPE");
    reveal_strlit("NODE_COORD_SECTION");
    let toks = seq!["DIMENSION"@, sep, v, "NODE_COORD_SECTION"@, i, x, y] + rest;
    assert(toks[0] == "DIMENSION"@);
    assert(toks[2] == v);
    assert(toks[3] == "NODE_COORD_SECTION"@);
    assert(toks[4] == i && toks[5] == x && toks[6] == y);
    assert(toks[3] != "DIMENSION"@);
    assert(toks[3] != "EDGE_WEIGHT_TYPE"@);
    assert(scan_header(toks, 3, 1) == Ok::<(usize, int), TspFault>((1usize, 4int)));
    assert(read_nodes(toks, 7, 0) == Ok::<Seq<(Seq<char>, Seq<char>)>, TspFault>(seq![]));
    assert(seq![(x, y)] + Seq::<(Seq<char>, Seq<char>)>::empty() =~= seq![(x, y)]);
}

} // verus!
