//! Tours over the nodes `0..n`: the initial tours and the 2-opt move.

use vstd::prelude::*;
use vstd::multiset::Multiset;

verus! {

/// `x` brought into `0..n`, for `x` in `-n..2n`.
pub open spec fn wrap(x: int, n: int) -> int {
    if x < 0 {
        x + n
    } else if x >= n {
        x - n
    } else {
        x
    }
}

proof fn lemma_mod_wrap(x: int, n: int)
    requires
        0 < n,
        0 <= x < 2 * n,
    ensures
        x % n == wrap(x, n),
{
    if x < n {
        vstd::arithmetic::div_mod::lemma_small_mod(x as nat, n as nat);
    } else {
        vstd::arithmetic::div_mod::lemma_mod_sub_multiples_vanish(x, n);
        vstd::arithmetic::div_mod::lemma_small_mod((x - n) as nat, n as nat);
    }
}

/// Whether point `i` comes before point `j` in the order of the points'
/// order keys `(x, y)`, points with equal keys in the order of their
/// numbers (as a stable sort leaves them).
pub open spec fn point_before(keys: Seq<(u64, u64)>, i: int, j: int) -> bool {
    ||| keys[i].0 < keys[j].0
    ||| keys[i].0 == keys[j].0 && keys[i].1 < keys[j].1
    ||| keys[i].0 == keys[j].0 && keys[i].1 == keys[j].1 && i < j
}

/// Whether `order` lists the points numbered `lo..hi` sorted by
/// [`point_before`]. (Listing `hi - lo` of them in strictly increasing order
/// means listing each exactly once.)
pub open spec fn is_sorted_range(keys: Seq<(u64, u64)>, order: Seq<usize>, lo: int, hi: int) -> bool {
    &&& order.len() == hi - lo
    &&& forall|k: int| 0 <= k < order.len() ==> lo <= #[trigger] order[k] < hi
    &&& forall|p: int, q: int|
        0 <= p < q < order.len() ==> point_before(keys, #[trigger] order[p] as int, #[trigger] order[q] as int)
}

/// Whether `order` lists all the points sorted by their order keys `(x, y)`:
/// the tour that goes along the points by increasing `x`.
pub open spec fn is_sorted_order(keys: Seq<(u64, u64)>, order: Seq<usize>) -> bool {
    is_sorted_range(keys, order, 0, keys.len() as int)
}

fn point_before_exec(keys: &Vec<(u64, u64)>, i: usize, j: usize) -> (r: bool)
    requires
        i < keys@.len(),
        j < keys@.len(),
    ensures
        r == point_before(keys@, i as int, j as int),
{
    let (xi, yi) = keys[i];
    let (xj, yj) = keys[j];
    xi < xj || (xi == xj && yi < yj) || (xi == xj && yi == yj && i < j)
}

/// The points numbered `lo..hi` sorted by their order keys (merge sort).
fn sort_range(keys: &Vec<(u64, u64)>, lo: usize, hi: usize) -> (order: Vec<usize>)
    requires
        lo <= hi <= keys@.len(),
    ensures
        is_sorted_range(keys@, order@, lo as int, hi as int),
    decreases hi - lo,
{
    if hi - lo <= 1 {
        let mut order: Vec<usize> = Vec::new();
        if hi - lo == 1 {
            order.push(lo);
        }
        return order;
    }
    let mid = lo + (hi - lo) / 2;
    let left = sort_range(keys, lo, mid);
    let right = sort_range(keys, mid, hi);
    let mut order: Vec<usize> = Vec::new();
    let mut i: usize = 0;
    let mut j: usize = 0;
    while i < left.len() || j < right.len()
        invariant
            lo < mid < hi <= keys@.len(),
            is_sorted_range(keys@, left@, lo as int, mid as int),
            is_sorted_range(keys@, right@, mid as int, hi as int),
            i <= left@.len(),
            j <= right@.len(),
            order@.len() == i + j,
            forall|k: int| 0 <= k < order@.len() ==> lo <= #[trigger] order@[k] < hi,
            forall|p: int, q: int|
                0 <= p < q < order@.len() ==> point_before(
                    keys@,
                    #[trigger] order@[p] as int,
                    #[trigger] order@[q] as int,
                ),
            order@.len() > 0 && i < left@.len() ==> point_before(
                keys@,
                order@.last() as int,
                left@[i as int] as int,
            ),
            order@.len() > 0 && j < right@.len() ==> point_before(
                keys@,
                order@.last() as int,
                right@[j as int] as int,
            ),
        decreases left@.len() + right@.len() - i - j,
    {
        let take_left = if i >= left.len() {
            false
        } else if j >= right.len() {
            true
        } else {
            point_before_exec(keys, left[i], right[j])
        };
        let ghost prev = order@;
        if take_left {
            let x = left[i];
            proof {
                if j < right@.len() && !(i >= left@.len() || j >= right@.len()) {
                    assert(point_before(keys@, x as int, right@[j as int] as int));
                }
            }
            order.push(x);
            i = i + 1;
            proof {
                if i < left@.len() {
                    assert(point_before(keys@, left@[i - 1] as int, left@[i as int] as int));
                }
            }
        } else {
            let x = right[j];
            proof {
                if i < left@.len() {
                    assert(left@[i as int] < mid);
                    assert(x >= mid);
                    assert(!point_before(keys@, left@[i as int] as int, x as int));
                    assert(point_before(keys@, x as int, left@[i as int] as int));
                }
            }
            order.push(x);
            j = j + 1;
            proof {
                if j < right@.len() {
                    assert(point_before(keys@, right@[j - 1] as int, right@[j as int] as int));
                }
            }
        }
        assert forall|p: int, q: int| 0 <= p < q < order@.len() implies point_before(
            keys@,
            #[trigger] order@[p] as int,
            #[trigger] order@[q] as int,
        ) by {
            if q == order@.len() - 1 && p < q {
                assert(order@[p] == prev[p]);
                if p < prev.len() - 1 {
                    assert(point_before(keys@, prev[p] as int, prev.last() as int));
                }
            } else {
                assert(order@[p] == prev[p]);
                assert(order@[q] == prev[q]);
            }
        }
    }
    order
}

/// The tour that goes along the points by increasing `x` (then `y`):
/// the points, given by their order keys, are sorted, and the tour walks
/// from the first in that order to the nearest one not yet used, searching
/// outwards from the current step's place in it.
pub fn group_ord_fast(keys: &Vec<(u64, u64)>) -> (res: Vec<usize>)
    ensures
        is_sorted_order(keys@, res@),
{
    let n = keys.len();
    let points = sort_range(keys, 0, n);
    let mut res: Vec<usize> = vec![0usize; n];
    let mut used: Vec<bool> = vec![false; n];
    let mut cur: usize = 0;
    let mut i: usize = 0;
    while i < n
        invariant_except_break
            i <= n,
            cur == i,
            n == keys@.len(),
            is_sorted_order(keys@, points@),
            res@.len() == n,
            used@.len() == n,
            forall|k: int| 0 <= k < n ==> used@[k] == (k < i),
            forall|k: int| 0 <= k < i ==> res@[k] == points@[k],
        invariant
            res@.len() == n,
        ensures
            res@.len() == n,
            n == keys@.len(),
            is_sorted_order(keys@, points@),
            forall|k: int| 0 <= k < n ==> res@[k] == points@[k],
        decreases n - i,
    {
        used.set(cur, true);
        res.set(i, points[cur]);
        if i == n - 1 {
            break;
        }
        let mut nxt_node: usize = 0;
        let mut neib: usize = 1;
        while neib < n
            invariant_except_break
                neib == 1,
                i + 1 < n,
                used@.len() == n,
                forall|k: int| 0 <= k < n ==> used@[k] == (k <= i),
            ensures
                nxt_node == i + 1,
            decreases n - neib,
        {
            proof {
                lemma_mod_wrap(i + neib, n as int);
            }
            let j = (i + neib) % n;
            if !used[j] {
                nxt_node = j;
                break;
            }
            let j = (i + n - neib) % n;
            if !used[j] {
                nxt_node = j;
                break;
            }
            neib = neib + 1;
        }
        cur = nxt_node;
        i = i + 1;
    }
    assert(res@ =~= points@);
    res
}

/// How many positions a 2-opt move on `a` and `b` rewrites: those from
/// `a + 1` up to `b`, going round the tour.
pub open spec fn segment_len(n: int, a: int, b: int) -> int {
    wrap(b - a, n)
}

/// The position whose entry a 2-opt move on `a` and `b` moves to `p`: the
/// segment from `a + 1` to `b` (cyclically) is reversed, the rest stays.
pub open spec fn two_opt_source(n: int, a: int, b: int, p: int) -> int {
    let k = wrap(p - a - 1, n);
    if k < segment_len(n, a, b) {
        wrap(b - k, n)
    } else {
        p
    }
}

/// The tour `s` after the 2-opt move on positions `a` and `b`.
pub open spec fn two_opt(s: Seq<usize>, a: int, b: int) -> Seq<usize> {
    Seq::new(s.len(), |p: int| s[two_opt_source(s.len() as int, a, b, p)])
}

/// Applies the 2-opt move on positions `a` and `b`: the nodes at positions
/// `a + 1` to `b`, taken round the tour, are put in reverse order, so that
/// `.. ord[a], ord[a+1] .. ord[b], ord[b+1] ..` becomes
/// `.. ord[a], ord[b] .. ord[a+1], ord[b+1] ..`.
pub fn change_2opt(ord: &mut Vec<usize>, a: usize, b: usize)
    requires
        0 < old(ord)@.len(),
        a < old(ord)@.len(),
        b < old(ord)@.len(),
    ensures
        final(ord)@ == two_opt(old(ord)@, a as int, b as int),
{
    let n = ord.len();
    let ghost m = segment_len(n as int, a as int, b as int);
    proof {
        lemma_mod_wrap(a + 1, n as int);
    }
    let mut i = (a + 1) % n;
    let mut rev_i = b;
    let src = ord.clone();
    assert(src@ =~= old(ord)@);
    let ghost mut t: int = 0;
    while rev_i != a
        invariant
            n == ord@.len(),
            0 < n,
            a < n,
            b < n,
            src@ == old(ord)@,
            src@.len() == n,
            m == segment_len(n as int, a as int, b as int),
            0 <= t <= m,
            i == wrap(a + 1 + t, n as int),
            rev_i == wrap(b - t, n as int),
            rev_i == a <==> t == m,
            forall|p: int|
                0 <= p < n ==> #[trigger] ord@[p] == if wrap(p - a - 1, n as int) < t {
                    src@[wrap(b - wrap(p - a - 1, n as int), n as int)]
                } else {
                    src@[p]
                },
        decreases m - t,
    {
        ord.set(i, src[rev_i]);
        proof {
            lemma_mod_wrap(i + 1, n as int);
            t = t + 1;
        }
        // one place back round the tour
        rev_i = if rev_i == 0 {
            n - 1
        } else {
            rev_i - 1
        };
        i = (i + 1) % n;
    }
    assert(ord@ =~= two_opt(old(ord)@, a as int, b as int));
}

/// The move's rearrangement of positions stays within the tour and is its
/// own inverse.
pub proof fn lemma_two_opt_source(n: int, a: int, b: int, p: int)
    requires
        0 <= a < n,
        0 <= b < n,
        0 <= p < n,
    ensures
        0 <= two_opt_source(n, a, b, p) < n,
        two_opt_source(n, a, b, two_opt_source(n, a, b, p)) == p,
{
}

/// Applying the same 2-opt move twice gives the tour back.
pub proof fn lemma_two_opt_twice(s: Seq<usize>, a: int, b: int)
    requires
        0 <= a < s.len(),
        0 <= b < s.len(),
    ensures
        two_opt(two_opt(s, a, b), a, b) == s,
{
    let n = s.len() as int;
    assert forall|p: int| 0 <= p < n implies #[trigger] two_opt(two_opt(s, a, b), a, b)[p] == s[p] by {
        lemma_two_opt_source(n, a, b, p);
    }
    assert(two_opt(two_opt(s, a, b), a, b) =~= s);
}

/// A 2-opt move keeps the tour's nodes: it holds the same nodes as before,
/// and a tour without repeated nodes keeps none.
pub proof fn lemma_two_opt_same_nodes(s: Seq<usize>, a: int, b: int)
    requires
        0 <= a < s.len(),
        0 <= b < s.len(),
    ensures
        forall|v: usize| s.contains(v) <==> two_opt(s, a, b).contains(v),
        s.no_duplicates() ==> two_opt(s, a, b).no_duplicates(),
{
    let n = s.len() as int;
    let t = two_opt(s, a, b);
    assert forall|v: usize| s.contains(v) implies t.contains(v) by {
        let q = choose|q: int| 0 <= q < n && s[q] == v;
        lemma_two_opt_source(n, a, b, q);
        let p = two_opt_source(n, a, b, q);
        assert(t[p] == v);
    }
    assert forall|v: usize| t.contains(v) implies s.contains(v) by {
        let p = choose|p: int| 0 <= p < n && t[p] == v;
        lemma_two_opt_source(n, a, b, p);
        assert(s[two_opt_source(n, a, b, p)] == v);
    }
    if s.no_duplicates() {
        assert forall|p: int, q: int| 0 <= p < n && 0 <= q < n && p != q implies t[p] != t[q] by {
            lemma_two_opt_source(n, a, b, p);
            lemma_two_opt_source(n, a, b, q);
        }
    }
}

/// The move on `a` and `b` (distinct) replaces the tour's edges
/// `(s[a], s[a+1])` and `(s[b], s[b+1])` by `(s[a], s[b])` and
/// `(s[a+1], s[b+1])`: afterwards `s[a]` is followed by `s[b]`, and `s[a+1]`
/// by `s[b+1]`.
pub proof fn lemma_two_opt_exchanges_edges(s: Seq<usize>, a: int, b: int)
    requires
        0 <= a < s.len(),
        0 <= b < s.len(),
        a != b,
    ensures
        ({
            let n = s.len() as int;
            let t = two_opt(s, a, b);
            &&& t[a] == s[a]
            &&& t[wrap(a + 1, n)] == s[b]
            &&& t[b] == s[wrap(a + 1, n)]
            &&& t[wrap(b + 1, n)] == s[wrap(b + 1, n)]
        }),
{
}

/// The nodes at positions `ai`, `bi`, and the positions after them round
/// the tour: the ends of the two edges that a 2-opt move on `ai` and `bi`
/// takes out.
pub fn calc_2opt_nodes(ord: &Vec<usize>, ai: usize, bi: usize) -> (r: (usize, usize, usize, usize))
    requires
        0 < ord@.len(),
        ai < ord@.len(),
        bi < ord@.len(),
    ensures
        ({
            let n = ord@.len() as int;
            r == (ord@[ai as int], ord@[bi as int], ord@[wrap(ai + 1, n)], ord@[wrap(bi + 1, n)])
        }),
{
    let n = ord.len();
    proof {
        lemma_mod_wrap(ai + 1, n as int);
        lemma_mod_wrap(bi + 1, n as int);
    }
    (ord[ai], ord[bi], ord[(ai + 1) % n], ord[(bi + 1) % n])
}

/// The order key of the distance bound `1e18` from which the nearest
/// neighbour search starts: the bit pattern of that `f64`. For distances,
/// which are never negative, the bit patterns order as the numbers do.
pub const INF_KEY: u64 = 0x43ab_c16d_674e_c800;

/// Above this many nodes the nearest-neighbour tour is not built.
pub const GREEDY_LIMIT: usize = 2000;

/// Whether node `j` may come next after the tour `visited`, by the distance
/// keys `row` from its last node: not visited yet, and nearer than the
/// bound.
pub open spec fn is_candidate(row: Seq<u64>, visited: Seq<usize>, j: int) -> bool {
    &&& 0 <= j < row.len()
    &&& !visited.contains(j as usize)
    &&& row[j] < INF_KEY
}

/// Whether `nxt` is the node that the nearest-neighbour rule picks after the
/// tour `visited`, by the distance keys `row` from its last node: the
/// nearest candidate, the one with the lowest number among equally near
/// ones; node 0 where there is no candidate.
pub open spec fn greedy_choice(row: Seq<u64>, visited: Seq<usize>, nxt: usize) -> bool {
    if exists|j: int| is_candidate(row, visited, j) {
        &&& is_candidate(row, visited, nxt as int)
        &&& forall|j: int|
            is_candidate(row, visited, j) ==> row[nxt as int] < row[j] || (row[nxt as int] == row[j]
                && nxt <= j)
    } else {
        nxt == 0
    }
}

/// Whether `tour` is the start of the nearest-neighbour tour of `n` nodes,
/// `rows[i]` holding the distance keys from the node at `tour[i]`: it starts
/// at node 0, and each further node is the rule's pick by the row of the
/// node before it.
pub open spec fn is_greedy_prefix(rows: Seq<Seq<u64>>, n: nat, tour: Seq<usize>) -> bool {
    &&& tour.len() <= n
    &&& n > 0 ==> tour.len() >= 1 && tour[0] == 0 && rows.len() + 1 == tour.len()
    &&& n == 0 ==> tour.len() == 0 && rows.len() == 0
    &&& forall|i: int| 0 <= i < rows.len() ==> (#[trigger] rows[i]).len() == n
    &&& forall|i: int| 1 <= i < tour.len() ==> greedy_choice(rows[i - 1], tour.take(i), #[trigger] tour[i])
}

/// Whether `tour` is the whole nearest-neighbour tour of the `n` nodes.
pub open spec fn is_greedy_tour(rows: Seq<Seq<u64>>, n: nat, tour: Seq<usize>) -> bool {
    is_greedy_prefix(rows, n, tour) && tour.len() == n
}

/// The nearest-neighbour tour from node 0, built one node at a time: the
/// caller hands in, for the node the tour stands at, the distance keys to
/// the nodes not visited yet.
pub struct GreedyTour {
    n: usize,
    tour: Vec<usize>,
    used: Vec<bool>,
    rows: Ghost<Seq<Seq<u64>>>,
}

impl GreedyTour {
    /// The builder's internal consistency.
    pub closed spec fn wf(&self) -> bool {
        &&& self.used@.len() == self.n
        &&& is_greedy_prefix(self.rows@, self.n as nat, self.tour@)
        &&& forall|k: int| 0 <= k < self.n ==> self.used@[k] == self.tour@.contains(k as usize)
        &&& forall|k: int| 0 <= k < self.tour@.len() ==> #[trigger] self.tour@[k] < self.n
    }

    /// How many nodes the tour is to visit.
    pub closed spec fn nodes(&self) -> nat {
        self.n as nat
    }

    /// The tour so far.
    pub closed spec fn tour(&self) -> Seq<usize> {
        self.tour@
    }

    /// The distance keys handed in so far, one row per step.
    pub closed spec fn rows(&self) -> Seq<Seq<u64>> {
        self.rows@
    }

    /// A tour of `n` nodes that stands at node 0 (if there is one).
    pub fn new(n: usize) -> (b: GreedyTour)
        ensures
            b.wf(),
            b.nodes() == n,
            b.tour() == (if n == 0 {
                Seq::<usize>::empty()
            } else {
                seq![0usize]
            }),
            b.rows() == Seq::<Seq<u64>>::empty(),
    {
        let mut tour: Vec<usize> = Vec::new();
        let mut used: Vec<bool> = vec![false; n];
        if n > 0 {
            tour.push(0);
            used.set(0, true);
        }
        let b = GreedyTour { n, tour, used, rows: Ghost(Seq::empty()) };
        assert forall|k: int| 0 <= k < n implies b.used@[k] == b.tour@.contains(k as usize) by {
            if k == 0 && n > 0 {
                assert(b.tour@[0] == 0);
            }
        }
        b
    }

    /// The node the tour stands at, while it is not complete.
    pub fn current(&self) -> (r: Option<usize>)
        requires
            self.wf(),
        ensures
            r == (if self.tour().len() < self.nodes() {
                Some(self.tour().last())
            } else {
                None::<usize>
            }),
    {
        if self.tour.len() < self.n {
            Some(self.tour[self.tour.len() - 1])
        } else {
            None
        }
    }

    /// Whether node `j` is on the tour already.
    pub fn is_visited(&self, j: usize) -> (r: bool)
        requires
            self.wf(),
            j < self.nodes(),
        ensures
            r == self.tour().contains(j),
    {
        self.used[j]
    }

    /// Extends the tour by the rule's pick, `row` holding the distance keys
    /// from the node the tour stands at (those of visited nodes are not
    /// read).
    pub fn step(&mut self, row: &Vec<u64>)
        requires
            old(self).wf(),
            old(self).tour().len() < old(self).nodes(),
            row@.len() == old(self).nodes(),
        ensures
            final(self).wf(),
            final(self).nodes() == old(self).nodes(),
            final(self).rows() == old(self).rows().push(row@),
            final(self).tour().len() == old(self).tour().len() + 1,
            final(self).tour() == old(self).tour().push(final(self).tour().last()),
            greedy_choice(row@, old(self).tour(), final(self).tour().last()),
    {
        let n = self.n;
        let ghost visited = self.tour@;
        let mut min_dist: u64 = INF_KEY;
        let mut nxt_node: usize = 0;
        let mut j: usize = 0;
        while j < n
            invariant
                j <= n,
                n == self.n,
                row@.len() == n,
                self.used@.len() == n,
                visited == self.tour@,
                forall|k: int| 0 <= k < n ==> self.used@[k] == visited.contains(k as usize),
                min_dist <= INF_KEY,
                (exists|k: int| 0 <= k < j && is_candidate(row@, visited, k)) ==> {
                    &&& nxt_node < j
                    &&& is_candidate(row@, visited, nxt_node as int)
                    &&& min_dist == row@[nxt_node as int]
                },
                !(exists|k: int| 0 <= k < j && is_candidate(row@, visited, k)) ==> min_dist
                    == INF_KEY && nxt_node == 0,
                forall|k: int|
                    0 <= k < j && is_candidate(row@, visited, k) ==> min_dist < row@[k] || (
                    min_dist == row@[k] && nxt_node <= k),
            decreases n - j,
        {
            if !self.used[j] {
                let d = row[j];
                if d < min_dist {
                    min_dist = d;
                    nxt_node = j;
                }
            }
            proof {
                if is_candidate(row@, visited, j as int) {
                    assert(exists|k: int| 0 <= k < j + 1 && is_candidate(row@, visited, k));
                }
                if exists|k: int| 0 <= k < j + 1 && is_candidate(row@, visited, k) {
                    if !is_candidate(row@, visited, j as int) {
                        let k = choose|k: int| 0 <= k < j + 1 && is_candidate(row@, visited, k);
                        assert(k < j);
                    }
                }
            }
            j = j + 1;
        }
        assert(greedy_choice(row@, visited, nxt_node));
        proof {
            if !(exists|k: int| is_candidate(row@, visited, k)) {
                assert(n > 0);
            }
        }
        self.tour.push(nxt_node);
        self.used.set(nxt_node, true);
        self.rows = Ghost(self.rows@.push(row@));
        let ghost t = self.tour@;
        assert(t.take(visited.len() as int) =~= visited);
        assert forall|i: int| 1 <= i < t.len() implies greedy_choice(
            self.rows@[i - 1],
            t.take(i),
            #[trigger] t[i],
        ) by {
            if i < t.len() - 1 {
                assert(t.take(i) =~= visited.take(i));
            }
        }
        assert forall|k: int| 0 <= k < n implies self.used@[k] == t.contains(k as usize) by {
            if k == nxt_node {
                assert(t[visited.len() as int] == nxt_node);
            } else if visited.contains(k as usize) {
                let q = choose|q: int| 0 <= q < visited.len() && visited[q] == k as usize;
                assert(t[q] == k as usize);
            } else if t.contains(k as usize) {
                let q = choose|q: int| 0 <= q < t.len() && t[q] == k as usize;
                assert(q < visited.len() ==> visited[q] == k as usize);
            }
        }
    }

    /// The tour built.
    pub fn into_tour(self) -> (r: Vec<usize>)
        requires
            self.wf(),
        ensures
            r@ == self.tour(),
    {
        self.tour
    }
}

/// The start of the initial tour.
pub enum InitialTour {
    /// The tour along the points by increasing `x`, complete.
    Fast(Vec<usize>),
    /// The nearest-neighbour tour, to be built step by step.
    Greedy(GreedyTour),
}

/// Whether the initial tour of `n` nodes is the one along increasing `x`
/// (for more than [`GREEDY_LIMIT`] nodes), so that the points' order keys
/// are needed.
pub fn fast_tour_needed(n: usize) -> (r: bool)
    ensures
        r == (n > GREEDY_LIMIT),
{
    n > GREEDY_LIMIT
}

/// The initial tour of `n` nodes: for more than [`GREEDY_LIMIT`] nodes the
/// tour of [`group_ord_fast`] over the points' order keys; otherwise the
/// nearest-neighbour tour from node 0, to be built with [`GreedyTour::step`].
pub fn group_ord_greedy(n: usize, keys: &Vec<(u64, u64)>) -> (r: InitialTour)
    requires
        n > GREEDY_LIMIT ==> keys@.len() == n,
    ensures
        n > GREEDY_LIMIT ==> (r matches InitialTour::Fast(t) && is_sorted_order(keys@, t@)),
        n <= GREEDY_LIMIT ==> (r matches InitialTour::Greedy(b) && {
            &&& b.wf()
            &&& b.nodes() == n
            &&& b.tour() == (if n == 0 {
                Seq::<usize>::empty()
            } else {
                seq![0usize]
            })
            &&& b.rows() == Seq::<Seq<u64>>::empty()
        }),
{
    if n > GREEDY_LIMIT {
        InitialTour::Fast(group_ord_fast(keys))
    } else {
        InitialTour::Greedy(GreedyTour::new(n))
    }
}

/// A sequence of fewer than `n` distinct nodes below `n` leaves a node
/// below `n` out.
proof fn lemma_node_left_out(s: Seq<usize>, n: nat) -> (j: int)
    requires
        s.no_duplicates(),
        forall|k: int| 0 <= k < s.len() ==> s[k] < n,
        s.len() < n <= usize::MAX,
    ensures
        0 <= j < n,
        !s.contains(j as usize),
    decreases n,
{
    let top = (n - 1) as int;
    if !s.contains(top as usize) {
        top
    } else {
        let q = choose|q: int| 0 <= q < s.len() && s[q] == top as usize;
        let r = s.remove(q);
        assert forall|k: int| 0 <= k < r.len() implies r[k] < n - 1 by {
            if k < q {
                assert(r[k] == s[k]);
            } else {
                assert(r[k] == s[k + 1]);
            }
        }
        assert(r.no_duplicates()) by {
            assert forall|x: int, y: int| 0 <= x < r.len() && 0 <= y < r.len() && x != y implies r[x]
                != r[y] by {
                let sx = if x < q { x } else { x + 1 };
                let sy = if y < q { y } else { y + 1 };
                assert(r[x] == s[sx]);
                assert(r[y] == s[sy]);
            }
        }
        let j = lemma_node_left_out(r, (n - 1) as nat);
        assert(!s.contains(j as usize)) by {
            if s.contains(j as usize) {
                let p = choose|p: int| 0 <= p < s.len() && s[p] == j as usize;
                if p < q {
                    assert(r[p] == j as usize);
                } else {
                    assert(p != q);
                    assert(r[p - 1] == j as usize);
                }
            }
        }
        j
    }
}

proof fn lemma_greedy_prefix(rows: Seq<Seq<u64>>, n: nat, tour: Seq<usize>, i: int)
    requires
        n <= usize::MAX,
        forall|r: int, y: int| 0 <= r < rows.len() && 0 <= y < n ==> #[trigger] rows[r][y] < INF_KEY,
        is_greedy_tour(rows, n, tour),
        0 <= i <= n,
    ensures
        tour.take(i).no_duplicates(),
        forall|k: int| 0 <= k < i ==> tour[k] < n,
    decreases i,
{
    if i > 0 {
        lemma_greedy_prefix(rows, n, tour, i - 1);
        let v = tour.take(i - 1);
        assert(tour.take(i) =~= v.push(tour[i - 1]));
        if i - 1 >= 1 {
            let j = lemma_node_left_out(v, n);
            assert(rows[i - 2][j] < INF_KEY);
            assert(is_candidate(rows[i - 2], v, j));
            assert(greedy_choice(rows[i - 2], v, tour[i - 1]));
        }
        assert(!v.contains(tour[i - 1]));
    }
}

/// When every distance key handed in is below the bound, the
/// nearest-neighbour tour visits each of the `n` nodes exactly once.
pub proof fn lemma_greedy_tour_visits_all(rows: Seq<Seq<u64>>, n: nat, tour: Seq<usize>)
    requires
        n <= usize::MAX,
        forall|r: int, y: int| 0 <= r < rows.len() && 0 <= y < n ==> #[trigger] rows[r][y] < INF_KEY,
        is_greedy_tour(rows, n, tour),
    ensures
        tour.no_duplicates(),
        forall|k: int| 0 <= k < n ==> tour[k] < n,
{
    lemma_greedy_prefix(rows, n, tour, n as int);
    assert(tour.take(n as int) =~= tour);
}

/// In the tour along increasing `x`, a point with a smaller `x` key comes
/// before one with a larger `x` key; of two points with equal `x` keys the
/// one with the smaller `y` key comes first; of two points with equal keys
/// the one with the lower number comes first.
pub proof fn lemma_sorted_order_by_keys(keys: Seq<(u64, u64)>, order: Seq<usize>, p: int, q: int)
    requires
        is_sorted_order(keys, order),
        0 <= p < order.len(),
        0 <= q < order.len(),
    ensures
        keys[order[p] as int].0 < keys[order[q] as int].0 ==> p < q,
        keys[order[p] as int].0 == keys[order[q] as int].0 && keys[order[p] as int].1 < keys[
            order[q] as int].1 ==> p < q,
        keys[order[p] as int] == keys[order[q] as int] && order[p] < order[q] ==> p < q,
{
    if q < p {
        assert(point_before(keys, order[q] as int, order[p] as int));
    }
}

/// The tour along increasing `x` visits each point exactly once.
pub proof fn lemma_sorted_order_visits_all(keys: Seq<(u64, u64)>, order: Seq<usize>)
    requires
        is_sorted_order(keys, order),
    ensures
        order.no_duplicates(),
        forall|k: int| 0 <= k < order.len() ==> order[k] < keys.len(),
{
    assert forall|p: int, q: int| 0 <= p < order.len() && 0 <= q < order.len() && p != q implies order[p] != order[q] by {
        if p < q {
            assert(point_before(keys, order[p] as int, order[q] as int));
        } else {
            assert(point_before(keys, order[q] as int, order[p] as int));
        }
    }
}

/// `g(lo) + g(lo + 1) + ... + g(hi - 1)`.
pub open spec fn range_sum(g: spec_fn(int) -> int, lo: int, hi: int) -> int
    decreases hi - lo,
{
    if lo >= hi {
        0
    } else {
        g(lo) + range_sum(g, lo + 1, hi)
    }
}

proof fn lemma_sum_ext(f: spec_fn(int) -> int, g: spec_fn(int) -> int, lo: int, hi: int)
    requires
        forall|k: int| lo <= k < hi ==> #[trigger] f(k) == g(k),
    ensures
        range_sum(f, lo, hi) == range_sum(g, lo, hi),
    decreases hi - lo,
{
    if lo < hi {
        lemma_sum_ext(f, g, lo + 1, hi);
    }
}

proof fn lemma_sum_one(g: spec_fn(int) -> int, k: int)
    ensures
        range_sum(g, k, k + 1) == g(k),
{
    assert(range_sum(g, k + 1, k + 1) == 0);
}

proof fn lemma_sum_split(g: spec_fn(int) -> int, lo: int, mid: int, hi: int)
    requires
        lo <= mid <= hi,
    ensures
        range_sum(g, lo, hi) == range_sum(g, lo, mid) + range_sum(g, mid, hi),
    decreases mid - lo,
{
    if lo < mid {
        lemma_sum_split(g, lo + 1, mid, hi);
    }
}

proof fn lemma_sum_shift(g: spec_fn(int) -> int, lo: int, hi: int, d: int)
    ensures
        range_sum(|k: int| g(k + d), lo, hi) == range_sum(g, lo + d, hi + d),
    decreases hi - lo,
{
    if lo < hi {
        lemma_sum_shift(g, lo + 1, hi, d);
    }
}

proof fn lemma_sum_reverse(g: spec_fn(int) -> int, lo: int, hi: int)
    ensures
        range_sum(g, lo, hi) == range_sum(|k: int| g(lo + hi - 1 - k), lo, hi),
    decreases hi - lo,
{
    if lo < hi {
        let r = |k: int| g(lo + hi - 1 - k);
        let r2 = |k: int| g(lo + hi - k);
        lemma_sum_reverse(g, lo + 1, hi);
        lemma_sum_ext(|k: int| g((lo + 1) + hi - 1 - k), r2, lo + 1, hi);
        lemma_sum_shift(r2, lo, hi - 1, 1);
        lemma_sum_ext(|k: int| r2(k + 1), r, lo, hi - 1);
        lemma_sum_split(r, lo, hi - 1, hi);
        lemma_sum_one(r, hi - 1);
    }
}

/// Summing over the positions of a cycle of length `n` starting at
/// position `a + 1` gives the same as starting at position 0.
proof fn lemma_sum_rotate(h: spec_fn(int) -> int, n: int, a: int)
    requires
        0 <= a < n,
    ensures
        range_sum(h, 0, n) == range_sum(|k: int| h(wrap(a + 1 + k, n)), 0, n),
{
    let c = a + 1;
    let rk = |k: int| h(wrap(a + 1 + k, n));
    lemma_sum_split(h, 0, c, n);
    lemma_sum_split(rk, 0, n - c, n);
    lemma_sum_ext(rk, |k: int| h(k + c), 0, n - c);
    lemma_sum_shift(h, 0, n - c, c);
    lemma_sum_ext(rk, |k: int| h(k + (c - n)), n - c, n);
    lemma_sum_shift(h, n - c, n, c - n);
}

/// Position `k` of the cycle read from position `a + 1` on.
pub open spec fn cycle_pos(n: int, a: int, k: int) -> int {
    wrap(a + 1 + k, n)
}

proof fn lemma_two_opt_by_cycle_pos(s: Seq<usize>, a: int, b: int, k: int)
    requires
        0 <= a < s.len(),
        0 <= b < s.len(),
        0 <= k < s.len(),
    ensures
        ({
            let n = s.len() as int;
            let m = segment_len(n, a, b);
            two_opt(s, a, b)[cycle_pos(n, a, k)] == if k < m {
                s[cycle_pos(n, a, m - 1 - k)]
            } else {
                s[cycle_pos(n, a, k)]
            }
        }),
{
}

/// 1 at the positions of `s` that hold `v`, 0 elsewhere.
pub open spec fn indicator(s: Seq<usize>, v: usize) -> spec_fn(int) -> int {
    |p: int| if s[p] == v { 1int } else { 0int }
}

/// How often `v` occurs in `s`.
pub open spec fn occurrences(s: Seq<usize>, v: usize) -> int {
    range_sum(indicator(s, v), 0, s.len() as int)
}

proof fn lemma_occurrences_count(s: Seq<usize>, v: usize)
    ensures
        s.to_multiset().count(v) == occurrences(s, v),
    decreases s.len(),
{
    broadcast use vstd::seq_lib::group_to_multiset_ensures;
    broadcast use vstd::multiset::group_multiset_axioms;
    broadcast use vstd::multiset::lemma_multiset_empty_len;

    if s.len() == 0 {
        assert(s.to_multiset() =~= Multiset::<usize>::empty());
    } else {
        let d = s.drop_last();
        lemma_occurrences_count(d, v);
        assert(d.push(s.last()) =~= s);
        assert(d.push(s.last()).to_multiset() =~= d.to_multiset().insert(s.last()));
        assert(s.to_multiset().count(v) == d.to_multiset().count(v) + if s.last() == v { 1int } else { 0int });
        let g = indicator(s, v);
        lemma_sum_split(g, 0, s.len() - 1, s.len() as int);
        lemma_sum_ext(indicator(d, v), g, 0, s.len() - 1);
        lemma_sum_one(g, s.len() - 1);
    }
}

/// A 2-opt move rearranges the tour: every node occurs in it as often as
/// before.
pub proof fn lemma_two_opt_permutes(s: Seq<usize>, a: int, b: int)
    requires
        0 <= a < s.len(),
        0 <= b < s.len(),
    ensures
        two_opt(s, a, b).to_multiset() == s.to_multiset(),
{
    let t = two_opt(s, a, b);
    let n = s.len() as int;
    let m = segment_len(n, a, b);
    assert forall|v: usize| #[trigger] t.to_multiset().count(v) == s.to_multiset().count(v) by {
        lemma_occurrences_count(s, v);
        lemma_occurrences_count(t, v);
        let ind_s = indicator(s, v);
        let ind_t = indicator(t, v);
        let gs = |k: int| ind_s(cycle_pos(n, a, k));
        let gt = |k: int| ind_t(cycle_pos(n, a, k));
        lemma_sum_rotate(ind_s, n, a);
        lemma_sum_rotate(ind_t, n, a);
        lemma_sum_ext(|k: int| ind_s(wrap(a + 1 + k, n)), gs, 0, n);
        lemma_sum_ext(|k: int| ind_t(wrap(a + 1 + k, n)), gt, 0, n);
        lemma_sum_split(gs, 0, m, n);
        lemma_sum_split(gt, 0, m, n);
        assert forall|k: int| 0 <= k < n implies #[trigger] gt(k) == if k < m { gs(m - 1 - k) } else { gs(k) } by {
            lemma_two_opt_by_cycle_pos(s, a, b, k);
        }
        lemma_sum_ext(gt, |k: int| gs(0 + m - 1 - k), 0, m);
        lemma_sum_reverse(gs, 0, m);
        lemma_sum_ext(gt, gs, m, n);
    }
    assert(t.to_multiset() =~= s.to_multiset());
}

/// The length of the closed tour `s` when going from node `x` to node `y`
/// costs `w(x, y)`.
pub open spec fn tour_length(s: Seq<usize>, w: spec_fn(usize, usize) -> int) -> int {
    range_sum(|p: int| w(s[p], s[wrap(p + 1, s.len() as int)]), 0, s.len() as int)
}

/// For any symmetric cost, a 2-opt move on distinct positions `a` and `b`
/// changes the tour's length by exactly what its two new edges cost more
/// than the two it takes out: every other edge stays, up to direction.
pub proof fn lemma_two_opt_length(s: Seq<usize>, a: int, b: int, w: spec_fn(usize, usize) -> int)
    requires
        0 <= a < s.len(),
        0 <= b < s.len(),
        a != b,
        forall|x: usize, y: usize| #[trigger] w(x, y) == w(y, x),
    ensures
        ({
            let n = s.len() as int;
            let a1 = s[wrap(a + 1, n)];
            let b1 = s[wrap(b + 1, n)];
            tour_length(two_opt(s, a, b), w) == tour_length(s, w) - w(s[a], a1) - w(s[b], b1) + w(
                s[a],
                s[b],
            ) + w(a1, b1)
        }),
{
    let t = two_opt(s, a, b);
    let n = s.len() as int;
    let m = segment_len(n, a, b);
    let es = |p: int| w(s[p], s[wrap(p + 1, n)]);
    let et = |p: int| w(t[p], t[wrap(p + 1, n)]);
    let gs = |k: int| es(cycle_pos(n, a, k));
    let gt = |k: int| et(cycle_pos(n, a, k));
    assert(t.len() == n);
    lemma_sum_rotate(es, n, a);
    lemma_sum_rotate(et, n, a);
    lemma_sum_ext(|k: int| es(wrap(a + 1 + k, n)), gs, 0, n);
    lemma_sum_ext(|k: int| et(wrap(a + 1 + k, n)), gt, 0, n);
    assert(1 <= m < n);
    lemma_sum_split(gs, 0, m - 1, n);
    lemma_sum_split(gs, m - 1, m, n);
    lemma_sum_split(gs, m, n - 1, n);
    lemma_sum_split(gt, 0, m - 1, n);
    lemma_sum_split(gt, m - 1, m, n);
    lemma_sum_split(gt, m, n - 1, n);
    lemma_sum_one(gs, m - 1);
    lemma_sum_one(gt, m - 1);
    lemma_sum_one(gs, n - 1);
    lemma_sum_one(gt, n - 1);
    assert forall|k: int| 0 <= k < m - 1 implies #[trigger] gt(k) == gs(0 + (m - 1) - 1 - k) by {
        lemma_two_opt_by_cycle_pos(s, a, b, k);
        lemma_two_opt_by_cycle_pos(s, a, b, k + 1);
        assert(wrap(cycle_pos(n, a, k) + 1, n) == cycle_pos(n, a, k + 1));
        assert(wrap(cycle_pos(n, a, m - 2 - k) + 1, n) == cycle_pos(n, a, m - 1 - k));
    }
    lemma_sum_ext(gt, |k: int| gs(0 + (m - 1) - 1 - k), 0, m - 1);
    lemma_sum_reverse(gs, 0, m - 1);
    assert forall|k: int| m <= k < n - 1 implies #[trigger] gt(k) == gs(k) by {
        lemma_two_opt_by_cycle_pos(s, a, b, k);
        lemma_two_opt_by_cycle_pos(s, a, b, k + 1);
        assert(wrap(cycle_pos(n, a, k) + 1, n) == cycle_pos(n, a, k + 1));
    }
    lemma_sum_ext(gt, gs, m, n - 1);
    lemma_two_opt_by_cycle_pos(s, a, b, m - 1);
    lemma_two_opt_by_cycle_pos(s, a, b, m);
    lemma_two_opt_by_cycle_pos(s, a, b, n - 1);
    lemma_two_opt_by_cycle_pos(s, a, b, 0);
    assert(gt(m - 1) == w(s[wrap(a + 1, n)], s[wrap(b + 1, n)]));
    assert(gs(m - 1) == w(s[b], s[wrap(b + 1, n)]));
    assert(gt(n - 1) == w(s[a], s[b]));
    assert(gs(n - 1) == w(s[a], s[wrap(a + 1, n)]));
}

} // verus!
