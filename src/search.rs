//! Row search: membership, first index and consuming index of the rows of
//! one array among the rows of another.
use vstd::prelude::*;

use crate::array::{
    lemma_row_in, row_count_of, row_len_of, row_of, row_shape_of, seq_matches, slices_match, Array,
    ArrayFlags, ArrayValue,
};
use crate::error::ArrayError;
use crate::shape::{lemma_sub_fits, product, shape_fits};
use crate::windows::coord;

verus! {

/// What a search reports for each row.
#[derive(Debug, Clone, Copy, PartialEq, Eq, Structural)]
pub enum SearchKind {
    /// 1 where the row occurs, else 0.
    Member,
    /// Index of the first matching row, or the row count where none matches.
    IndexOf,
    /// Like `IndexOf`, but each row of the haystack answers at most once.
    Progressive,
}

/// Some row `j < m` of `hd` matches `row`.
pub open spec fn any_match<T: ArrayValue>(row: Seq<T>, hd: Seq<T>, rl: nat, m: nat) -> bool {
    exists|j: int| 0 <= j < m && seq_matches(row, #[trigger] row_of(hd, rl, j))
}

/// The first `j' >= j`, `j' < m`, whose row matches and is not in `used`; `m` if none.
pub open spec fn first_from<T: ArrayValue>(
    row: Seq<T>,
    hd: Seq<T>,
    rl: nat,
    j: nat,
    m: nat,
    used: Set<int>,
) -> nat
    decreases m - j,
{
    if j >= m {
        m
    } else if !used.contains(j as int) && seq_matches(row, row_of(hd, rl, j as int)) {
        j
    } else {
        first_from(row, hd, rl, j + 1, m, used)
    }
}

/// Consuming search of the first `i` rows of `nd`: each result with the set
/// of haystack rows used so far.
pub open spec fn progressive<T: ArrayValue>(
    nd: Seq<T>,
    rln: nat,
    hd: Seq<T>,
    rlh: nat,
    m: nat,
    i: nat,
) -> (Seq<usize>, Set<int>)
    decreases i,
{
    if i == 0 {
        (Seq::empty(), Set::empty())
    } else {
        let (res, used) = progressive(nd, rln, hd, rlh, m, (i - 1) as nat);
        let j = first_from(row_of(nd, rln, i - 1), hd, rlh, 0, m, used);
        (res.push(j as usize), if j < m {
            used.insert(j as int)
        } else {
            used
        })
    }
}

/// Results of a search between arrays of equal rank, one per needle row.
pub open spec fn equal_rank_search<T: ArrayValue>(
    kind: SearchKind,
    ns: Seq<usize>,
    nd: Seq<T>,
    hs: Seq<usize>,
    hd: Seq<T>,
) -> Seq<usize> {
    let n = row_count_of(ns);
    let m = row_count_of(hs);
    let rln = row_len_of(ns);
    let rlh = row_len_of(hs);
    match kind {
        SearchKind::Member => Seq::new(
            n,
            |i: int|
                if any_match(row_of(nd, rln, i), hd, rlh, m) {
                    1usize
                } else {
                    0usize
                },
        ),
        SearchKind::IndexOf => Seq::new(
            n,
            |i: int| first_from(row_of(nd, rln, i), hd, rlh, 0, m, Set::empty()) as usize,
        ),
        SearchKind::Progressive => progressive(nd, rln, hd, rlh, m, n).0,
    }
}

/// Distance between two ranks.
pub open spec fn rank_gap(a: Seq<usize>, b: Seq<usize>) -> nat {
    if a.len() >= b.len() {
        (a.len() - b.len()) as nat
    } else {
        (b.len() - a.len()) as nat
    }
}

/// `hs` ends with `ns`.
pub open spec fn ends_with(hs: Seq<usize>, ns: Seq<usize>) -> bool {
    ns.len() <= hs.len() && hs.skip(hs.len() - ns.len()) == ns
}

/// Results of searching the rows of `nd` (shape `ns`) in `hd` (shape `hs`):
/// a needle of higher rank is searched row by row; a haystack one rank
/// higher is searched for the whole needle; a haystack of still higher rank
/// is searched row by row.
pub open spec fn search_data<T: ArrayValue>(
    kind: SearchKind,
    ns: Seq<usize>,
    nd: Seq<T>,
    hs: Seq<usize>,
    hd: Seq<T>,
) -> Seq<usize>
    decreases rank_gap(ns, hs), 1nat, 0nat,
{
    if ns.len() == hs.len() {
        equal_rank_search(kind, ns, nd, hs, hd)
    } else if ns.len() > hs.len() {
        needle_rows(kind, ns, nd, hs, hd, ns[0] as nat)
    } else if hs.len() == ns.len() + 1 {
        let m = hs[0] as nat;
        let rl = row_len_of(hs);
        match kind {
            SearchKind::Member => seq![
                if any_match(nd, hd, rl, m) {
                    1usize
                } else {
                    0usize
                },
            ],
            _ => seq![first_from(nd, hd, rl, 0, m, Set::empty()) as usize],
        }
    } else {
        hay_rows(kind, ns, nd, hs, hd, hs[0] as nat)
    }
}

/// Results for the first `i` rows of a needle of higher rank.
pub open spec fn needle_rows<T: ArrayValue>(
    kind: SearchKind,
    ns: Seq<usize>,
    nd: Seq<T>,
    hs: Seq<usize>,
    hd: Seq<T>,
    i: nat,
) -> Seq<usize>
    decreases rank_gap(ns, hs), 0nat, i,
{
    if i == 0 || ns.len() <= hs.len() {
        Seq::empty()
    } else {
        needle_rows(kind, ns, nd, hs, hd, (i - 1) as nat) + search_data(
            kind,
            ns.drop_first(),
            row_of(nd, row_len_of(ns), i - 1),
            hs,
            hd,
        )
    }
}

/// Results for the first `i` rows of a haystack of rank two or more above the needle.
pub open spec fn hay_rows<T: ArrayValue>(
    kind: SearchKind,
    ns: Seq<usize>,
    nd: Seq<T>,
    hs: Seq<usize>,
    hd: Seq<T>,
    i: nat,
) -> Seq<usize>
    decreases rank_gap(ns, hs), 0nat, i,
{
    if i == 0 || hs.len() < ns.len() + 2 {
        Seq::empty()
    } else {
        hay_rows(kind, ns, nd, hs, hd, (i - 1) as nat) + search_data(
            kind,
            ns,
            nd,
            hs.drop_first(),
            row_of(hd, row_len_of(hs), i - 1),
        )
    }
}

/// Shape of the results of a search.
pub open spec fn search_shape(ns: Seq<usize>, hs: Seq<usize>) -> Seq<usize>
    decreases rank_gap(ns, hs),
{
    if ns.len() == hs.len() {
        ns.take(if ns.len() == 0 {
            0int
        } else {
            1int
        })
    } else if ns.len() > hs.len() {
        seq![ns[0]] + search_shape(ns.drop_first(), hs)
    } else if hs.len() == ns.len() + 1 {
        Seq::empty()
    } else {
        seq![hs[0]] + search_shape(ns, hs.drop_first())
    }
}

/// The result shape of a search is a prefix of one of the two shapes.
proof fn lemma_search_shape(ns: Seq<usize>, hs: Seq<usize>)
    ensures
        ns.len() >= hs.len() ==> (exists|k: int|
            0 <= k <= ns.len() && search_shape(ns, hs) == #[trigger] ns.take(k)),
        ns.len() < hs.len() ==> (exists|k: int|
            0 <= k <= hs.len() && search_shape(ns, hs) == #[trigger] hs.take(k)),
    decreases rank_gap(ns, hs),
{
    if ns.len() == hs.len() {
        let k: int = if ns.len() == 0 {
            0
        } else {
            1
        };
        assert(search_shape(ns, hs) == ns.take(k));
    } else if ns.len() > hs.len() {
        lemma_search_shape(ns.drop_first(), hs);
        let k = choose|k: int|
            0 <= k <= ns.drop_first().len() && search_shape(ns.drop_first(), hs)
                == #[trigger] ns.drop_first().take(k);
        assert(search_shape(ns, hs) =~= ns.take(k + 1));
    } else if hs.len() == ns.len() + 1 {
        assert(search_shape(ns, hs) =~= hs.take(0));
    } else {
        lemma_search_shape(ns, hs.drop_first());
        let k = choose|k: int|
            0 <= k <= hs.drop_first().len() && search_shape(ns, hs.drop_first())
                == #[trigger] hs.drop_first().take(k);
        assert(search_shape(ns, hs) =~= hs.take(k + 1));
    }
}

/// Results of a search fit their shape.
proof fn lemma_search_len<T: ArrayValue>(
    kind: SearchKind,
    ns: Seq<usize>,
    nd: Seq<T>,
    hs: Seq<usize>,
    hd: Seq<T>,
)
    requires
        product(ns) == nd.len(),
        product(hs) == hd.len(),
    ensures
        search_data(kind, ns, nd, hs, hd).len() == product(search_shape(ns, hs)),
    decreases rank_gap(ns, hs), 1nat, 0nat,
{
    if ns.len() == hs.len() {
        lemma_equal_len(kind, ns, nd, hs, hd);
    } else if ns.len() > hs.len() {
        lemma_needle_rows_len(kind, ns, nd, hs, hd, ns[0] as nat);
        let sh = search_shape(ns, hs);
        assert(sh.drop_first() =~= search_shape(ns.drop_first(), hs));
        assert(sh[0] == ns[0]);
    } else if hs.len() == ns.len() + 1 {
        assert(search_shape(ns, hs) =~= Seq::<usize>::empty());
    } else {
        lemma_hay_rows_len(kind, ns, nd, hs, hd, hs[0] as nat);
        let sh = search_shape(ns, hs);
        assert(sh.drop_first() =~= search_shape(ns, hs.drop_first()));
        assert(sh[0] == hs[0]);
    }
}

proof fn lemma_equal_len<T: ArrayValue>(
    kind: SearchKind,
    ns: Seq<usize>,
    nd: Seq<T>,
    hs: Seq<usize>,
    hd: Seq<T>,
)
    requires
        ns.len() == hs.len(),
    ensures
        search_data(kind, ns, nd, hs, hd).len() == product(search_shape(ns, hs)),
{
    let n = row_count_of(ns);
    if ns.len() == 0 {
        assert(ns.take(0) =~= Seq::<usize>::empty());
    } else {
        assert(ns.take(1).drop_first() =~= Seq::<usize>::empty());
        assert(ns.take(1)[0] == ns[0]);
        assert(product(Seq::<usize>::empty()) == 1);
        let t1 = ns.take(1);
        assert(product(t1) == (t1[0] as nat) * product(t1.drop_first()));
        assert(product(ns.take(1)) == ns[0]);
    }
    if kind == SearchKind::Progressive {
        lemma_progressive_len(nd, row_len_of(ns), hd, row_len_of(hs), row_count_of(hs), n);
    }
}

proof fn lemma_progressive_len<T: ArrayValue>(
    nd: Seq<T>,
    rln: nat,
    hd: Seq<T>,
    rlh: nat,
    m: nat,
    i: nat,
)
    ensures
        progressive(nd, rln, hd, rlh, m, i).0.len() == i,
    decreases i,
{
    if i > 0 {
        lemma_progressive_len(nd, rln, hd, rlh, m, (i - 1) as nat);
    }
}

proof fn lemma_needle_rows_len<T: ArrayValue>(
    kind: SearchKind,
    ns: Seq<usize>,
    nd: Seq<T>,
    hs: Seq<usize>,
    hd: Seq<T>,
    i: nat,
)
    requires
        product(ns) == nd.len(),
        product(hs) == hd.len(),
        ns.len() > hs.len(),
        i <= ns[0],
    ensures
        needle_rows(kind, ns, nd, hs, hd, i).len() == i * product(search_shape(ns.drop_first(), hs)),
    decreases rank_gap(ns, hs), 0nat, i,
{
    let p = product(search_shape(ns.drop_first(), hs));
    if i > 0 {
        lemma_needle_rows_len(kind, ns, nd, hs, hd, (i - 1) as nat);
        lemma_row_in(ns, nd.len(), i - 1);
        lemma_search_len(kind, ns.drop_first(), row_of(nd, row_len_of(ns), i - 1), hs, hd);
        assert(((i - 1) as nat) * p + p == i * p) by (nonlinear_arith)
            requires
                i >= 1,
        ;
    } else {
        assert(0 * p == 0);
    }
}

proof fn lemma_hay_rows_len<T: ArrayValue>(
    kind: SearchKind,
    ns: Seq<usize>,
    nd: Seq<T>,
    hs: Seq<usize>,
    hd: Seq<T>,
    i: nat,
)
    requires
        product(ns) == nd.len(),
        product(hs) == hd.len(),
        hs.len() >= ns.len() + 2,
        i <= hs[0],
    ensures
        hay_rows(kind, ns, nd, hs, hd, i).len() == i * product(search_shape(ns, hs.drop_first())),
    decreases rank_gap(ns, hs), 0nat, i,
{
    let p = product(search_shape(ns, hs.drop_first()));
    if i > 0 {
        lemma_hay_rows_len(kind, ns, nd, hs, hd, (i - 1) as nat);
        lemma_row_in(hs, hd.len(), i - 1);
        lemma_search_len(kind, ns, nd, hs.drop_first(), row_of(hd, row_len_of(hs), i - 1));
        assert(((i - 1) as nat) * p + p == i * p) by (nonlinear_arith)
            requires
                i >= 1,
        ;
    } else {
        assert(0 * p == 0);
    }
}

/// Finds the first row `j >= 0` of `hay` not marked used that matches `row`.
fn find_row<T: ArrayValue>(row: &Vec<T>, hay: &Vec<Vec<T>>, used: &Vec<bool>, ghost_hd: Ghost<Seq<T>>, rl: Ghost<nat>, used_set: Ghost<Set<int>>) -> (r: usize)
    requires
        used@.len() == hay@.len(),
        forall|j: int| 0 <= j < hay@.len() ==> hay@[j]@ == row_of(ghost_hd@, rl@, j),
        forall|j: int| 0 <= j < hay@.len() ==> (used@[j] <==> used_set@.contains(j)),
    ensures
        r == first_from(row@, ghost_hd@, rl@, 0, hay@.len() as nat, used_set@),
{
    let m = hay.len();
    let mut j: usize = 0;
    while j < m
        invariant
            m == hay@.len(),
            used@.len() == m,
            j <= m,
            forall|k: int| 0 <= k < m ==> hay@[k]@ == row_of(ghost_hd@, rl@, k),
            forall|k: int| 0 <= k < m ==> (used@[k] <==> used_set@.contains(k)),
            first_from(row@, ghost_hd@, rl@, 0, m as nat, used_set@) == first_from(
                row@,
                ghost_hd@,
                rl@,
                j as nat,
                m as nat,
                used_set@,
            ),
        decreases m - j,
    {
        if !used[j] && slices_match(row.as_slice(), hay[j].as_slice()) {
            return j;
        }
        j = j + 1;
    }
    m
}

/// The rows of an array as separate buffers.
fn row_buffers<T: ArrayValue>(a: &Array<T>) -> (r: Vec<Vec<T>>)
    requires
        a.wf(),
    ensures
        r@.len() == row_count_of(a.shape@),
        forall|j: int| 0 <= j < r@.len() ==> r@[j]@ == row_of(a.data@, row_len_of(a.shape@), j),
{
    let n = a.row_count();
    let mut out: Vec<Vec<T>> = Vec::new();
    let mut i: usize = 0;
    while i < n
        invariant
            a.wf(),
            n == row_count_of(a.shape@),
            i <= n,
            out@.len() == i,
            forall|j: int| 0 <= j < i ==> out@[j]@ == row_of(a.data@, row_len_of(a.shape@), j),
        decreases n - i,
    {
        out.push(a.row_slice(i));
        i = i + 1;
    }
    out
}

/// Search between arrays of equal rank.
fn equal_rank<T: ArrayValue>(kind: SearchKind, needle: &Array<T>, hay: &Array<T>) -> (r: Vec<usize>)
    requires
        needle.wf(),
        hay.wf(),
        needle.shape@.len() == hay.shape@.len(),
    ensures
        r@ == equal_rank_search(kind, needle.shape@, needle.data@, hay.shape@, hay.data@),
{
    let nrows = row_buffers(needle);
    let hrows = row_buffers(hay);
    let ghost hd = hay.data@;
    let ghost rlh = row_len_of(hay.shape@);
    let ghost rln = row_len_of(needle.shape@);
    let m = hrows.len();
    let n = nrows.len();
    let mut used: Vec<bool> = Vec::new();
    let mut u: usize = 0;
    while u < m
        invariant
            u <= m,
            used@.len() == u,
            forall|k: int| 0 <= k < u ==> !used@[k],
        decreases m - u,
    {
        used.push(false);
        u = u + 1;
    }
    let ghost mut used_set: Set<int> = Set::empty();
    let mut out: Vec<usize> = Vec::new();
    let mut i: usize = 0;
    while i < n
        invariant
            i <= n,
            n == row_count_of(needle.shape@),
            m == row_count_of(hay.shape@),
            nrows@.len() == n,
            hrows@.len() == m,
            used@.len() == m,
            hd == hay.data@,
            rlh == row_len_of(hay.shape@),
            rln == row_len_of(needle.shape@),
            forall|j: int| 0 <= j < n ==> nrows@[j]@ == row_of(needle.data@, rln, j),
            forall|j: int| 0 <= j < m ==> hrows@[j]@ == row_of(hd, rlh, j),
            forall|k: int| 0 <= k < m ==> (used@[k] <==> used_set.contains(k)),
            kind == SearchKind::Progressive ==> out@ == progressive(
                needle.data@,
                rln,
                hd,
                rlh,
                m as nat,
                i as nat,
            ).0 && used_set == progressive(needle.data@, rln, hd, rlh, m as nat, i as nat).1,
            kind != SearchKind::Progressive ==> out@ == equal_rank_search(
                kind,
                needle.shape@,
                needle.data@,
                hay.shape@,
                hay.data@,
            ).subrange(0, i as int),
        decreases n - i,
    {
        match kind {
            SearchKind::Progressive => {
                let j = find_row(&nrows[i], &hrows, &used, Ghost(hd), Ghost(rlh), Ghost(used_set));
                out.push(j);
                if j < m {
                    used.set(j, true);
                    proof {
                        used_set = used_set.insert(j as int);
                    }
                }
            },
            _ => {
                let mut none: Vec<bool> = Vec::new();
                let mut z: usize = 0;
                while z < m
                    invariant
                        z <= m,
                        none@.len() == z,
                        forall|k: int| 0 <= k < z ==> !none@[k],
                    decreases m - z,
                {
                    none.push(false);
                    z = z + 1;
                }
                let j = find_row(&nrows[i], &hrows, &none, Ghost(hd), Ghost(rlh), Ghost(Set::empty()));
                proof {
                    lemma_first_found(nrows@[i as int]@, hd, rlh, 0, m as nat);
                }
                match kind {
                    SearchKind::Member => out.push(
                        if j < m {
                            1
                        } else {
                            0
                        },
                    ),
                    _ => out.push(j),
                }
            },
        }
        i = i + 1;
        proof {
            if kind != SearchKind::Progressive {
                assert(out@ =~= equal_rank_search(
                    kind,
                    needle.shape@,
                    needle.data@,
                    hay.shape@,
                    hay.data@,
                ).subrange(0, i as int));
            }
        }
    }
    proof {
        if kind != SearchKind::Progressive {
            assert(out@ =~= equal_rank_search(
                kind,
                needle.shape@,
                needle.data@,
                hay.shape@,
                hay.data@,
            ));
        }
    }
    out
}

/// Without used rows, the first match is below `m` exactly when some row matches.
pub proof fn lemma_first_found<T: ArrayValue>(row: Seq<T>, hd: Seq<T>, rl: nat, j: nat, m: nat)
    ensures
        first_from(row, hd, rl, j, m, Set::empty()) < m <==> exists|k: int|
            j <= k < m && seq_matches(row, #[trigger] row_of(hd, rl, k)),
        first_from(row, hd, rl, j, m, Set::empty()) <= m,
    decreases m - j,
{
    if j < m {
        lemma_first_found(row, hd, rl, j + 1, m);
        if !seq_matches(row, row_of(hd, rl, j as int)) {
            assert forall|k: int|
                j <= k < m && seq_matches(row, #[trigger] row_of(hd, rl, k)) implies j + 1 <= k by {}
        }
    }
}

impl<T: ArrayValue> Array<T> {
    /// Searches the rows of this array among the rows of `haystack`.
    pub fn search(&self, haystack: &Self, kind: SearchKind) -> (r: Result<Array<usize>, ArrayError>)
        requires
            self.wf(),
            haystack.wf(),
        ensures
            self.shape@.len() < haystack.shape@.len() && !ends_with(haystack.shape@, self.shape@)
                ==> r == Err::<Array<usize>, ArrayError>(ArrayError::ShapeMismatch),
            !(self.shape@.len() < haystack.shape@.len() && !ends_with(
                haystack.shape@,
                self.shape@,
            )) ==> r is Ok && r->Ok_0.wf() && r->Ok_0.shape@ == search_shape(
                self.shape@,
                haystack.shape@,
            ) && r->Ok_0.data@ == search_data(
                kind,
                self.shape@,
                self.data@,
                haystack.shape@,
                haystack.data@,
            ),
        decreases rank_gap(self.shape@, haystack.shape@),
    {
        let nr = self.shape.len();
        let hr = haystack.shape.len();
        if nr < hr {
            if !suffix_eq(&haystack.shape, &self.shape) {
                return Err(ArrayError::ShapeMismatch);
            }
        }
        proof {
            lemma_search_len(kind, self.shape@, self.data@, haystack.shape@, haystack.data@);
            lemma_search_shape(self.shape@, haystack.shape@);
            if nr >= hr {
                let k = choose|k: int|
                    0 <= k <= self.shape@.len() && search_shape(self.shape@, haystack.shape@)
                        == #[trigger] self.shape@.take(k);
                lemma_sub_fits(self.shape@, 0, k);
                assert(self.shape@.subrange(0, k) =~= self.shape@.take(k));
            } else {
                let k = choose|k: int|
                    0 <= k <= haystack.shape@.len() && search_shape(self.shape@, haystack.shape@)
                        == #[trigger] haystack.shape@.take(k);
                lemma_sub_fits(haystack.shape@, 0, k);
                assert(haystack.shape@.subrange(0, k) =~= haystack.shape@.take(k));
            }
        }
        let ghost shape = search_shape(self.shape@, haystack.shape@);
        let ghost want = search_data(kind, self.shape@, self.data@, haystack.shape@, haystack.data@);
        if nr == hr {
            let data = equal_rank(kind, self, haystack);
            let shape_v: Vec<usize> = if nr == 0 {
                Vec::new()
            } else {
                let mut v: Vec<usize> = Vec::new();
                v.push(self.shape[0]);
                v
            };
            assert(shape_v@ =~= shape);
            return Ok(Array::new(shape_v, data));
        }
        if nr > hr {
            let n = self.shape[0];
            let mut data: Vec<usize> = Vec::new();
            let mut i: usize = 0;
            while i < n
                invariant
                    self.wf(),
                    haystack.wf(),
                    nr == self.shape@.len(),
                    hr == haystack.shape@.len(),
                    nr > hr,
                    n == self.shape@[0],
                    i <= n,
                    data@ == needle_rows(
                        kind,
                        self.shape@,
                        self.data@,
                        haystack.shape@,
                        haystack.data@,
                        i as nat,
                    ),
                decreases n - i,
            {
                let row = self.row(i);
                let sub = self.row(i).search(haystack, kind);
                proof {
                    assert(row_shape_of(self.shape@) == self.shape@.drop_first());
                }
                match sub {
                    Ok(a) => {
                        let mut d = a.data;
                        data.append(&mut d);
                    },
                    Err(_) => {
                        proof {
                            assert(false);
                        }
                    },
                }
                i = i + 1;
            }
            let mut shape_v: Vec<usize> = Vec::new();
            shape_v.push(n);
            let mut rest = search_shape_exec(&self.shape, 1, &haystack.shape, 0);
            assert(self.shape@.skip(1) =~= self.shape@.drop_first());
            assert(haystack.shape@.skip(0) =~= haystack.shape@);
            shape_v.append(&mut rest);
            assert(shape_v@ =~= shape);
            return Ok(Array::new(shape_v, data));
        }
        if hr == nr + 1 {
            let rows = row_buffers(haystack);
            let m = rows.len();
            let mut none: Vec<bool> = Vec::new();
            let mut z: usize = 0;
            while z < m
                invariant
                    z <= m,
                    none@.len() == z,
                    forall|k: int| 0 <= k < z ==> !none@[k],
                decreases m - z,
            {
                none.push(false);
                z = z + 1;
            }
            let ghost hd = haystack.data@;
            let ghost rl = row_len_of(haystack.shape@);
            let j = find_row(&self.data, &rows, &none, Ghost(hd), Ghost(rl), Ghost(Set::empty()));
            proof {
                lemma_first_found(self.data@, hd, rl, 0, m as nat);
            }
            let mut data: Vec<usize> = Vec::new();
            match kind {
                SearchKind::Member => data.push(
                    if j < m {
                        1
                    } else {
                        0
                    },
                ),
                _ => data.push(j),
            }
            assert(data@ =~= want);
            return Ok(Array::new(Vec::new(), data));
        }
        let m = haystack.shape[0];
        let mut data: Vec<usize> = Vec::new();
        let mut i: usize = 0;
        while i < m
            invariant
                self.wf(),
                haystack.wf(),
                nr == self.shape@.len(),
                hr == haystack.shape@.len(),
                hr >= nr + 2,
                ends_with(haystack.shape@, self.shape@),
                m == haystack.shape@[0],
                i <= m,
                data@ == hay_rows(
                    kind,
                    self.shape@,
                    self.data@,
                    haystack.shape@,
                    haystack.data@,
                    i as nat,
                ),
            decreases m - i,
        {
            let row = haystack.row(i);
            proof {
                assert(row_shape_of(haystack.shape@) == haystack.shape@.drop_first());
                assert(haystack.shape@.drop_first().skip(
                    haystack.shape@.drop_first().len() - self.shape@.len(),
                ) =~= haystack.shape@.skip(haystack.shape@.len() - self.shape@.len()));
            }
            let sub = self.search(&row, kind);
            match sub {
                Ok(a) => {
                    let mut d = a.data;
                    data.append(&mut d);
                },
                Err(_) => {
                    proof {
                        assert(false);
                    }
                },
            }
            i = i + 1;
        }
        let mut shape_v: Vec<usize> = Vec::new();
        shape_v.push(m);
        let mut rest = search_shape_exec(&self.shape, 0, &haystack.shape, 1);
        assert(haystack.shape@.skip(1) =~= haystack.shape@.drop_first());
        assert(self.shape@.skip(0) =~= self.shape@);
        shape_v.append(&mut rest);
        assert(shape_v@ =~= shape);
        Ok(Array::new(shape_v, data))
    }

    /// 1 for each row of this array that is a row of `of`, else 0; the result
    /// is marked boolean.
    pub fn member(&self, of: &Self) -> (r: Result<Array<usize>, ArrayError>)
        requires
            self.wf(),
            of.wf(),
        ensures
            self.shape@.len() < of.shape@.len() && !ends_with(of.shape@, self.shape@) ==> r
                == Err::<Array<usize>, ArrayError>(ArrayError::ShapeMismatch),
            !(self.shape@.len() < of.shape@.len() && !ends_with(of.shape@, self.shape@)) ==> r is Ok
                && r->Ok_0.wf() && r->Ok_0.shape@ == search_shape(self.shape@, of.shape@)
                && r->Ok_0.data@ == search_data(
                SearchKind::Member,
                self.shape@,
                self.data@,
                of.shape@,
                of.data@,
            ),
            r is Ok ==> r->Ok_0.meta.flags.boolean,
    {
        match self.search(of, SearchKind::Member) {
            Ok(a) => {
                let mut m = a;
                m.meta.flags = ArrayFlags { boolean: true, boolean_literal: false };
                Ok(m)
            },
            Err(e) => Err(e),
        }
    }

    /// For each row of this array, the index of the first equal row of
    /// `haystack`, or its row count where there is none.
    pub fn index_of(&self, haystack: &Self) -> (r: Result<Array<usize>, ArrayError>)
        requires
            self.wf(),
            haystack.wf(),
        ensures
            self.shape@.len() < haystack.shape@.len() && !ends_with(haystack.shape@, self.shape@)
                ==> r == Err::<Array<usize>, ArrayError>(ArrayError::ShapeMismatch),
            !(self.shape@.len() < haystack.shape@.len() && !ends_with(
                haystack.shape@,
                self.shape@,
            )) ==> r is Ok && r->Ok_0.wf() && r->Ok_0.shape@ == search_shape(
                self.shape@,
                haystack.shape@,
            ) && r->Ok_0.data@ == search_data(
                SearchKind::IndexOf,
                self.shape@,
                self.data@,
                haystack.shape@,
                haystack.data@,
            ),
    {
        self.search(haystack, SearchKind::IndexOf)
    }

    /// Like `index_of`, but each row of `searched_in` answers at most one
    /// row of this array, in order.
    pub fn progressive_index_of(&self, searched_in: &Self) -> (r: Result<
        Array<usize>,
        ArrayError,
    >)
        requires
            self.wf(),
            searched_in.wf(),
        ensures
            self.shape@.len() < searched_in.shape@.len() && !ends_with(
                searched_in.shape@,
                self.shape@,
            ) ==> r == Err::<Array<usize>, ArrayError>(ArrayError::ShapeMismatch),
            !(self.shape@.len() < searched_in.shape@.len() && !ends_with(
                searched_in.shape@,
                self.shape@,
            )) ==> r is Ok && r->Ok_0.wf() && r->Ok_0.shape@ == search_shape(
                self.shape@,
                searched_in.shape@,
            ) && r->Ok_0.data@ == search_data(
                SearchKind::Progressive,
                self.shape@,
                self.data@,
                searched_in.shape@,
                searched_in.data@,
            ),
    {
        self.search(searched_in, SearchKind::Progressive)
    }
}

/// Shape of the results of `coordinate`.
pub open spec fn coordinate_shape(ns: Seq<usize>, hs: Seq<usize>) -> Seq<usize>
    decreases rank_gap(ns, hs),
{
    if ns.len() == hs.len() {
        ns.take(if ns.len() == 0 {
            0int
        } else {
            1int
        }) + seq![1usize]
    } else if ns.len() > hs.len() {
        seq![ns[0]] + coordinate_shape(ns.drop_first(), hs)
    } else if hs.len() == ns.len() + 1 {
        Seq::empty()
    } else {
        seq![(hs.len() - ns.len()) as usize]
    }
}

/// Results of `coordinate`: between equal ranks the index of the first
/// matching row; for a needle of higher rank, row by row; for a haystack of
/// higher rank, the coordinates along its outer axes of the first cell equal
/// to the needle, or the outer shape itself where there is none.
pub open spec fn coordinate_data<T: ArrayValue>(
    ns: Seq<usize>,
    nd: Seq<T>,
    hs: Seq<usize>,
    hd: Seq<T>,
) -> Seq<usize>
    decreases rank_gap(ns, hs), 1nat, 0nat,
{
    if ns.len() == hs.len() {
        equal_rank_search(SearchKind::IndexOf, ns, nd, hs, hd)
    } else if ns.len() > hs.len() {
        coordinate_rows(ns, nd, hs, hd, ns[0] as nat)
    } else {
        let outer = hs.take(hs.len() - ns.len());
        let count = product(outer);
        let k = first_from(nd, hd, product(ns), 0, count, Set::empty());
        if k < count {
            Seq::new(outer.len(), |a: int| coord(outer, k as int, a) as usize)
        } else {
            outer
        }
    }
}

/// `coordinate` results for the first `i` rows of a needle of higher rank.
pub open spec fn coordinate_rows<T: ArrayValue>(
    ns: Seq<usize>,
    nd: Seq<T>,
    hs: Seq<usize>,
    hd: Seq<T>,
    i: nat,
) -> Seq<usize>
    decreases rank_gap(ns, hs), 0nat, i,
{
    if i == 0 || ns.len() <= hs.len() {
        Seq::empty()
    } else {
        coordinate_rows(ns, nd, hs, hd, (i - 1) as nat) + coordinate_data(
            ns.drop_first(),
            row_of(nd, row_len_of(ns), i - 1),
            hs,
            hd,
        )
    }
}

/// A needle searched in a haystack of higher rank has elements.
pub open spec fn coordinate_ok(ns: Seq<usize>, hs: Seq<usize>) -> bool
    decreases rank_gap(ns, hs),
{
    if ns.len() > hs.len() {
        coordinate_ok(ns.drop_first(), hs)
    } else if ns.len() < hs.len() {
        ends_with(hs, ns) ==> product(ns) > 0
    } else {
        true
    }
}

proof fn lemma_coordinate_len<T: ArrayValue>(ns: Seq<usize>, nd: Seq<T>, hs: Seq<usize>, hd: Seq<T>)
    requires
        product(ns) == nd.len(),
        product(hs) == hd.len(),
        ns.len() >= hs.len(),
    ensures
        coordinate_data(ns, nd, hs, hd).len() == product(coordinate_shape(ns, hs)),
    decreases rank_gap(ns, hs), 1nat, 0nat,
{
    if ns.len() == hs.len() {
        lemma_equal_len(SearchKind::IndexOf, ns, nd, hs, hd);
        let k: int = if ns.len() == 0 {
            0
        } else {
            1
        };
        crate::shape::lemma_product_concat(ns.take(k), seq![1usize]);
        crate::shape::lemma_product_single(1);
        assert(coordinate_shape(ns, hs) == ns.take(k) + seq![1usize]);
        if ns.len() > 0 {
            let t1 = ns.take(1);
            assert(t1.drop_first() =~= Seq::<usize>::empty());
            assert(product(t1) == (t1[0] as nat) * product(t1.drop_first()));
        } else {
            assert(ns.take(0) =~= Seq::<usize>::empty());
        }
    } else {
        lemma_coordinate_rows_len(ns, nd, hs, hd, ns[0] as nat);
        let sh = coordinate_shape(ns, hs);
        assert(sh.drop_first() =~= coordinate_shape(ns.drop_first(), hs));
        assert(sh[0] == ns[0]);
    }
}

proof fn lemma_coordinate_shape(ns: Seq<usize>, hs: Seq<usize>)
    requires
        ns.len() >= hs.len(),
    ensures
        exists|k: int|
            0 <= k <= ns.len() && coordinate_shape(ns, hs) == #[trigger] ns.take(k) + seq![1usize],
    decreases rank_gap(ns, hs),
{
    if ns.len() == hs.len() {
        let k: int = if ns.len() == 0 {
            0
        } else {
            1
        };
        assert(coordinate_shape(ns, hs) == ns.take(k) + seq![1usize]);
    } else {
        lemma_coordinate_shape(ns.drop_first(), hs);
        let k = choose|k: int|
            0 <= k <= ns.drop_first().len() && coordinate_shape(ns.drop_first(), hs)
                == #[trigger] ns.drop_first().take(k) + seq![1usize];
        assert(coordinate_shape(ns, hs) =~= ns.take(k + 1) + seq![1usize]);
    }
}

proof fn lemma_coordinate_rows_len<T: ArrayValue>(
    ns: Seq<usize>,
    nd: Seq<T>,
    hs: Seq<usize>,
    hd: Seq<T>,
    i: nat,
)
    requires
        product(ns) == nd.len(),
        product(hs) == hd.len(),
        ns.len() > hs.len(),
        i <= ns[0],
    ensures
        coordinate_rows(ns, nd, hs, hd, i).len() == i * product(
            coordinate_shape(ns.drop_first(), hs),
        ),
    decreases rank_gap(ns, hs), 0nat, i,
{
    let p = product(coordinate_shape(ns.drop_first(), hs));
    if i > 0 {
        lemma_coordinate_rows_len(ns, nd, hs, hd, (i - 1) as nat);
        lemma_row_in(ns, nd.len(), i - 1);
        lemma_coordinate_len(ns.drop_first(), row_of(nd, row_len_of(ns), i - 1), hs, hd);
        assert(((i - 1) as nat) * p + p == i * p) by (nonlinear_arith)
            requires
                i >= 1,
        ;
    } else {
        assert(0 * p == 0);
    }
}

impl<T: ArrayValue> Array<T> {
    /// Where the rows of this array occur in `haystack`: indices between equal
    /// ranks, full coordinates along the haystack's outer axes otherwise.
    pub fn coordinate(&self, haystack: &Self) -> (r: Result<Array<usize>, ArrayError>)
        requires
            self.wf(),
            haystack.wf(),
            coordinate_ok(self.shape@, haystack.shape@),
        ensures
            self.shape@.len() < haystack.shape@.len() && !ends_with(haystack.shape@, self.shape@)
                ==> r == Err::<Array<usize>, ArrayError>(ArrayError::ShapeMismatch),
            !(self.shape@.len() < haystack.shape@.len() && !ends_with(
                haystack.shape@,
                self.shape@,
            )) ==> r is Ok && r->Ok_0.wf() && r->Ok_0.shape@ == coordinate_shape(
                self.shape@,
                haystack.shape@,
            ) && r->Ok_0.data@ == coordinate_data(
                self.shape@,
                self.data@,
                haystack.shape@,
                haystack.data@,
            ),
        decreases rank_gap(self.shape@, haystack.shape@),
    {
        let nr = self.shape.len();
        let hr = haystack.shape.len();
        if nr < hr {
            if !suffix_eq(&haystack.shape, &self.shape) {
                return Err(ArrayError::ShapeMismatch);
            }
            return Ok(self.coordinate_outer(haystack));
        }
        proof {
            lemma_coordinate_len(self.shape@, self.data@, haystack.shape@, haystack.data@);
            lemma_coordinate_shape(self.shape@, haystack.shape@);
            let k = choose|k: int|
                0 <= k <= self.shape@.len() && coordinate_shape(self.shape@, haystack.shape@)
                    == #[trigger] self.shape@.take(k) + seq![1usize];
            lemma_sub_fits(self.shape@, 0, k);
            assert(self.shape@.subrange(0, k) =~= self.shape@.take(k));
            crate::shape::lemma_product_concat(self.shape@.take(k), seq![1usize]);
            crate::shape::lemma_product_single(1);
            let one = seq![1usize];
            assert(crate::shape::nz(1usize) == 1);
            assert(crate::shape::nz_product(one) == 1);
            let tk = self.shape@.take(k);
            assert(crate::shape::nz_product(tk + one) == crate::shape::nz_product(tk)
                * crate::shape::nz_product(one));
            assert(shape_fits(self.shape@.take(k)));
            let x = crate::shape::nz_product(tk + one);
            let y = crate::shape::nz_product(tk);
            assert(x <= usize::MAX) by (nonlinear_arith)
                requires
                    x == y * 1,
                    y <= usize::MAX,
            ;
            assert(shape_fits(coordinate_shape(self.shape@, haystack.shape@)));
        }
        let ghost shape = coordinate_shape(self.shape@, haystack.shape@);
        if nr == hr {
            let data = equal_rank(SearchKind::IndexOf, self, haystack);
            let mut shape_v: Vec<usize> = Vec::new();
            if nr > 0 {
                shape_v.push(self.shape[0]);
            }
            shape_v.push(1);
            assert(shape_v@ =~= shape);
            return Ok(Array::new(shape_v, data));
        }
        let n = self.shape[0];
        let mut data: Vec<usize> = Vec::new();
        let mut i: usize = 0;
        while i < n
            invariant
                self.wf(),
                haystack.wf(),
                nr == self.shape@.len(),
                hr == haystack.shape@.len(),
                nr > hr,
                coordinate_ok(self.shape@, haystack.shape@),
                n == self.shape@[0],
                i <= n,
                data@ == coordinate_rows(
                    self.shape@,
                    self.data@,
                    haystack.shape@,
                    haystack.data@,
                    i as nat,
                ),
            decreases n - i,
        {
            let row = self.row(i);
            proof {
                assert(row_shape_of(self.shape@) == self.shape@.drop_first());
            }
            match row.coordinate(haystack) {
                Ok(a) => {
                    let mut d = a.data;
                    data.append(&mut d);
                },
                Err(_) => {
                    proof {
                        assert(false);
                    }
                },
            }
            i = i + 1;
        }
        let mut shape_v: Vec<usize> = Vec::new();
        shape_v.push(n);
        let mut rest = coordinate_shape_exec(&self.shape, 1, &haystack.shape);
        assert(self.shape@.skip(1) =~= self.shape@.drop_first());
        shape_v.append(&mut rest);
        assert(shape_v@ =~= shape);
        Ok(Array::new(shape_v, data))
    }

    /// `coordinate` where the haystack has the higher rank and ends with this
    /// array's shape.
    fn coordinate_outer(&self, haystack: &Self) -> (r: Array<usize>)
        requires
            self.wf(),
            haystack.wf(),
            self.shape@.len() < haystack.shape@.len(),
            ends_with(haystack.shape@, self.shape@),
            product(self.shape@) > 0,
        ensures
            r.wf(),
            r.shape@ == coordinate_shape(self.shape@, haystack.shape@),
            r.data@ == coordinate_data(self.shape@, self.data@, haystack.shape@, haystack.data@),
    {
        let nr = self.shape.len();
        let hr = haystack.shape.len();
        let g = hr - nr;
        let outer = crate::array::copy_range(&haystack.shape, 0, g);
        let il = self.data.len();
        let ghost hs = haystack.shape@;
        proof {
            assert(outer@ =~= hs.take(g as int));
            lemma_sub_fits(hs, 0, g as int);
            assert(hs.subrange(0, g as int) =~= hs.take(g as int));
            crate::shape::lemma_product_split(hs, g as int);
        }
        let count = crate::shape::shape_product(&outer);
        let mut chunks: Vec<Vec<T>> = Vec::new();
        let _hl = haystack.data.len();
        let mut j: usize = 0;
        while j < count
            invariant
                j <= count,
                count * il == haystack.data@.len(),
                haystack.data@.len() <= usize::MAX,
                chunks@.len() == j,
                forall|q: int| 0 <= q < j ==> chunks@[q]@ == row_of(haystack.data@, il as nat, q),
            decreases count - j,
        {
            proof {
                crate::array::lemma_row_bounds(count as nat, il as nat, j as int);
            }
            chunks.push(crate::array::copy_range(&haystack.data, j * il, j * il + il));
            j = j + 1;
        }
        let mut none: Vec<bool> = Vec::new();
        let mut z: usize = 0;
        while z < count
            invariant
                z <= count,
                none@.len() == z,
                forall|q: int| 0 <= q < z ==> !none@[q],
            decreases count - z,
        {
            none.push(false);
            z = z + 1;
        }
        let k = find_row(&self.data, &chunks, &none, Ghost(haystack.data@), Ghost(il as nat), Ghost(Set::empty()));
        let mut data: Vec<usize> = Vec::new();
        if k < count {
            proof {
                crate::windows::lemma_nonzero_dims(outer@);
                crate::find::lemma_stride_pos(outer@);
            }
            let st = crate::windows::strides(&outer);
            let mut a: usize = 0;
            while a < g
                invariant
                    a <= g,
                    g == outer@.len(),
                    k < count,
                    count == product(outer@),
                    st@.len() == g,
                    forall|q: int| 0 <= q < g ==> st@[q] == crate::windows::stride(outer@, q),
                    forall|q: int| 0 <= q < g ==> st@[q] > 0 && outer@[q] > 0,
                    data@.len() == a,
                    forall|q: int| 0 <= q < a ==> data@[q] == coord(outer@, k as int, q) as usize,
                decreases g - a,
            {
                let c = (k / st[a]) % outer[a];
                data.push(c);
                a = a + 1;
            }
        } else {
            data = outer;
        }
        let mut shape_v: Vec<usize> = Vec::new();
        if g > 1 {
            shape_v.push(g);
        }
        proof {
            assert(hs.skip(g as int) =~= self.shape@);
            assert(data@ =~= coordinate_data(self.shape@, self.data@, hs, haystack.data@));
            assert(shape_v@ =~= coordinate_shape(self.shape@, hs));
            crate::shape::lemma_product_single(g);
        }
        Array::new(shape_v, data)
    }
}

/// The shape of `coordinate` results for `ns[a..]` searched in `hs`.
fn coordinate_shape_exec(ns: &Vec<usize>, a: usize, hs: &Vec<usize>) -> (r: Vec<usize>)
    requires
        a <= ns@.len(),
        ns@.len() - a >= hs@.len(),
    ensures
        r@ == coordinate_shape(ns@.skip(a as int), hs@),
    decreases ns@.len() - a,
{
    let ghost n = ns@.skip(a as int);
    if ns.len() - a == hs.len() {
        let mut v: Vec<usize> = Vec::new();
        if ns.len() > a {
            v.push(ns[a]);
        }
        v.push(1);
        assert(v@ =~= coordinate_shape(n, hs@));
        v
    } else {
        let mut v: Vec<usize> = Vec::new();
        v.push(ns[a]);
        let mut rest = coordinate_shape_exec(ns, a + 1, hs);
        assert(ns@.skip(a + 1) =~= n.drop_first());
        v.append(&mut rest);
        assert(v@ =~= coordinate_shape(n, hs@));
        v
    }
}

/// Wherever the needle's rank is at least the haystack's, or one below it,
/// an entry of `member` is 1 exactly where the matching entry of `index_of`
/// is not the haystack's row count.
pub proof fn lemma_member_index_all<T: ArrayValue>(
    ns: Seq<usize>,
    nd: Seq<T>,
    hs: Seq<usize>,
    hd: Seq<T>,
    k: int,
)
    requires
        product(ns) == nd.len(),
        product(hs) == hd.len(),
        ns.len() >= hs.len() || hs.len() == ns.len() + 1,
        0 <= k < search_data(SearchKind::Member, ns, nd, hs, hd).len(),
    ensures
        k < search_data(SearchKind::IndexOf, ns, nd, hs, hd).len(),
        (search_data(SearchKind::Member, ns, nd, hs, hd)[k] == 1) == (search_data(
            SearchKind::IndexOf,
            ns,
            nd,
            hs,
            hd,
        )[k] != row_count_of(hs)),
    decreases rank_gap(ns, hs), 1nat, 0nat,
{
    lemma_search_len(SearchKind::Member, ns, nd, hs, hd);
    lemma_search_len(SearchKind::IndexOf, ns, nd, hs, hd);
    if ns.len() == hs.len() {
        lemma_member_index_agree(ns, nd, hs, hd, k);
    } else if ns.len() > hs.len() {
        lemma_member_index_rows(ns, nd, hs, hd, ns[0] as nat, k);
    } else {
        lemma_first_found(nd, hd, row_len_of(hs), 0, hs[0] as nat);
    }
}

proof fn lemma_member_index_rows<T: ArrayValue>(
    ns: Seq<usize>,
    nd: Seq<T>,
    hs: Seq<usize>,
    hd: Seq<T>,
    i: nat,
    k: int,
)
    requires
        product(ns) == nd.len(),
        product(hs) == hd.len(),
        ns.len() > hs.len(),
        i <= ns[0],
        0 <= k < needle_rows(SearchKind::Member, ns, nd, hs, hd, i).len(),
    ensures
        k < needle_rows(SearchKind::IndexOf, ns, nd, hs, hd, i).len(),
        (needle_rows(SearchKind::Member, ns, nd, hs, hd, i)[k] == 1) == (needle_rows(
            SearchKind::IndexOf,
            ns,
            nd,
            hs,
            hd,
            i,
        )[k] != row_count_of(hs)),
    decreases rank_gap(ns, hs), 0nat, i,
{
    lemma_needle_rows_len(SearchKind::Member, ns, nd, hs, hd, i);
    lemma_needle_rows_len(SearchKind::IndexOf, ns, nd, hs, hd, i);
    if i > 0 {
        let j = (i - 1) as nat;
        lemma_needle_rows_len(SearchKind::Member, ns, nd, hs, hd, j);
        lemma_needle_rows_len(SearchKind::IndexOf, ns, nd, hs, hd, j);
        let p = product(search_shape(ns.drop_first(), hs));
        let prev = j * p;
        if k < prev {
            lemma_member_index_rows(ns, nd, hs, hd, j, k);
        } else {
            lemma_row_in(ns, nd.len(), i - 1);
            let row = row_of(nd, row_len_of(ns), i - 1);
            lemma_search_len(SearchKind::Member, ns.drop_first(), row, hs, hd);
            lemma_member_index_all(ns.drop_first(), row, hs, hd, k - prev);
        }
    }
}

/// Whether `hs` ends with `ns`.
fn suffix_eq(hs: &Vec<usize>, ns: &Vec<usize>) -> (r: bool)
    requires
        ns@.len() <= hs@.len(),
    ensures
        r == ends_with(hs@, ns@),
{
    let off = hs.len() - ns.len();
    let mut i: usize = 0;
    while i < ns.len()
        invariant
            off == hs@.len() - ns@.len(),
            hs@.len() <= usize::MAX,
            i <= ns@.len(),
            forall|k: int| 0 <= k < i ==> hs@[off + k] == ns@[k],
        decreases ns@.len() - i,
    {
        if hs[off + i] != ns[i] {
            proof {
                assert(hs@.skip(off as int)[i as int] != ns@[i as int]);
            }
            return false;
        }
        i = i + 1;
    }
    assert(hs@.skip(off as int) =~= ns@);
    true
}

/// The result shape of a search of `ns[a..]` in `hs[b..]`.
fn search_shape_exec(ns: &Vec<usize>, a: usize, hs: &Vec<usize>, b: usize) -> (r: Vec<usize>)
    requires
        a <= ns@.len(),
        b <= hs@.len(),
    ensures
        r@ == search_shape(ns@.skip(a as int), hs@.skip(b as int)),
    decreases ns@.len() - a + hs@.len() - b,
{
    let ghost n = ns@.skip(a as int);
    let ghost h = hs@.skip(b as int);
    let nl = ns.len() - a;
    let hl = hs.len() - b;
    if nl == hl {
        let mut v: Vec<usize> = Vec::new();
        if nl > 0 {
            v.push(ns[a]);
        }
        assert(v@ =~= search_shape(n, h));
        v
    } else if nl > hl {
        let mut v: Vec<usize> = Vec::new();
        v.push(ns[a]);
        let mut rest = search_shape_exec(ns, a + 1, hs, b);
        assert(ns@.skip(a + 1) =~= n.drop_first());
        v.append(&mut rest);
        assert(v@ =~= search_shape(n, h));
        v
    } else if hl == nl + 1 {
        Vec::new()
    } else {
        let mut v: Vec<usize> = Vec::new();
        v.push(hs[b]);
        let mut rest = search_shape_exec(ns, a, hs, b + 1);
        assert(hs@.skip(b + 1) =~= h.drop_first());
        v.append(&mut rest);
        assert(v@ =~= search_shape(n, h));
        v
    }
}

/// Between arrays of equal rank, a row is a member exactly where its index
/// is not the haystack's row count.
pub proof fn lemma_member_index_agree<T: ArrayValue>(
    ns: Seq<usize>,
    nd: Seq<T>,
    hs: Seq<usize>,
    hd: Seq<T>,
    r: int,
)
    requires
        ns.len() == hs.len(),
        0 <= r < row_count_of(ns),
    ensures
        (search_data(SearchKind::Member, ns, nd, hs, hd)[r] == 1) == (search_data(
            SearchKind::IndexOf,
            ns,
            nd,
            hs,
            hd,
        )[r] != row_count_of(hs)),
{
    let m = row_count_of(hs);
    let row = row_of(nd, row_len_of(ns), r);
    lemma_first_found(row, hd, row_len_of(hs), 0, m);
}

} // verus!
