//! A `SequenceMatcher` over sequences of symbols with difflib's ratio: the longest
//! matching block recursion of Ratcliff/Obershelp with the "popular element"
//! discount on long second sequences.
use std::collections::HashMap;
use vstd::prelude::*;

verus! {

broadcast use vstd::std_specs::hash::group_hash_axioms;

/// A matching block: `a[a_pos..a_pos + size] == b[b_pos..b_pos + size]`.
#[derive(Debug, Clone, Copy, PartialEq, Eq, Structural)]
pub struct Match {
    pub a_pos: usize,
    pub b_pos: usize,
    pub size: usize,
}


/// difflib's ratio as exact counts: `matches` elements of the two sequences
/// (of `len_a` and `len_b` elements) lie in matching blocks.
#[derive(Debug, Clone, Copy, PartialEq, Eq, Structural)]
pub struct Ratio {
    pub matches: usize,
    pub len_a: usize,
    pub len_b: usize,
}

impl Ratio {
    /// The numerator of the ratio: `2 * matches`, or 1 when both sequences are empty.
    pub open spec fn numerator(self) -> int {
        if self.len_a + self.len_b == 0 {
            1
        } else {
            2 * self.matches
        }
    }

    /// The denominator of the ratio: `len_a + len_b`, or 1 when both are empty.
    pub open spec fn denominator(self) -> int {
        if self.len_a + self.len_b == 0 {
            1
        } else {
            self.len_a + self.len_b
        }
    }
}

/// Ascending positions below `n` at which `b` holds `c`.
pub open spec fn positions(b: Seq<usize>, c: usize, n: int) -> Seq<usize>
    decreases n,
{
    if n <= 0 {
        Seq::empty()
    } else {
        let rest = positions(b, c, n - 1);
        if b[n - 1] == c {
            rest.push((n - 1) as usize)
        } else {
            rest
        }
    }
}

/// How often `c` occurs in `b`.
pub open spec fn occurrences(b: Seq<usize>, c: usize) -> nat {
    positions(b, c, b.len() as int).len()
}

/// difflib's autojunk: in a second sequence of `n >= 200` elements, an
/// element occurring more than `n / 100 + 1` times is "popular" and takes no
/// part in the search for matching blocks.
pub open spec fn is_popular(b: Seq<usize>, c: usize) -> bool {
    b.len() >= 200 && occurrences(b, c) > b.len() / 100 + 1
}

/// The index that the matcher keeps of `b`: every element that occurs in `b`
/// and is not popular maps to its positions in `b`, in increasing order.
pub open spec fn index_of_b(m: Map<usize, Vec<usize>>, b: Seq<usize>) -> bool {
    &&& forall|c: usize| #[trigger]
        m.contains_key(c) <==> (occurrences(b, c) > 0 && !is_popular(b, c))
    &&& forall|c: usize|
        m.contains_key(c) ==> (#[trigger] m[c])@ == positions(b, c, b.len() as int)
}

proof fn lemma_positions(b: Seq<usize>, c: usize, n: int)
    requires
        0 <= n <= b.len(),
        b.len() <= usize::MAX,
    ensures
        forall|k: int|
            0 <= k < positions(b, c, n).len() ==> (#[trigger] positions(b, c, n)[k]) < n
                && b[positions(b, c, n)[k] as int] == c,
        forall|k1: int, k2: int|
            0 <= k1 < k2 < positions(b, c, n).len() ==> positions(b, c, n)[k1] < positions(
                b,
                c,
                n,
            )[k2],
        forall|x: int| 0 <= x < n && b[x] == c ==> #[trigger] positions(b, c, n).contains(x as usize),
    decreases n,
{
    if n > 0 {
        lemma_positions(b, c, n - 1);
        let p = positions(b, c, n - 1);
        if b[n - 1] == c {
            assert(positions(b, c, n) == p.push((n - 1) as usize));
            assert forall|x: int| 0 <= x < n && b[x] == c implies #[trigger] positions(
                b,
                c,
                n,
            ).contains(x as usize) by {
                if x < n - 1 {
                    assert(p.contains(x as usize));
                    let k = choose|k: int| 0 <= k < p.len() && p[k] == x as usize;
                    assert(positions(b, c, n)[k] == x as usize);
                } else {
                    assert(positions(b, c, n)[p.len() as int] == x as usize);
                }
            }
        }
    }
}

/// Every element occurring in `b` has a positive occurrence count.
proof fn lemma_occurs(b: Seq<usize>, x: int)
    requires
        0 <= x < b.len(),
        b.len() <= usize::MAX,
    ensures
        occurrences(b, b[x]) > 0,
        positions(b, b[x], b.len() as int).contains(x as usize),
{
    lemma_positions(b, b[x], b.len() as int);
    assert(positions(b, b[x], b.len() as int).contains(x as usize));
}



/// `a[i]` equals `b[j]` and that element is not popular in `b`.
pub open spec fn cell_matches(a: Seq<usize>, b: Seq<usize>, i: int, j: int) -> bool {
    a[i] == b[j] && !is_popular(b, b[j])
}

/// A block of `k` non-popular matching elements starting at `a[i]` and `b[j]`,
/// inside `a[alo..ahi]` and `b[blo..bhi]`.
pub open spec fn np_block(
    a: Seq<usize>,
    b: Seq<usize>,
    alo: int,
    ahi: int,
    blo: int,
    bhi: int,
    i: int,
    j: int,
    k: int,
) -> bool {
    &&& alo <= i && i + k <= ahi && blo <= j && j + k <= bhi && 0 <= k
    &&& forall|t: int| 0 <= t < k ==> #[trigger] cell_matches(a, b, i + t, j + t)
}

/// `(i1, j1)` comes no later than `(i2, j2)`: first by `i`, then by `j`.
pub open spec fn lex_le(i1: int, j1: int, i2: int, j2: int) -> bool {
    i1 < i2 || (i1 == i2 && j1 <= j2)
}

/// `(bi, bj, bk)` is the core that difflib's search finds: the longest block of
/// non-popular matching elements in the ranges, the earliest of the longest
/// ones (first by position in `a`, then in `b`); `(alo, blo, 0)` when none.
pub open spec fn best_core(
    a: Seq<usize>,
    b: Seq<usize>,
    alo: int,
    ahi: int,
    blo: int,
    bhi: int,
    bi: int,
    bj: int,
    bk: int,
) -> bool {
    &&& bk >= 0
    &&& forall|i: int, j: int, k: int| #[trigger] np_block(a, b, alo, ahi, blo, bhi, i, j, k) ==> k <= bk
    &&& bk == 0 ==> bi == alo && bj == blo
    &&& bk > 0 ==> np_block(a, b, alo, ahi, blo, bhi, bi, bj, bk)
    &&& bk > 0 ==> forall|i: int, j: int| #[trigger]
        np_block(a, b, alo, ahi, blo, bhi, i, j, bk) ==> lex_le(bi, bj, i, j)
}

/// The core block of the ranges.
pub open spec fn core_of(
    a: Seq<usize>,
    b: Seq<usize>,
    alo: int,
    ahi: int,
    blo: int,
    bhi: int,
) -> (int, int, int) {
    choose|c: (int, int, int)| best_core(a, b, alo, ahi, blo, bhi, c.0, c.1, c.2)
}

/// How many equal pairs precede `(a[i], b[j])` on their diagonal, above
/// `alo` and `blo`.
pub open spec fn ext_back(a: Seq<usize>, b: Seq<usize>, alo: int, blo: int, i: int, j: int) -> nat
    decreases i,
{
    if alo < i && blo < j && 0 < i <= a.len() && 0 < j <= b.len() && a[i - 1] == b[j - 1] {
        1 + ext_back(a, b, alo, blo, i - 1, j - 1)
    } else {
        0
    }
}

/// How many equal pairs start at `(a[i], b[j])` on their diagonal, below
/// `ahi` and `bhi`.
pub open spec fn ext_fwd(a: Seq<usize>, b: Seq<usize>, ahi: int, bhi: int, i: int, j: int) -> nat
    decreases ahi - i,
{
    if 0 <= i < ahi && 0 <= j < bhi && i < a.len() && j < b.len() && a[i] == b[j] {
        1 + ext_fwd(a, b, ahi, bhi, i + 1, j + 1)
    } else {
        0
    }
}

/// The block that `find_longest_match` returns: the core, extended in both
/// directions over equal elements as far as the ranges allow.
pub open spec fn longest_match(
    a: Seq<usize>,
    b: Seq<usize>,
    alo: int,
    ahi: int,
    blo: int,
    bhi: int,
) -> Match {
    let c = core_of(a, b, alo, ahi, blo, bhi);
    let back = ext_back(a, b, alo, blo, c.0, c.1);
    let fwd = ext_fwd(a, b, ahi, bhi, c.0 + c.2, c.1 + c.2);
    Match { a_pos: (c.0 - back) as usize, b_pos: (c.1 - back) as usize, size: (back + c.2 + fwd) as usize }
}

/// Length of the run of non-popular matching pairs that ends at `(i, j)`,
/// not reaching below `alo` or `blo`.
spec fn run_len(a: Seq<usize>, b: Seq<usize>, alo: int, blo: int, i: int, j: int) -> nat
    decreases i - alo + 1,
{
    if alo <= i < a.len() && blo <= j < b.len() && a[i] == b[j] && !is_popular(b, b[j]) {
        1 + run_len(a, b, alo, blo, i - 1, j - 1)
    } else {
        0
    }
}

proof fn lemma_run_bound(a: Seq<usize>, b: Seq<usize>, alo: int, blo: int, i: int, j: int)
    ensures
        run_len(a, b, alo, blo, i, j) <= if i >= alo { i - alo + 1 } else { 0 },
        run_len(a, b, alo, blo, i, j) <= if j >= blo { j - blo + 1 } else { 0 },
    decreases i - alo + 1,
{
    if alo <= i < a.len() && blo <= j < b.len() && a[i] == b[j] && !is_popular(b, b[j]) {
        lemma_run_bound(a, b, alo, blo, i - 1, j - 1);
    }
}

/// A block ending at `(i + k - 1, j + k - 1)` lies inside the run there.
proof fn lemma_block_run(
    a: Seq<usize>,
    b: Seq<usize>,
    alo: int,
    ahi: int,
    blo: int,
    bhi: int,
    i: int,
    j: int,
    k: int,
)
    requires
        ahi <= a.len(),
        bhi <= b.len(),
        np_block(a, b, alo, ahi, blo, bhi, i, j, k),
        k > 0,
    ensures
        run_len(a, b, alo, blo, i + k - 1, j + k - 1) >= k,
    decreases k,
{
    assert(cell_matches(a, b, i + (k - 1), j + (k - 1)));
    if k > 1 {
        assert forall|t: int| 0 <= t < k - 1 implies #[trigger] cell_matches(a, b, i + t, j + t) by {
            assert(cell_matches(a, b, i + t, j + t));
        }
        lemma_block_run(a, b, alo, ahi, blo, bhi, i, j, k - 1);
    }
}

/// The last `k` pairs of a run of at least `k` form a block.
proof fn lemma_run_block(
    a: Seq<usize>,
    b: Seq<usize>,
    alo: int,
    ahi: int,
    blo: int,
    bhi: int,
    x: int,
    y: int,
    k: int,
)
    requires
        x < ahi,
        y < bhi,
        k > 0,
        run_len(a, b, alo, blo, x, y) >= k,
    ensures
        np_block(a, b, alo, ahi, blo, bhi, x - k + 1, y - k + 1, k),
    decreases k,
{
    if k > 1 {
        lemma_run_block(a, b, alo, ahi, blo, bhi, x - 1, y - 1, k - 1);
        assert forall|t: int| 0 <= t < k implies #[trigger] cell_matches(
            a,
            b,
            x - k + 1 + t,
            y - k + 1 + t,
        ) by {
            if t < k - 1 {
                assert(cell_matches(a, b, (x - 1) - (k - 1) + 1 + t, (y - 1) - (k - 1) + 1 + t));
            }
        }
    } else {
        assert(cell_matches(a, b, x - k + 1 + 0, y - k + 1 + 0));
    }
}

/// There is only one core.
proof fn lemma_core_unique(
    a: Seq<usize>,
    b: Seq<usize>,
    alo: int,
    ahi: int,
    blo: int,
    bhi: int,
    c1: (int, int, int),
    c2: (int, int, int),
)
    requires
        best_core(a, b, alo, ahi, blo, bhi, c1.0, c1.1, c1.2),
        best_core(a, b, alo, ahi, blo, bhi, c2.0, c2.1, c2.2),
    ensures
        c1 == c2,
{
    if c1.2 > 0 {
        assert(np_block(a, b, alo, ahi, blo, bhi, c1.0, c1.1, c1.2));
    }
    if c2.2 > 0 {
        assert(np_block(a, b, alo, ahi, blo, bhi, c2.0, c2.1, c2.2));
    }
}

/// A core that satisfies `best_core` is the one `core_of` names.
proof fn lemma_core_of(
    a: Seq<usize>,
    b: Seq<usize>,
    alo: int,
    ahi: int,
    blo: int,
    bhi: int,
    c: (int, int, int),
)
    requires
        best_core(a, b, alo, ahi, blo, bhi, c.0, c.1, c.2),
    ensures
        core_of(a, b, alo, ahi, blo, bhi) == c,
{
    let d = core_of(a, b, alo, ahi, blo, bhi);
    assert(best_core(a, b, alo, ahi, blo, bhi, d.0, d.1, d.2));
    lemma_core_unique(a, b, alo, ahi, blo, bhi, c, d);
}

/// What the index says of one element.
proof fn lemma_index_lookup(m: Map<usize, Vec<usize>>, b: Seq<usize>, c: usize)
    requires
        index_of_b(m, b),
    ensures
        m.contains_key(c) <==> (occurrences(b, c) > 0 && !is_popular(b, c)),
        m.contains_key(c) ==> m[c]@ == positions(b, c, b.len() as int),
{
}


/// Among the blocks of size `k`, an earliest one exists.
proof fn lemma_earliest_exists(
    a: Seq<usize>,
    b: Seq<usize>,
    alo: int,
    ahi: int,
    blo: int,
    bhi: int,
    k: int,
    i0: int,
    j0: int,
)
    requires
        np_block(a, b, alo, ahi, blo, bhi, i0, j0, k),
    ensures
        exists|bi: int, bj: int|
            np_block(a, b, alo, ahi, blo, bhi, bi, bj, k) && (forall|i: int, j: int| #[trigger]
                np_block(a, b, alo, ahi, blo, bhi, i, j, k) ==> lex_le(bi, bj, i, j)),
    decreases i0 - alo, j0 - blo,
{
    if forall|i: int, j: int| #[trigger]
        np_block(a, b, alo, ahi, blo, bhi, i, j, k) ==> lex_le(i0, j0, i, j) {
    } else {
        let (i1, j1) = choose|i: int, j: int|
            #[trigger] np_block(a, b, alo, ahi, blo, bhi, i, j, k) && !lex_le(i0, j0, i, j);
        lemma_earliest_exists(a, b, alo, ahi, blo, bhi, k, i1, j1);
    }
}

/// Among the blocks, a longest one exists.
proof fn lemma_longest_exists(
    a: Seq<usize>,
    b: Seq<usize>,
    alo: int,
    ahi: int,
    blo: int,
    bhi: int,
    i0: int,
    j0: int,
    k0: int,
)
    requires
        np_block(a, b, alo, ahi, blo, bhi, i0, j0, k0),
    ensures
        exists|bi: int, bj: int, bk: int|
            np_block(a, b, alo, ahi, blo, bhi, bi, bj, bk) && (forall|i: int, j: int, k: int|
                #[trigger] np_block(a, b, alo, ahi, blo, bhi, i, j, k) ==> k <= bk),
    decreases ahi - alo - k0,
{
    if forall|i: int, j: int, k: int| #[trigger]
        np_block(a, b, alo, ahi, blo, bhi, i, j, k) ==> k <= k0 {
    } else {
        let (i1, j1, k1) = choose|i: int, j: int, k: int|
            #[trigger] np_block(a, b, alo, ahi, blo, bhi, i, j, k) && k > k0;
        lemma_longest_exists(a, b, alo, ahi, blo, bhi, i1, j1, k1);
    }
}

/// Every pair of ranges has a core.
proof fn lemma_core_exists(a: Seq<usize>, b: Seq<usize>, alo: int, ahi: int, blo: int, bhi: int)
    ensures
        best_core(
            a,
            b,
            alo,
            ahi,
            blo,
            bhi,
            core_of(a, b, alo, ahi, blo, bhi).0,
            core_of(a, b, alo, ahi, blo, bhi).1,
            core_of(a, b, alo, ahi, blo, bhi).2,
        ),
{
    if alo <= ahi && blo <= bhi {
        assert(np_block(a, b, alo, ahi, blo, bhi, alo, blo, 0));
        lemma_longest_exists(a, b, alo, ahi, blo, bhi, alo, blo, 0);
        let (i1, j1, k) = choose|bi: int, bj: int, bk: int|
            np_block(a, b, alo, ahi, blo, bhi, bi, bj, bk) && (forall|i: int, j: int, k: int|
                #[trigger] np_block(a, b, alo, ahi, blo, bhi, i, j, k) ==> k <= bk);
        if k > 0 {
            lemma_earliest_exists(a, b, alo, ahi, blo, bhi, k, i1, j1);
            let (bi, bj) = choose|bi: int, bj: int|
                np_block(a, b, alo, ahi, blo, bhi, bi, bj, k) && (forall|i: int, j: int| #[trigger]
                    np_block(a, b, alo, ahi, blo, bhi, i, j, k) ==> lex_le(bi, bj, i, j));
            assert(best_core(a, b, alo, ahi, blo, bhi, bi, bj, k));
            lemma_core_of(a, b, alo, ahi, blo, bhi, (bi, bj, k));
        } else {
            assert(best_core(a, b, alo, ahi, blo, bhi, alo, blo, 0));
            lemma_core_of(a, b, alo, ahi, blo, bhi, (alo, blo, 0));
        }
    } else {
        assert(best_core(a, b, alo, ahi, blo, bhi, alo, blo, 0));
        lemma_core_of(a, b, alo, ahi, blo, bhi, (alo, blo, 0));
    }
}

proof fn lemma_ext_back(a: Seq<usize>, b: Seq<usize>, alo: int, blo: int, i: int, j: int)
    ensures
        ext_back(a, b, alo, blo, i, j) <= if i > alo { i - alo } else { 0 },
        ext_back(a, b, alo, blo, i, j) <= if j > blo { j - blo } else { 0 },
        forall|t: int|
            0 <= t < ext_back(a, b, alo, blo, i, j) ==> 0 <= #[trigger] (i - ext_back(a, b, alo, blo, i, j) + t) < a.len()
                && 0 <= j - ext_back(a, b, alo, blo, i, j) + t < b.len() && a[i - ext_back(
                a,
                b,
                alo,
                blo,
                i,
                j,
            ) + t] == b[j - ext_back(a, b, alo, blo, i, j) + t],
    decreases i,
{
    if alo < i && blo < j && 0 < i <= a.len() && 0 < j <= b.len() && a[i - 1] == b[j - 1] {
        lemma_ext_back(a, b, alo, blo, i - 1, j - 1);
        let e = ext_back(a, b, alo, blo, i - 1, j - 1);
        assert forall|t: int| 0 <= t < e + 1 implies 0 <= #[trigger] (i - (e + 1) + t) < a.len()
            && 0 <= j - (e + 1) + t < b.len() && a[i - (e + 1) + t] == b[j - (e + 1) + t] by {
            if t < e {
                assert(0 <= ((i - 1) - e + t) < a.len());
            }
        }
    }
}

proof fn lemma_ext_fwd(a: Seq<usize>, b: Seq<usize>, ahi: int, bhi: int, i: int, j: int)
    requires
        0 <= i,
        0 <= j,
    ensures
        i + ext_fwd(a, b, ahi, bhi, i, j) <= if i < ahi { ahi } else { i },
        j + ext_fwd(a, b, ahi, bhi, i, j) <= if j < bhi { bhi } else { j },
        forall|t: int|
            0 <= t < ext_fwd(a, b, ahi, bhi, i, j) ==> #[trigger] (i + t) < a.len() && j + t < b.len()
                && a[i + t] == b[j + t],
    decreases ahi - i,
{
    if 0 <= i < ahi && 0 <= j < bhi && i < a.len() && j < b.len() && a[i] == b[j] {
        lemma_ext_fwd(a, b, ahi, bhi, i + 1, j + 1);
        let e = ext_fwd(a, b, ahi, bhi, i + 1, j + 1);
        assert forall|t: int| 0 <= t < e + 1 implies #[trigger] (i + t) < a.len() && j + t < b.len()
            && a[i + t] == b[j + t] by {
            if t > 0 {
                assert((i + 1) + (t - 1) < a.len());
            }
        }
    }
}

/// The block `longest_match` names lies in the ranges, and its elements match.
pub proof fn lemma_longest_match(a: Seq<usize>, b: Seq<usize>, alo: int, ahi: int, blo: int, bhi: int)
    requires
        0 <= alo <= ahi <= a.len(),
        0 <= blo <= bhi <= b.len(),
        a.len() <= usize::MAX,
        b.len() <= usize::MAX,
    ensures
        alo <= longest_match(a, b, alo, ahi, blo, bhi).a_pos,
        longest_match(a, b, alo, ahi, blo, bhi).a_pos + longest_match(a, b, alo, ahi, blo, bhi).size <= ahi,
        blo <= longest_match(a, b, alo, ahi, blo, bhi).b_pos,
        longest_match(a, b, alo, ahi, blo, bhi).b_pos + longest_match(a, b, alo, ahi, blo, bhi).size <= bhi,
        forall|t: int|
            0 <= t < longest_match(a, b, alo, ahi, blo, bhi).size ==> a[longest_match(a, b, alo, ahi, blo, bhi).a_pos + t]
                == b[#[trigger] (longest_match(a, b, alo, ahi, blo, bhi).b_pos + t)],
        alo == ahi ==> longest_match(a, b, alo, ahi, blo, bhi).size == 0,
{
    lemma_core_exists(a, b, alo, ahi, blo, bhi);
    let c = core_of(a, b, alo, ahi, blo, bhi);
    lemma_ext_back(a, b, alo, blo, c.0, c.1);
    lemma_ext_fwd(a, b, ahi, bhi, c.0 + c.2, c.1 + c.2);
    let back = ext_back(a, b, alo, blo, c.0, c.1);
    let fwd = ext_fwd(a, b, ahi, bhi, c.0 + c.2, c.1 + c.2);
    let m = longest_match(a, b, alo, ahi, blo, bhi);
    assert(m.a_pos == c.0 - back && m.b_pos == c.1 - back && m.size == back + c.2 + fwd);
    assert forall|t: int| 0 <= t < m.size implies a[m.a_pos + t] == b[#[trigger] (m.b_pos + t)] by {
        if t < back {
            assert(0 <= #[trigger] (c.0 - back + t) < a.len());
        } else if t < back + c.2 {
            assert(cell_matches(a, b, c.0 + (t - back), c.1 + (t - back)));
        } else {
            assert(#[trigger] ((c.0 + c.2) + (t - back - c.2)) < a.len());
        }
    }
}


/// difflib's matching blocks of `a[alo..ahi]` and `b[blo..bhi]`, in order:
/// the longest match, with the blocks of the ranges to its left and right.
pub open spec fn blocks_in(a: Seq<usize>, b: Seq<usize>, alo: int, ahi: int, blo: int, bhi: int) -> Seq<
    Match,
>
    decreases ahi - alo,
{
    let m = longest_match(a, b, alo, ahi, blo, bhi);
    if m.size > 0 && alo <= m.a_pos && m.a_pos + m.size <= ahi && blo <= m.b_pos && m.b_pos
        + m.size <= bhi {
        blocks_in(a, b, alo, m.a_pos as int, blo, m.b_pos as int) + seq![m] + blocks_in(
            a,
            b,
            m.a_pos + m.size,
            ahi,
            m.b_pos + m.size,
            bhi,
        )
    } else {
        Seq::empty()
    }
}

/// The sum of the sizes of the blocks.
pub open spec fn total_size(s: Seq<Match>) -> int
    decreases s.len(),
{
    if s.len() == 0 {
        0
    } else {
        total_size(s.drop_last()) + s.last().size
    }
}

/// Join each block to the previous one when it continues it in both sequences.
pub open spec fn merge_adjacent(s: Seq<Match>) -> Seq<Match>
    decreases s.len(),
{
    if s.len() == 0 {
        s
    } else {
        let prev = merge_adjacent(s.drop_last());
        let m = s.last();
        if prev.len() > 0 && prev.last().a_pos + prev.last().size == m.a_pos && prev.last().b_pos
            + prev.last().size == m.b_pos {
            prev.drop_last().push(
                Match {
                    a_pos: prev.last().a_pos,
                    b_pos: prev.last().b_pos,
                    size: (prev.last().size + m.size) as usize,
                },
            )
        } else {
            prev.push(m)
        }
    }
}

/// What `get_matching_blocks` returns for `a` and `b`.
pub open spec fn matching_blocks(a: Seq<usize>, b: Seq<usize>) -> Seq<Match> {
    merge_adjacent(blocks_in(a, b, 0, a.len() as int, 0, b.len() as int))
}

/// How many elements the matching blocks of `a` and `b` cover.
pub open spec fn matched_count(a: Seq<usize>, b: Seq<usize>) -> int {
    total_size(matching_blocks(a, b))
}

/// The blocks are non-empty matches inside the ranges, in increasing order
/// in both sequences and without overlap; together they cover no more than
/// either range.
pub proof fn lemma_blocks_in(a: Seq<usize>, b: Seq<usize>, alo: int, ahi: int, blo: int, bhi: int)
    requires
        0 <= alo <= ahi <= a.len(),
        0 <= blo <= bhi <= b.len(),
        a.len() <= usize::MAX,
        b.len() <= usize::MAX,
    ensures
        forall|k: int|
            0 <= k < blocks_in(a, b, alo, ahi, blo, bhi).len() ==> {
                let m = #[trigger] blocks_in(a, b, alo, ahi, blo, bhi)[k];
                &&& m.size > 0
                &&& alo <= m.a_pos && m.a_pos + m.size <= ahi
                &&& blo <= m.b_pos && m.b_pos + m.size <= bhi
                &&& forall|t: int| 0 <= t < m.size ==> a[m.a_pos + t] == b[#[trigger] (m.b_pos + t)]
            },
        forall|k1: int, k2: int|
            0 <= k1 < k2 < blocks_in(a, b, alo, ahi, blo, bhi).len() ==> #[trigger] blocks_in(
                a,
                b,
                alo,
                ahi,
                blo,
                bhi,
            )[k1].a_pos + blocks_in(a, b, alo, ahi, blo, bhi)[k1].size <= #[trigger] blocks_in(
                a,
                b,
                alo,
                ahi,
                blo,
                bhi,
            )[k2].a_pos && blocks_in(a, b, alo, ahi, blo, bhi)[k1].b_pos + blocks_in(
                a,
                b,
                alo,
                ahi,
                blo,
                bhi,
            )[k1].size <= blocks_in(a, b, alo, ahi, blo, bhi)[k2].b_pos,
        total_size(blocks_in(a, b, alo, ahi, blo, bhi)) <= ahi - alo,
        total_size(blocks_in(a, b, alo, ahi, blo, bhi)) <= bhi - blo,
        alo == ahi ==> blocks_in(a, b, alo, ahi, blo, bhi).len() == 0,
    decreases ahi - alo,
{
    lemma_longest_match(a, b, alo, ahi, blo, bhi);
    let m = longest_match(a, b, alo, ahi, blo, bhi);
    if m.size > 0 {
        let l = blocks_in(a, b, alo, m.a_pos as int, blo, m.b_pos as int);
        let r = blocks_in(a, b, m.a_pos + m.size, ahi, m.b_pos + m.size, bhi);
        lemma_blocks_in(a, b, alo, m.a_pos as int, blo, m.b_pos as int);
        lemma_blocks_in(a, b, m.a_pos + m.size, ahi, m.b_pos + m.size, bhi);
        let s = blocks_in(a, b, alo, ahi, blo, bhi);
        assert(s == l + seq![m] + r);
        lemma_total_size_concat(l + seq![m], r);
        lemma_total_size_concat(l, seq![m]);
        assert(total_size(seq![m]) == m.size) by {
            assert(seq![m].drop_last() == Seq::<Match>::empty());
            assert(total_size(Seq::<Match>::empty()) == 0);
        }
        assert forall|k: int| 0 <= k < s.len() implies {
            let x = #[trigger] s[k];
            &&& x.size > 0
            &&& alo <= x.a_pos && x.a_pos + x.size <= ahi
            &&& blo <= x.b_pos && x.b_pos + x.size <= bhi
            &&& forall|t: int| 0 <= t < x.size ==> a[x.a_pos + t] == b[#[trigger] (x.b_pos + t)]
        } by {
            if k < l.len() {
                assert(s[k] == l[k]);
            } else if k == l.len() {
            } else {
                assert(s[k] == r[k - l.len() - 1]);
            }
        }
        assert forall|k1: int, k2: int| 0 <= k1 < k2 < s.len() implies #[trigger] s[k1].a_pos
            + s[k1].size <= #[trigger] s[k2].a_pos && s[k1].b_pos + s[k1].size <= s[k2].b_pos by {
            if k1 < l.len() {
                assert(s[k1] == l[k1]);
                if k2 < l.len() {
                    assert(s[k2] == l[k2]);
                } else if k2 > l.len() {
                    assert(s[k2] == r[k2 - l.len() - 1]);
                }
            } else if k1 == l.len() {
                assert(s[k2] == r[k2 - l.len() - 1]);
            } else {
                assert(s[k1] == r[k1 - l.len() - 1]);
                assert(s[k2] == r[k2 - l.len() - 1]);
            }
        }
    }
}

proof fn lemma_total_size_concat(s: Seq<Match>, t: Seq<Match>)
    ensures
        total_size(s + t) == total_size(s) + total_size(t),
    decreases t.len(),
{
    if t.len() == 0 {
        assert(s + t == s);
    } else {
        lemma_total_size_concat(s, t.drop_last());
        assert((s + t).drop_last() == s + t.drop_last());
    }
}

proof fn lemma_total_size_nonneg(s: Seq<Match>)
    ensures
        total_size(s) >= 0,
    decreases s.len(),
{
    if s.len() > 0 {
        lemma_total_size_nonneg(s.drop_last());
    }
}

proof fn lemma_total_size_prefix(s: Seq<Match>, k: int)
    requires
        0 <= k <= s.len(),
    ensures
        total_size(s.take(k)) <= total_size(s),
    decreases s.len() - k,
{
    if k < s.len() {
        lemma_total_size_prefix(s, k + 1);
        assert(s.take(k + 1).drop_last() == s.take(k));
    } else {
        assert(s.take(k) == s);
    }
}

/// Joining adjacent blocks keeps the number of covered elements.
proof fn lemma_merge_total(s: Seq<Match>)
    requires
        total_size(s) <= usize::MAX,
    ensures
        total_size(merge_adjacent(s)) == total_size(s),
    decreases s.len(),
{
    if s.len() > 0 {
        lemma_total_size_nonneg(s.drop_last());
        lemma_merge_total(s.drop_last());
        let prev = merge_adjacent(s.drop_last());
        let m = s.last();
        if prev.len() > 0 && prev.last().a_pos + prev.last().size == m.a_pos && prev.last().b_pos
            + prev.last().size == m.b_pos {
            let joined = Match {
                a_pos: prev.last().a_pos,
                b_pos: prev.last().b_pos,
                size: (prev.last().size + m.size) as usize,
            };
            lemma_total_size_nonneg(prev.drop_last());
            assert(prev.drop_last().push(joined).drop_last() == prev.drop_last());
            assert(joined.size == prev.last().size + m.size);
        } else {
            assert(prev.push(m).drop_last() == prev);
        }
    }
}


/// `m` is a non-empty block of equal elements inside `a` and `b`.
pub open spec fn block_matches(a: Seq<usize>, b: Seq<usize>, m: Match) -> bool {
    &&& m.size > 0
    &&& m.a_pos + m.size <= a.len()
    &&& m.b_pos + m.size <= b.len()
    &&& forall|t: int| 0 <= t < m.size ==> a[m.a_pos + t] == b[#[trigger] (m.b_pos + t)]
}

/// Each block ends before the next one starts, in both sequences.
pub open spec fn blocks_ordered(s: Seq<Match>) -> bool {
    forall|k1: int, k2: int|
        0 <= k1 < k2 < s.len() ==> #[trigger] s[k1].a_pos + s[k1].size <= #[trigger] s[k2].a_pos
            && s[k1].b_pos + s[k1].size <= s[k2].b_pos
}

/// Joining adjacent blocks keeps them matching and ordered, and keeps where
/// the last one ends.
proof fn lemma_merge_matches(a: Seq<usize>, b: Seq<usize>, s: Seq<Match>)
    requires
        a.len() <= usize::MAX,
        forall|k: int| 0 <= k < s.len() ==> block_matches(a, b, #[trigger] s[k]),
        blocks_ordered(s),
    ensures
        forall|k: int| 0 <= k < merge_adjacent(s).len() ==> block_matches(a, b, #[trigger] merge_adjacent(s)[k]),
        blocks_ordered(merge_adjacent(s)),
        s.len() > 0 ==> merge_adjacent(s).len() > 0
            && merge_adjacent(s).last().a_pos + merge_adjacent(s).last().size == s.last().a_pos + s.last().size
            && merge_adjacent(s).last().b_pos + merge_adjacent(s).last().size == s.last().b_pos + s.last().size,
    decreases s.len(),
{
    if s.len() > 0 {
        let d = s.drop_last();
        assert forall|k: int| 0 <= k < d.len() implies block_matches(a, b, #[trigger] d[k]) by {
            assert(d[k] == s[k]);
        }
        assert forall|k1: int, k2: int| 0 <= k1 < k2 < d.len() implies #[trigger] d[k1].a_pos + d[k1].size
            <= #[trigger] d[k2].a_pos && d[k1].b_pos + d[k1].size <= d[k2].b_pos by {
            assert(d[k1] == s[k1] && d[k2] == s[k2]);
        }
        lemma_merge_matches(a, b, d);
        let prev = merge_adjacent(d);
        let m = s.last();
        assert(block_matches(a, b, s[s.len() - 1]));
        if d.len() > 0 {
            assert(d.last() == s[s.len() - 2]);
            assert(s[s.len() - 2].a_pos + s[s.len() - 2].size <= s[s.len() - 1].a_pos);
        }
        if prev.len() > 0 && prev.last().a_pos + prev.last().size == m.a_pos && prev.last().b_pos
            + prev.last().size == m.b_pos {
            let p = prev.last();
            let joined = Match { a_pos: p.a_pos, b_pos: p.b_pos, size: (p.size + m.size) as usize };
            let out = prev.drop_last().push(joined);
            assert(merge_adjacent(s) == out);
            assert(block_matches(a, b, prev[prev.len() - 1]));
            assert(block_matches(a, b, joined)) by {
                assert forall|t: int| 0 <= t < joined.size implies a[joined.a_pos + t] == b[#[trigger] (joined.b_pos
                    + t)] by {
                    if t < p.size {
                        assert(a[p.a_pos + t] == b[p.b_pos + t]);
                    } else {
                        let u = t - p.size;
                        assert(a[m.a_pos + u] == b[m.b_pos + u]);
                    }
                }
            }
            assert forall|k: int| 0 <= k < out.len() implies block_matches(a, b, #[trigger] out[k]) by {
                if k < out.len() - 1 {
                    assert(out[k] == prev[k]);
                }
            }
            assert forall|k1: int, k2: int| 0 <= k1 < k2 < out.len() implies #[trigger] out[k1].a_pos
                + out[k1].size <= #[trigger] out[k2].a_pos && out[k1].b_pos + out[k1].size <= out[k2].b_pos by {
                assert(out[k1] == prev[k1]);
                if k2 < out.len() - 1 {
                    assert(out[k2] == prev[k2]);
                } else {
                    assert(prev[k1].a_pos + prev[k1].size <= prev[prev.len() - 1].a_pos);
                }
            }
        } else {
            let out = prev.push(m);
            assert(merge_adjacent(s) == out);
            assert forall|k: int| 0 <= k < out.len() implies block_matches(a, b, #[trigger] out[k]) by {
                if k < out.len() - 1 {
                    assert(out[k] == prev[k]);
                }
            }
            assert forall|k1: int, k2: int| 0 <= k1 < k2 < out.len() implies #[trigger] out[k1].a_pos
                + out[k1].size <= #[trigger] out[k2].a_pos && out[k1].b_pos + out[k1].size <= out[k2].b_pos by {
                assert(out[k1] == prev[k1]);
                if k2 < out.len() - 1 {
                    assert(out[k2] == prev[k2]);
                } else {
                    assert(block_matches(a, b, prev[k1]));
                    assert(block_matches(a, b, prev[prev.len() - 1]));
                    if k1 < prev.len() - 1 {
                        assert(prev[k1].a_pos + prev[k1].size <= prev[prev.len() - 1].a_pos);
                    }
                }
            }
        }
    }
}

proof fn lemma_ext_back_stops(a: Seq<usize>, b: Seq<usize>, alo: int, blo: int, i: int, j: int)
    ensures
        ({
            let e = ext_back(a, b, alo, blo, i, j) as int;
            !(alo < i - e && blo < j - e && 0 < i - e <= a.len() && 0 < j - e <= b.len() && a[i - e - 1]
                == b[j - e - 1])
        }),
    decreases i,
{
    if alo < i && blo < j && 0 < i <= a.len() && 0 < j <= b.len() && a[i - 1] == b[j - 1] {
        lemma_ext_back_stops(a, b, alo, blo, i - 1, j - 1);
    }
}

proof fn lemma_ext_fwd_stops(a: Seq<usize>, b: Seq<usize>, ahi: int, bhi: int, i: int, j: int)
    ensures
        ({
            let e = ext_fwd(a, b, ahi, bhi, i, j) as int;
            !(0 <= i + e < ahi && 0 <= j + e < bhi && i + e < a.len() && j + e < b.len() && a[i + e] == b[j
                + e])
        }),
    decreases ahi - i,
{
    if 0 <= i < ahi && 0 <= j < bhi && i < a.len() && j < b.len() && a[i] == b[j] {
        lemma_ext_fwd_stops(a, b, ahi, bhi, i + 1, j + 1);
    }
}

/// `y` starts where `x` ends, in both sequences.
spec fn adjacent(x: Match, y: Match) -> bool {
    x.a_pos + x.size == y.a_pos && x.b_pos + x.size == y.b_pos
}

proof fn lemma_merge_nonempty(s: Seq<Match>)
    ensures
        s.len() > 0 ==> merge_adjacent(s).len() > 0,
{
}

/// Joining adjacent blocks works piecewise across a point where the blocks
/// are not adjacent.
proof fn lemma_merge_concat(x: Seq<Match>, y: Seq<Match>)
    requires
        y.len() > 0 && merge_adjacent(x).len() > 0 ==> !adjacent(merge_adjacent(x).last(), y[0]),
    ensures
        merge_adjacent(x + y) == merge_adjacent(x) + merge_adjacent(y),
    decreases y.len(),
{
    if y.len() == 0 {
        assert(x + y == x);
        assert(merge_adjacent(x) + merge_adjacent(y) == merge_adjacent(x));
    } else if y.len() == 1 {
        assert((x + y).drop_last() == x);
        assert(y.drop_last() == Seq::<Match>::empty());
        assert(merge_adjacent(Seq::<Match>::empty()) == Seq::<Match>::empty());
        assert(y.last() == y[0]);
        assert(merge_adjacent(y) == Seq::<Match>::empty().push(y[0]));
        assert(merge_adjacent(y) == seq![y[0]]);
        assert(merge_adjacent(x).push(y[0]) == merge_adjacent(x) + seq![y[0]]);
    } else {
        let yd = y.drop_last();
        assert(yd[0] == y[0]);
        lemma_merge_concat(x, yd);
        assert((x + y).drop_last() == x + yd);
        lemma_merge_nonempty(yd);
        let mx = merge_adjacent(x);
        let my = merge_adjacent(yd);
        let last = y.last();
        assert((mx + my).last() == my.last());
        if adjacent(my.last(), last) {
            let joined = Match { a_pos: my.last().a_pos, b_pos: my.last().b_pos, size: (my.last().size + last.size) as usize };
            assert((mx + my).drop_last().push(joined) == mx + my.drop_last().push(joined));
        } else {
            assert((mx + my).push(last) == mx + my.push(last));
        }
    }
}

/// Law: the longest block of the two whole sequences is one of the blocks
/// that `get_matching_blocks` returns, whole: it is neither split nor joined
/// to a neighbour.
pub proof fn law_top_block_kept(a: Seq<usize>, b: Seq<usize>)
    requires
        a.len() <= usize::MAX,
        b.len() <= usize::MAX,
    ensures
        longest_match(a, b, 0, a.len() as int, 0, b.len() as int).size > 0 ==> matching_blocks(a, b).contains(
            longest_match(a, b, 0, a.len() as int, 0, b.len() as int),
        ),
{
    let n = a.len() as int;
    let k = b.len() as int;
    let m = longest_match(a, b, 0, n, 0, k);
    lemma_longest_match(a, b, 0, n, 0, k);
    if m.size > 0 {
        let c = core_of(a, b, 0, n, 0, k);
        lemma_core_exists(a, b, 0, n, 0, k);
        lemma_ext_back(a, b, 0, 0, c.0, c.1);
        lemma_ext_back_stops(a, b, 0, 0, c.0, c.1);
        lemma_ext_fwd_stops(a, b, n, k, c.0 + c.2, c.1 + c.2);
        lemma_ext_fwd(a, b, n, k, c.0 + c.2, c.1 + c.2);
        assert(c.0 + c.2 <= n && c.1 + c.2 <= k);
        let back = ext_back(a, b, 0, 0, c.0, c.1) as int;
        let fwd = ext_fwd(a, b, n, k, c.0 + c.2, c.1 + c.2) as int;
        assert(m.a_pos == c.0 - back);
        assert(m.b_pos == c.1 - back);
        assert(m.a_pos + m.size == c.0 + c.2 + fwd);
        assert(m.b_pos + m.size == c.1 + c.2 + fwd);
        let l = blocks_in(a, b, 0, m.a_pos as int, 0, m.b_pos as int);
        let r = blocks_in(a, b, m.a_pos + m.size, n, m.b_pos + m.size, k);
        lemma_blocks_in(a, b, 0, m.a_pos as int, 0, m.b_pos as int);
        lemma_blocks_in(a, b, m.a_pos + m.size, n, m.b_pos + m.size, k);
        assert(blocks_in(a, b, 0, n, 0, k) == l + seq![m] + r);
        // The block before `m` does not end where `m` starts.
        if l.len() > 0 {
            let x = l.last();
            assert(x == l[l.len() - 1]);
            assert forall|q: int| 0 <= q < l.len() implies block_matches(a, b, #[trigger] l[q]) by {
                let y = l[q];
                assert forall|t: int| 0 <= t < y.size implies a[y.a_pos + t] == b[#[trigger] (y.b_pos + t)] by {
                    assert(a[y.a_pos + t] == b[y.b_pos + t]);
                }
            }
            assert(blocks_ordered(l));
            lemma_merge_matches(a, b, l);
            if adjacent(x, m) {
                assert(block_matches(a, b, l[l.len() - 1]));
                assert(a[x.a_pos + (x.size - 1)] == b[x.b_pos + (x.size - 1)]);
                assert(x.a_pos + (x.size - 1) == m.a_pos - 1);
                assert(x.b_pos + (x.size - 1) == m.b_pos - 1);
                assert(false);
            }
        }
        assert((l + seq![m]).drop_last() == l);
        assert(merge_adjacent(l + seq![m]) == merge_adjacent(l).push(m));
        // The block after `m` does not start where `m` ends.
        if r.len() > 0 {
            let y = r[0];
            if adjacent(m, y) {
                assert(a[y.a_pos + 0] == b[y.b_pos + 0]);
                assert(y.a_pos + 0 == c.0 + c.2 + fwd);
                assert(false);
            }
        }
        assert(merge_adjacent(l).push(m).last() == m);
        lemma_merge_concat(l + seq![m], r);
        assert(l + seq![m] + r == (l + seq![m]) + r);
        let out = merge_adjacent(l).push(m) + merge_adjacent(r);
        assert(out[merge_adjacent(l).len() as int] == m);
        assert(matching_blocks(a, b) == out);
    }
}

/// Law: every block that `get_matching_blocks` returns is a non-empty run
/// of equal elements of both sequences, and the blocks come in increasing
/// order in both sequences without overlapping.
pub proof fn law_matching_blocks_match(a: Seq<usize>, b: Seq<usize>)
    requires
        a.len() <= usize::MAX,
        b.len() <= usize::MAX,
    ensures
        forall|k: int|
            0 <= k < matching_blocks(a, b).len() ==> block_matches(a, b, #[trigger] matching_blocks(a, b)[k]),
        blocks_ordered(matching_blocks(a, b)),
{
    let s = blocks_in(a, b, 0, a.len() as int, 0, b.len() as int);
    lemma_blocks_in(a, b, 0, a.len() as int, 0, b.len() as int);
    assert forall|k: int| 0 <= k < s.len() implies block_matches(a, b, #[trigger] s[k]) by {
        let m = s[k];
        assert forall|t: int| 0 <= t < m.size implies a[m.a_pos + t] == b[#[trigger] (m.b_pos + t)] by {
            assert(a[m.a_pos + t] == b[m.b_pos + t]);
        }
    }
    lemma_merge_matches(a, b, s);
}

/// The blocks still owed by the ranges waiting in the queue.
spec fn pending(a: Seq<usize>, b: Seq<usize>, q: Seq<(usize, usize, usize, usize)>) -> Seq<Match>
    decreases q.len(),
{
    if q.len() == 0 {
        Seq::empty()
    } else {
        pending(a, b, q.drop_last()) + blocks_in(
            a,
            b,
            q.last().0 as int,
            q.last().1 as int,
            q.last().2 as int,
            q.last().3 as int,
        )
    }
}

/// Blocks ordered by position in `a`, then in `b`.
pub open spec fn position_le(x: Match, y: Match) -> bool {
    lex_le(x.a_pos as int, x.b_pos as int, y.a_pos as int, y.b_pos as int)
}

/// A total order on blocks that refines `position_le`.
spec fn block_le(x: Match, y: Match) -> bool {
    x.a_pos < y.a_pos || (x.a_pos == y.a_pos && (x.b_pos < y.b_pos || (x.b_pos == y.b_pos
        && x.size <= y.size)))
}

proof fn lemma_block_le_total()
    ensures
        vstd::relations::total_ordering(|x: Match, y: Match| block_le(x, y)),
{
}

/// Sorting the blocks that the queue produced gives difflib's sequence back.
proof fn lemma_sorted_blocks(sorted: Seq<Match>, total: Seq<Match>)
    requires
        sorted.to_multiset() == total.to_multiset(),
        forall|i: int, j: int| 0 <= i < j < sorted.len() ==> position_le(sorted[i], sorted[j]),
        forall|k1: int, k2: int|
            0 <= k1 < k2 < total.len() ==> #[trigger] total[k1].a_pos < #[trigger] total[k2].a_pos,
    ensures
        sorted == total,
{
    broadcast use vstd::seq_lib::group_to_multiset_ensures;

    let leq = |x: Match, y: Match| block_le(x, y);
    lemma_block_le_total();
    assert forall|i: int, j: int| 0 <= i < j < sorted.len() implies #[trigger] leq(
        sorted[i],
        sorted[j],
    ) by {
        assert(position_le(sorted[i], sorted[j]));
        if sorted[i].a_pos == sorted[j].a_pos {
            assert(sorted.to_multiset().contains(sorted[i]));
            assert(sorted.to_multiset().contains(sorted[j]));
            assert(total.contains(sorted[i]));
            assert(total.contains(sorted[j]));
            let k1 = choose|k: int| 0 <= k < total.len() && total[k] == sorted[i];
            let k2 = choose|k: int| 0 <= k < total.len() && total[k] == sorted[j];
            if k1 < k2 {
                assert(total[k1].a_pos < total[k2].a_pos);
            } else if k2 < k1 {
                assert(total[k2].a_pos < total[k1].a_pos);
            }
        }
    }
    assert forall|i: int, j: int| 0 <= i < j < total.len() implies #[trigger] leq(
        total[i],
        total[j],
    ) by {
        assert(total[i].a_pos < total[j].a_pos);
    }
    vstd::seq_lib::lemma_sorted_unique(sorted, total, leq);
}

/// Sort blocks by position in `a`, then in `b`, keeping the order of equals.
fn sort_by_position(blocks: &Vec<Match>) -> (out: Vec<Match>)
    ensures
        out@.to_multiset() == blocks@.to_multiset(),
        forall|i: int, j: int| 0 <= i < j < out.len() ==> position_le(out@[i], out@[j]),
{
    broadcast use vstd::seq_lib::group_to_multiset_ensures;

    let mut out: Vec<Match> = Vec::new();
    let mut k: usize = 0;
    while k < blocks.len()
        invariant
            k <= blocks.len(),
            out@.to_multiset() == blocks@.take(k as int).to_multiset(),
            forall|i: int, j: int| 0 <= i < j < out.len() ==> position_le(out@[i], out@[j]),
        decreases blocks.len() - k,
    {
        let x = blocks[k];
        let mut pos: usize = 0;
        while pos < out.len() && (out[pos].a_pos < x.a_pos || (out[pos].a_pos == x.a_pos
            && out[pos].b_pos <= x.b_pos))
            invariant
                pos <= out.len(),
                forall|t: int| 0 <= t < pos ==> position_le(out@[t], x),
            decreases out.len() - pos,
        {
            pos += 1;
        }
        let ghost before = out@;
        out.insert(pos, x);
        proof {
            assert(out@ == before.insert(pos as int, x));
            vstd::seq_lib::to_multiset_insert(before, pos as int, x);
            assert(blocks@.take(k + 1) == blocks@.take(k as int).push(x));
            vstd::seq_lib::to_multiset_build(blocks@.take(k as int), x);
            assert forall|i: int, j: int| 0 <= i < j < out.len() implies position_le(
                out@[i],
                out@[j],
            ) by {
                if j < pos {
                    assert(out@[i] == before[i] && out@[j] == before[j]);
                } else if j == pos {
                    assert(out@[i] == before[i]);
                } else if i < pos {
                    assert(out@[i] == before[i] && out@[j] == before[j - 1]);
                    assert(position_le(before[i], before[pos as int]));
                } else if i == pos {
                    assert(out@[j] == before[j - 1]);
                    assert(position_le(before[pos as int], before[j - 1]));
                } else {
                    assert(out@[i] == before[i - 1] && out@[j] == before[j - 1]);
                }
            }
        }
        k += 1;
    }
    proof {
        assert(blocks@.take(blocks.len() as int) == blocks@);
    }
    out
}

/// Two-sequence matcher with difflib's `ratio()`. The elements are symbols
/// (`usize`): characters by their code points, or names by an index.
pub struct SequenceMatcher<'a> {
    a: &'a [usize],
    b: &'a [usize],
    b2j: HashMap<usize, Vec<usize>>,
}

impl<'a> SequenceMatcher<'a> {
    /// The first sequence.
    pub closed spec fn a_view(&self) -> Seq<usize> {
        self.a@
    }

    /// The second sequence.
    pub closed spec fn b_view(&self) -> Seq<usize> {
        self.b@
    }

    /// The index of the second sequence: each symbol to its positions.
    pub closed spec fn index(&self) -> Map<usize, Vec<usize>> {
        self.b2j@
    }

    #[verifier::type_invariant]
    closed spec fn inv(&self) -> bool {
        index_of_b(self.b2j@, self.b@)
    }

    /// Index `b`, dropping popular elements when `b` is long.
    pub fn new(a: &'a [usize], b: &'a [usize]) -> (s: Self)
        ensures
            s.a_view() == a@,
            s.b_view() == b@,
            index_of_b(s.index(), b@),
    {
        let mut b2j: HashMap<usize, Vec<usize>> = HashMap::new();
        let n = b.len();
        let mut j: usize = 0;
        while j < n
            invariant
                n == b@.len(),
                j <= n,
                forall|c: usize| #[trigger]
                    b2j@.contains_key(c) <==> positions(b@, c, j as int).len() > 0,
                forall|c: usize|
                    b2j@.contains_key(c) ==> (#[trigger] b2j@[c])@ == positions(
                        b@,
                        c,
                        j as int,
                    ),
            decreases n - j,
        {
            let x = b[j];
            let key = x;
            let entry = b2j.remove(&key);
            let mut v = match entry {
                Some(v) => v,
                None => Vec::new(),
            };
            v.push(j);
            b2j.insert(key, v);
            proof {
                assert(x == b@[j as int]);
                assert forall|c: usize| #[trigger]
                    b2j@.contains_key(c) <==> positions(b@, c, j + 1).len() > 0 by {
                    if c == x {
                        assert(positions(b@, c, j + 1) == positions(b@, c, j as int).push(j));
                    } else {
                        assert(positions(b@, c, j + 1) == positions(b@, c, j as int));
                    }
                }
                assert forall|c: usize| b2j@.contains_key(c) implies (#[trigger] b2j@[c])@ == positions(b@, c, j + 1) by {
                    if c == x {
                        assert(positions(b@, c, j + 1) == positions(b@, c, j as int).push(j));
                    } else {
                        assert(positions(b@, c, j + 1) == positions(b@, c, j as int));
                    }
                }
            }
            j += 1;
        }
        if n >= 200 {
            let cutoff = n / 100 + 1;
            let mut j: usize = 0;
            while j < n
                invariant
                    n == b@.len(),
                    n >= 200,
                    cutoff == n / 100 + 1,
                    j <= n,
                    forall|c: usize| #[trigger]
                        b2j@.contains_key(c) <==> (occurrences(b@, c) > 0 && !(is_popular(
                            b@,
                            c,
                        ) && positions(b@, c, j as int).len() > 0)),
                    forall|c: usize|
                        b2j@.contains_key(c) ==> (#[trigger] b2j@[c])@ == positions(
                            b@,
                            c,
                            n as int,
                        ),
                decreases n - j,
            {
                let x = b[j];
                let key = x;
                let popular = match b2j.get(&key) {
                    Some(v) => v.len() > cutoff,
                    None => false,
                };
                if popular {
                    b2j.remove(&key);
                }
                proof {
                    assert(x == b@[j as int]);
                    lemma_occurs(b@, j as int);
                    assert forall|c: usize| #[trigger]
                        b2j@.contains_key(c) <==> (occurrences(b@, c) > 0 && !(is_popular(
                            b@,
                            c,
                        ) && positions(b@, c, j + 1).len() > 0)) by {
                        if c == x {
                            assert(positions(b@, c, j + 1) == positions(b@, c, j as int).push(j));
                        } else {
                            assert(positions(b@, c, j + 1) == positions(b@, c, j as int));
                        }
                    }
                }
                j += 1;
            }
            proof {
                assert forall|c: usize| #[trigger]
                    b2j@.contains_key(c) <==> (occurrences(b@, c) > 0 && !is_popular(b@, c))
                    by {
                    assert(positions(b@, c, n as int).len() == occurrences(b@, c));
                }
            }
        }
        SequenceMatcher { a, b, b2j }
    }

    /// difflib's `find_longest_match`: the longest block of non-popular
    /// matching elements in `a[a_lower..a_upper]` and `b[b_lower..b_upper]`
    /// (the earliest one when several are longest), then extended over
    /// adjacent equal elements in both directions.
    pub fn find_longest_match(
        &self,
        a_lower: usize,
        a_upper: usize,
        b_lower: usize,
        b_upper: usize,
    ) -> (m: Match)
        requires
            a_upper <= self.a_view().len(),
            b_upper <= self.b_view().len(),
        ensures
            m == longest_match(
                self.a_view(),
                self.b_view(),
                a_lower as int,
                a_upper as int,
                b_lower as int,
                b_upper as int,
            ),
    {
        proof {
            use_type_invariant(self);
        }
        let ghost a = self.a@;
        let ghost b = self.b@;
        let ghost alo = a_lower as int;
        let ghost ahi = a_upper as int;
        let ghost blo = b_lower as int;
        let ghost bhi = b_upper as int;
        proof {
            assert(a.len() == self.a.len());
            assert(b.len() == self.b.len());
        }
        let mut best_i = a_lower;
        let mut best_j = b_lower;
        let mut best_size: usize = 0;
        let mut j2len: HashMap<usize, usize> = HashMap::new();
        let mut i = a_lower;
        while i < a_upper
            invariant
                a == self.a@,
                b == self.b@,
                alo == a_lower as int,
                ahi == a_upper as int,
                blo == b_lower as int,
                bhi == b_upper as int,
                a.len() <= usize::MAX,
                b.len() <= usize::MAX,
                index_of_b(self.b2j@, b),
                ahi <= a.len(),
                bhi <= b.len(),
                a_lower <= i,
                a_lower < a_upper ==> i <= a_upper,
                forall|y: usize| #[trigger]
                    j2len@.contains_key(y) <==> (blo <= y < bhi && run_len(a, b, alo, blo, i - 1, y as int) > 0),
                forall|y: usize|
                    j2len@.contains_key(y) ==> #[trigger] j2len@[y] == run_len(
                        a,
                        b,
                        alo,
                        blo,
                        i - 1,
                        y as int,
                    ),
                best_size == 0 ==> best_i == a_lower && best_j == b_lower,
                best_size > 0 ==> a_lower < a_upper,
                best_size > 0 ==> a_lower <= best_i && best_i + best_size <= i && b_lower <= best_j
                    && best_j + best_size <= b_upper && run_len(
                    a,
                    b,
                    alo,
                    blo,
                    best_i + best_size - 1,
                    best_j + best_size - 1,
                ) >= best_size,
                forall|x: int, y: int|
                    alo <= x < i && blo <= y < bhi ==> #[trigger] run_len(a, b, alo, blo, x, y)
                        <= best_size,
                forall|x: int, y: int|
                    alo <= x < i && blo <= y < bhi && best_size > 0 && #[trigger] run_len(
                        a,
                        b,
                        alo,
                        blo,
                        x,
                        y,
                    ) >= best_size ==> lex_le(
                        best_i + best_size - 1,
                        best_j + best_size - 1,
                        x,
                        y,
                    ),
            decreases a_upper - i,
        {
            let mut newj2len: HashMap<usize, usize> = HashMap::new();
            let c = self.a[i];
            let key = c;
            match self.b2j.get(&key) {
                Some(indexes) => {
                    let ghost idx = indexes@;
                    proof {
                        assert(self.b2j@.contains_key(key));
                        assert(self.b2j@[key] == *indexes);
                        lemma_index_lookup(self.b2j@, b, c);
                        assert(idx == positions(b, c, b.len() as int));
                        lemma_positions(b, c, b.len() as int);
                        assert forall|y: int| 0 <= y && (idx.len() > 0 ==> y < idx[0])
                            implies #[trigger] run_len(a, b, alo, blo, i as int, y) == 0 by {
                            if run_len(a, b, alo, blo, i as int, y) > 0 {
                                assert(idx.contains(y as usize));
                                let q = choose|q: int| 0 <= q < idx.len() && idx[q] == y as usize;
                                if q > 0 {
                                    assert(idx[0] < idx[q]);
                                }
                            }
                        }
                    }
                    let n_idx = indexes.len();
                    let mut p: usize = 0;
                    while p < n_idx && indexes[p] < b_upper
                        invariant
                            a == self.a@,
                            b == self.b@,
                            alo == a_lower as int,
                            ahi == a_upper as int,
                            blo == b_lower as int,
                            bhi == b_upper as int,
                            a.len() <= usize::MAX,
                            b.len() <= usize::MAX,
                            index_of_b(self.b2j@, b),
                            ahi <= a.len(),
                            bhi <= b.len(),
                            a_lower <= i < a_upper,
                            c == a[i as int],
                            self.b2j@.contains_key(c),
                            idx == indexes@,
                            n_idx == idx.len(),
                            idx == positions(b, c, b.len() as int),
                            forall|k: int| 0 <= k < idx.len() ==> (#[trigger] idx[k]) < b.len() && b[idx[k] as int] == c,
                            forall|k1: int, k2: int| 0 <= k1 < k2 < idx.len() ==> idx[k1] < idx[k2],
                            forall|x: int| 0 <= x < b.len() && b[x] == c ==> #[trigger] idx.contains(x as usize),
                            p <= n_idx,
                            forall|y: usize| #[trigger]
                                j2len@.contains_key(y) <==> (blo <= y < bhi && run_len(a, b, alo, blo, i - 1, y as int) > 0),
                            forall|y: usize|
                                j2len@.contains_key(y) ==> #[trigger] j2len@[y] == run_len(
                                    a,
                                    b,
                                    alo,
                                    blo,
                                    i - 1,
                                    y as int,
                                ),
                            forall|y: usize| #[trigger]
                                newj2len@.contains_key(y) <==> (blo <= y < bhi && run_len(a, b, alo, blo, i as int, y as int) > 0
                                    && (p < n_idx ==> y < idx[p as int])),
                            forall|y: usize|
                                newj2len@.contains_key(y) ==> #[trigger] newj2len@[y] == run_len(
                                    a,
                                    b,
                                    alo,
                                    blo,
                                    i as int,
                                    y as int,
                                ),
                            best_size == 0 ==> best_i == a_lower && best_j == b_lower,
                            best_size > 0 ==> a_lower <= best_i && best_i + best_size <= i + 1 && b_lower <= best_j
                                && best_j + best_size <= b_upper && run_len(
                                a,
                                b,
                                alo,
                                blo,
                                best_i + best_size - 1,
                                best_j + best_size - 1,
                            ) >= best_size,
                            best_size > 0 && best_i + best_size == i + 1 ==> (p < n_idx ==> best_j + best_size - 1 < idx[p as int]),
                            forall|x: int, y: int|
                                ((alo <= x < i && blo <= y < bhi) || (x == i && blo <= y < bhi && (p < n_idx ==> y < idx[p as int])))
                                    ==> #[trigger] run_len(a, b, alo, blo, x, y) <= best_size,
                            forall|x: int, y: int|
                                ((alo <= x < i && blo <= y < bhi) || (x == i && blo <= y < bhi && (p < n_idx ==> y < idx[p as int])))
                                    && best_size > 0 && #[trigger] run_len(a, b, alo, blo, x, y) >= best_size ==> lex_le(
                                    best_i + best_size - 1,
                                    best_j + best_size - 1,
                                    x,
                                    y,
                                ),
                        decreases n_idx - p,
                    {
                        let j = indexes[p];
                        proof {
                            assert(b[j as int] == c);
                            assert(!is_popular(b, c));
                        }
                        if j >= b_lower {
                            let prev = j2len.get(&j.wrapping_sub(1));
                            proof {
                                lemma_run_bound(a, b, alo, blo, i - 1, j - 1);
                                if j > 0 {
                                    assert(j.wrapping_sub(1) == j - 1);
                                } else {
                                    assert(!j2len@.contains_key(j.wrapping_sub(1)));
                                }
                            }
                            let k = match prev {
                                Some(v) => *v + 1,
                                None => 1,
                            };
                            assert(k == run_len(a, b, alo, blo, i as int, j as int));
                            newj2len.insert(j, k);
                            if k > best_size {
                                best_size = k;
                                best_i = i + 1 - k;
                                best_j = j + 1 - k;
                            }
                        }
                        proof {
                            assert forall|y: int| j < y < bhi && (p + 1 < n_idx ==> y < idx[p + 1]) implies
                                #[trigger] run_len(a, b, alo, blo, i as int, y) == 0 by {
                                if run_len(a, b, alo, blo, i as int, y) > 0 {
                                    assert(idx.contains(y as usize));
                                    let q = choose|q: int| 0 <= q < idx.len() && idx[q] == y as usize;
                                    if q < p {
                                        assert(idx[q] < idx[p as int]);
                                    } else if q == p {
                                    } else if q == p + 1 {
                                    } else {
                                        assert(idx[p + 1] < idx[q]);
                                    }
                                }
                            }
                        }
                        p += 1;
                    }
                },
                None => {
                    proof {
                        assert forall|y: int| blo <= y < bhi implies #[trigger] run_len(a, b, alo, blo, i as int, y) == 0 by {
                            if run_len(a, b, alo, blo, i as int, y) > 0 {
                                lemma_occurs(b, y);
                                lemma_index_lookup(self.b2j@, b, c);
                            }
                        }
                    }
                },
            }
            j2len = newj2len;
            i += 1;
        }
        let ghost ci = best_i as int;
        let ghost cj = best_j as int;
        let ghost ck = best_size as int;
        proof {
            assert forall|x: int, y: int, k: int| #[trigger] np_block(a, b, alo, ahi, blo, bhi, x, y, k)
                implies k <= ck by {
                if k > 0 {
                    lemma_block_run(a, b, alo, ahi, blo, bhi, x, y, k);
                    assert(run_len(a, b, alo, blo, x + k - 1, y + k - 1) <= ck);
                }
            }
            if ck > 0 {
                lemma_run_block(a, b, alo, ahi, blo, bhi, ci + ck - 1, cj + ck - 1, ck);
                assert forall|x: int, y: int| #[trigger] np_block(a, b, alo, ahi, blo, bhi, x, y, ck)
                    implies lex_le(ci, cj, x, y) by {
                    lemma_block_run(a, b, alo, ahi, blo, bhi, x, y, ck);
                    assert(run_len(a, b, alo, blo, x + ck - 1, y + ck - 1) >= ck);
                }
            }
            assert(best_core(a, b, alo, ahi, blo, bhi, ci, cj, ck));
            lemma_core_of(a, b, alo, ahi, blo, bhi, (ci, cj, ck));
        }
        while best_i > a_lower && best_j > b_lower && self.a[best_i - 1] == self.b[best_j - 1]
            invariant
                a == self.a@,
                b == self.b@,
                alo == a_lower as int,
                ahi == a_upper as int,
                blo == b_lower as int,
                bhi == b_upper as int,
                a.len() <= usize::MAX,
                b.len() <= usize::MAX,
                best_i <= ci,
                ci - best_i == cj - best_j,
                best_size == ck + (ci - best_i),
                best_i + best_size == ci + ck,
                best_j + best_size == cj + ck,
                ck == 0 ==> ci == alo && cj == blo,
                ck > 0 ==> ci + ck <= ahi && cj + ck <= bhi,
                ahi <= a.len(),
                bhi <= b.len(),
                ext_back(a, b, alo, blo, ci, cj) == (ci - best_i) + ext_back(
                    a,
                    b,
                    alo,
                    blo,
                    best_i as int,
                    best_j as int,
                ),
            decreases best_i,
        {
            best_i -= 1;
            best_j -= 1;
            best_size += 1;
        }
        let ghost back = ci - best_i;
        let ghost s0 = best_size as int;
        while best_i + best_size < a_upper && best_j + best_size < b_upper && self.a[best_i
            + best_size] == self.b[best_j + best_size]
            invariant
                a == self.a@,
                b == self.b@,
                alo == a_lower as int,
                ahi == a_upper as int,
                blo == b_lower as int,
                bhi == b_upper as int,
                a.len() <= usize::MAX,
                b.len() <= usize::MAX,
                ahi <= a.len(),
                bhi <= b.len(),
                best_i == ci - back,
                best_j == cj - back,
                best_size >= s0,
                best_i + best_size <= usize::MAX,
                best_j + best_size <= usize::MAX,
                ext_fwd(a, b, ahi, bhi, ci + ck, cj + ck) == (best_size - s0) + ext_fwd(
                    a,
                    b,
                    ahi,
                    bhi,
                    best_i + best_size,
                    best_j + best_size,
                ),
                s0 == back + ck,
            decreases a_upper - best_i - best_size,
        {
            best_size += 1;
        }
        Match { a_pos: best_i, b_pos: best_j, size: best_size }
    }

    /// difflib's `get_matching_blocks`: the blocks of the recursion, in
    /// order, with adjacent blocks joined.
    pub fn get_matching_blocks(&self) -> (r: Vec<Match>)
        ensures
            r@ == matching_blocks(self.a_view(), self.b_view()),
    {
        broadcast use vstd::seq_lib::group_to_multiset_ensures;
        broadcast use vstd::seq_lib::lemma_multiset_commutative;
        broadcast use vstd::multiset::group_multiset_axioms;

        let ghost a = self.a@;
        let ghost b = self.b@;
        let la = self.a.len();
        let lb = self.b.len();
        let ghost total = blocks_in(a, b, 0, la as int, 0, lb as int);
        proof {
            lemma_blocks_in(a, b, 0, la as int, 0, lb as int);
        }
        let mut queue: Vec<(usize, usize, usize, usize)> = Vec::new();
        queue.push((0, la, 0, lb));
        let mut blocks: Vec<Match> = Vec::new();
        proof {
            assert(queue@.drop_last() == Seq::<(usize, usize, usize, usize)>::empty());
            assert(pending(a, b, Seq::<(usize, usize, usize, usize)>::empty()) == Seq::<Match>::empty());
            assert(pending(a, b, queue@) == Seq::<Match>::empty() + total);
            assert(blocks@ + pending(a, b, queue@) == total);
        }
        while queue.len() > 0
            invariant
                a == self.a@,
                b == self.b@,
                la == a.len(),
                lb == b.len(),
                total == blocks_in(a, b, 0, la as int, 0, lb as int),
                forall|k: int|
                    0 <= k < queue.len() ==> (#[trigger] queue@[k]).0 <= queue@[k].1 <= la
                        && queue@[k].2 <= queue@[k].3 <= lb,
                (blocks@ + pending(a, b, queue@)).to_multiset() == total.to_multiset(),
                blocks.len() + pending(a, b, queue@).len() == total.len(),
            decreases total.len() - blocks.len(), queue.len(),
        {
            let ghost q0 = queue@;
            let ghost b0 = blocks@;
            let (a_lower, a_upper, b_lower, b_upper) = queue.pop().unwrap();
            let ghost rest = queue@;
            let ghost here = blocks_in(
                a,
                b,
                a_lower as int,
                a_upper as int,
                b_lower as int,
                b_upper as int,
            );
            proof {
                assert(q0.drop_last() == rest);
                assert(pending(a, b, q0) == pending(a, b, rest) + here);
                lemma_longest_match(
                    a,
                    b,
                    a_lower as int,
                    a_upper as int,
                    b_lower as int,
                    b_upper as int,
                );
            }
            let m = self.find_longest_match(a_lower, a_upper, b_lower, b_upper);
            if m.size > 0 {
                let ghost left = blocks_in(
                    a,
                    b,
                    a_lower as int,
                    m.a_pos as int,
                    b_lower as int,
                    m.b_pos as int,
                );
                let ghost right = blocks_in(
                    a,
                    b,
                    m.a_pos + m.size,
                    a_upper as int,
                    m.b_pos + m.size,
                    b_upper as int,
                );
                proof {
                    assert(here == left + seq![m] + right);
                    lemma_blocks_in(a, b, a_lower as int, m.a_pos as int, b_lower as int, m.b_pos as int);
                    lemma_blocks_in(
                        a,
                        b,
                        m.a_pos + m.size,
                        a_upper as int,
                        m.b_pos + m.size,
                        b_upper as int,
                    );
                }
                let ghost q1 = queue@;
                if a_lower < m.a_pos {
                    queue.push((a_lower, m.a_pos, b_lower, m.b_pos));
                    proof {
                        assert(queue@.drop_last() == q1);
                    }
                }
                proof {
                    assert(pending(a, b, queue@) == pending(a, b, rest) + left);
                }
                let ghost q2 = queue@;
                if m.a_pos + m.size < a_upper {
                    queue.push((m.a_pos + m.size, a_upper, m.b_pos + m.size, b_upper));
                    proof {
                        assert(queue@.drop_last() == q2);
                    }
                }
                proof {
                    assert(pending(a, b, queue@) == pending(a, b, rest) + left + right);
                }
                blocks.push(m);
                proof {
                    let p = pending(a, b, rest);
                    assert(blocks@ == b0 + seq![m]);
                    assert(pending(a, b, q0) == p + (left + seq![m] + right));
                    let lhs = (b0 + seq![m]) + ((p + left) + right);
                    let rhs = b0 + (p + ((left + seq![m]) + right));
                    vstd::seq_lib::lemma_multiset_commutative(b0 + seq![m], (p + left) + right);
                    vstd::seq_lib::lemma_multiset_commutative(b0, seq![m]);
                    vstd::seq_lib::lemma_multiset_commutative(p + left, right);
                    vstd::seq_lib::lemma_multiset_commutative(p, left);
                    vstd::seq_lib::lemma_multiset_commutative(b0, p + ((left + seq![m]) + right));
                    vstd::seq_lib::lemma_multiset_commutative(p, (left + seq![m]) + right);
                    vstd::seq_lib::lemma_multiset_commutative(left + seq![m], right);
                    vstd::seq_lib::lemma_multiset_commutative(left, seq![m]);
                    assert(lhs.to_multiset() =~= b0.to_multiset().add(seq![m].to_multiset()).add(
                        p.to_multiset().add(left.to_multiset()).add(right.to_multiset()),
                    ));
                    assert(rhs.to_multiset() =~= b0.to_multiset().add(
                        p.to_multiset().add(left.to_multiset().add(seq![m].to_multiset()).add(
                            right.to_multiset(),
                        )),
                    ));
                    assert(lhs.to_multiset() =~= rhs.to_multiset());
                    assert(blocks@ + pending(a, b, queue@) == lhs);
                    assert(b0 + pending(a, b, q0) == rhs);
                }
            } else {
                proof {
                    assert(here == Seq::<Match>::empty());
                    assert(pending(a, b, q0) == pending(a, b, rest));
                }
            }
        }
        proof {
            assert(pending(a, b, queue@) == Seq::<Match>::empty());
            assert(blocks@ + pending(a, b, queue@) == blocks@);
        }
        let sorted = sort_by_position(&blocks);
        proof {
            lemma_sorted_blocks(sorted@, total);
        }
        let mut merged: Vec<Match> = Vec::new();
        let mut k: usize = 0;
        while k < sorted.len()
            invariant
                k <= sorted.len(),
                sorted@ == total,
                total == blocks_in(a, b, 0, la as int, 0, lb as int),
                la == a.len(),
                lb == b.len(),
                la <= usize::MAX,
                lb <= usize::MAX,
                forall|t: int|
                    0 <= t < sorted.len() ==> (#[trigger] sorted@[t]).a_pos + sorted@[t].size <= la
                        && sorted@[t].b_pos + sorted@[t].size <= lb,
                forall|t: int|
                    0 <= t < merged.len() ==> (#[trigger] merged@[t]).a_pos + merged@[t].size <= la
                        && merged@[t].b_pos + merged@[t].size <= lb,
                merged@ == merge_adjacent(sorted@.take(k as int)),
            decreases sorted.len() - k,
        {
            let m = sorted[k];
            let n = merged.len();
            proof {
                assert(sorted@.take(k + 1).drop_last() == sorted@.take(k as int));
                assert(sorted@.take(k + 1).last() == m);
            }
            if n > 0 && merged[n - 1].a_pos + merged[n - 1].size == m.a_pos && merged[n - 1].b_pos
                + merged[n - 1].size == m.b_pos {
                let last = merged[n - 1];
                let joined = Match { a_pos: last.a_pos, b_pos: last.b_pos, size: last.size + m.size };
                merged.set(n - 1, joined);
                proof {
                    let prev = merge_adjacent(sorted@.take(k as int));
                    assert(merged@ == prev.drop_last().push(joined));
                }
            } else {
                merged.push(m);
            }
            k += 1;
        }
        proof {
            assert(sorted@.take(sorted.len() as int) == sorted@);
        }
        merged
    }

    /// difflib's `ratio()` as exact counts: the ratio is `2 * matches`
    /// over `len_a + len_b`, and 1 when both sequences are empty.
    pub fn ratio(&self) -> (r: Ratio)
        ensures
            r.matches == matched_count(self.a_view(), self.b_view()),
            r.len_a == self.a_view().len(),
            r.len_b == self.b_view().len(),
    {
        let blocks = self.get_matching_blocks();
        let ghost a = self.a@;
        let ghost b = self.b@;
        proof {
            assert(a.len() == self.a.len());
            assert(b.len() == self.b.len());
            lemma_blocks_in(a, b, 0, a.len() as int, 0, b.len() as int);
            lemma_merge_total(blocks_in(a, b, 0, a.len() as int, 0, b.len() as int));
        }
        let mut matches: usize = 0;
        let mut k: usize = 0;
        while k < blocks.len()
            invariant
                k <= blocks.len(),
                total_size(blocks@) <= a.len(),
                a.len() == self.a.len(),
                matches == total_size(blocks@.take(k as int)),
            decreases blocks.len() - k,
        {
            proof {
                assert(blocks@.take(k + 1).drop_last() == blocks@.take(k as int));
                lemma_total_size_prefix(blocks@, k + 1);
            }
            matches = matches + blocks[k].size;
            k += 1;
        }
        proof {
            assert(blocks@.take(blocks.len() as int) == blocks@);
        }
        Ratio { matches, len_a: self.a.len(), len_b: self.b.len() }
    }
}


proof fn lemma_ext_identical(a: Seq<usize>, n: int, i: int)
    requires
        0 <= i <= n,
        n == a.len(),
    ensures
        ext_back(a, a, 0, 0, i, i) == i,
        ext_fwd(a, a, n, n, i, i) == n - i,
    decreases n - i,
{
    lemma_ext_back_identical(a, i);
    if i < n {
        lemma_ext_identical(a, n, i + 1);
    }
}

proof fn lemma_ext_back_identical(a: Seq<usize>, i: int)
    requires
        0 <= i <= a.len(),
    ensures
        ext_back(a, a, 0, 0, i, i) == i,
    decreases i,
{
    if i > 0 {
        lemma_ext_back_identical(a, i - 1);
    }
}

/// Law: the matched count never exceeds the length of either sequence, so
/// the ratio `2 * matches / (len_a + len_b)` lies between 0 and 1.
pub proof fn law_ratio_at_most_one(a: Seq<usize>, b: Seq<usize>)
    requires
        a.len() <= usize::MAX,
        b.len() <= usize::MAX,
    ensures
        0 <= matched_count(a, b) <= a.len(),
        matched_count(a, b) <= b.len(),
{
    lemma_blocks_in(a, b, 0, a.len() as int, 0, b.len() as int);
    lemma_merge_total(blocks_in(a, b, 0, a.len() as int, 0, b.len() as int));
    lemma_total_size_nonneg(blocks_in(a, b, 0, a.len() as int, 0, b.len() as int));
}

/// Law: a sequence matched against itself matches in full, so its ratio is 1.
pub proof fn law_identical_ratio_is_one(a: Seq<usize>)
    requires
        a.len() <= usize::MAX,
    ensures
        matched_count(a, a) == a.len(),
{
    let n = a.len() as int;
    lemma_blocks_in(a, a, 0, n, 0, n);
    if n > 0 {
        lemma_core_exists(a, a, 0, n, 0, n);
        let c = core_of(a, a, 0, n, 0, n);
        if c.2 > 0 {
            assert(np_block(a, a, 0, n, 0, n, c.0, c.1, c.2));
            assert forall|t: int| 0 <= t < c.2 implies #[trigger] cell_matches(a, a, c.1 + t, c.1 + t)
                by {
                assert(cell_matches(a, a, c.0 + t, c.1 + t));
            }
            assert forall|t: int| 0 <= t < c.2 implies #[trigger] cell_matches(a, a, c.0 + t, c.0 + t)
                by {
                assert(cell_matches(a, a, c.0 + t, c.1 + t));
            }
            assert(np_block(a, a, 0, n, 0, n, c.1, c.1, c.2));
            assert(np_block(a, a, 0, n, 0, n, c.0, c.0, c.2));
            assert(c.0 == c.1);
            lemma_ext_identical(a, n, c.0);
            lemma_ext_identical(a, n, c.0 + c.2);
        } else {
            lemma_ext_identical(a, n, 0);
        }
        let m = longest_match(a, a, 0, n, 0, n);
        assert(m == Match { a_pos: 0, b_pos: 0, size: n as usize });
        lemma_blocks_in(a, a, 0, 0, 0, 0);
        lemma_blocks_in(a, a, n, n, n, n);
        let s = blocks_in(a, a, 0, n, 0, n);
        assert(s == Seq::<Match>::empty() + seq![m] + Seq::<Match>::empty());
        assert(s == seq![m]);
        assert(s.drop_last() == Seq::<Match>::empty());
        assert(merge_adjacent(Seq::<Match>::empty()) == Seq::<Match>::empty());
        assert(merge_adjacent(s) == seq![m]);
        assert(total_size(Seq::<Match>::empty()) == 0);
        assert(total_size(seq![m]) == n);
    } else {
        assert(blocks_in(a, a, 0, n, 0, n).len() == 0);
        assert(blocks_in(a, a, 0, n, 0, n) == Seq::<Match>::empty());
    }
}


/// `f` gives different symbols to different elements of `a` and `b`.
pub open spec fn one_to_one_on(f: spec_fn(usize) -> usize, a: Seq<usize>, b: Seq<usize>) -> bool {
    forall|x: usize, y: usize|
        #![trigger (a + b).contains(x), (a + b).contains(y), f(x), f(y)]
        (a + b).contains(x) && (a + b).contains(y) && f(x) == f(y) ==> x == y
}

proof fn lemma_one_to_one_ab(f: spec_fn(usize) -> usize, a: Seq<usize>, b: Seq<usize>, i: int, j: int)
    requires
        one_to_one_on(f, a, b),
        0 <= i < a.len(),
        0 <= j < b.len(),
    ensures
        (f(a[i]) == f(b[j])) == (a[i] == b[j]),
{
    assert((a + b)[i] == a[i]);
    assert((a + b)[a.len() + j] == b[j]);
    assert((a + b).contains(a[i]));
    assert((a + b).contains(b[j]));
}

proof fn lemma_one_to_one_bb(f: spec_fn(usize) -> usize, a: Seq<usize>, b: Seq<usize>, i: int, j: int)
    requires
        one_to_one_on(f, a, b),
        0 <= i < b.len(),
        0 <= j < b.len(),
    ensures
        (f(b[i]) == f(b[j])) == (b[i] == b[j]),
{
    assert((a + b)[a.len() + i] == b[i]);
    assert((a + b)[a.len() + j] == b[j]);
    assert((a + b).contains(b[i]));
    assert((a + b).contains(b[j]));
}

proof fn lemma_positions_relabel(f: spec_fn(usize) -> usize, a: Seq<usize>, b: Seq<usize>, j0: int, n: int)
    requires
        one_to_one_on(f, a, b),
        0 <= j0 < b.len(),
        n <= b.len(),
    ensures
        positions(b.map_values(f), f(b[j0]), n) == positions(b, b[j0], n),
    decreases n,
{
    if n > 0 {
        lemma_positions_relabel(f, a, b, j0, n - 1);
        lemma_one_to_one_bb(f, a, b, n - 1, j0);
        assert(b.map_values(f)[n - 1] == f(b[n - 1]));
    }
}

proof fn lemma_cell_relabel(f: spec_fn(usize) -> usize, a: Seq<usize>, b: Seq<usize>, i: int, j: int)
    requires
        one_to_one_on(f, a, b),
        0 <= i < a.len(),
        0 <= j < b.len(),
    ensures
        cell_matches(a.map_values(f), b.map_values(f), i, j) == cell_matches(a, b, i, j),
{
    let b2 = b.map_values(f);
    lemma_one_to_one_ab(f, a, b, i, j);
    lemma_positions_relabel(f, a, b, j, b.len() as int);
    assert(b2[j] == f(b[j]));
    assert(a.map_values(f)[i] == f(a[i]));
    assert(occurrences(b2, b2[j]) == occurrences(b, b[j]));
}

proof fn lemma_np_block_relabel(
    f: spec_fn(usize) -> usize,
    a: Seq<usize>,
    b: Seq<usize>,
    alo: int,
    ahi: int,
    blo: int,
    bhi: int,
    i: int,
    j: int,
    k: int,
)
    requires
        one_to_one_on(f, a, b),
        0 <= alo <= ahi <= a.len(),
        0 <= blo <= bhi <= b.len(),
    ensures
        np_block(a.map_values(f), b.map_values(f), alo, ahi, blo, bhi, i, j, k) == np_block(
            a,
            b,
            alo,
            ahi,
            blo,
            bhi,
            i,
            j,
            k,
        ),
{
    if alo <= i && i + k <= ahi && blo <= j && j + k <= bhi && 0 <= k {
        assert forall|t: int| 0 <= t < k implies #[trigger] cell_matches(a.map_values(f), b.map_values(f), i + t, j + t)
            == cell_matches(a, b, i + t, j + t) by {
            lemma_cell_relabel(f, a, b, i + t, j + t);
        }
        if np_block(a, b, alo, ahi, blo, bhi, i, j, k) {
            assert forall|t: int| 0 <= t < k implies #[trigger] cell_matches(a.map_values(f), b.map_values(f), i + t, j + t) by {
                assert(cell_matches(a, b, i + t, j + t));
            }
        }
        if np_block(a.map_values(f), b.map_values(f), alo, ahi, blo, bhi, i, j, k) {
            assert forall|t: int| 0 <= t < k implies #[trigger] cell_matches(a, b, i + t, j + t) by {
                assert(cell_matches(a.map_values(f), b.map_values(f), i + t, j + t));
            }
        }
    }
}

proof fn lemma_core_relabel(f: spec_fn(usize) -> usize, a: Seq<usize>, b: Seq<usize>, alo: int, ahi: int, blo: int, bhi: int)
    requires
        one_to_one_on(f, a, b),
        0 <= alo <= ahi <= a.len(),
        0 <= blo <= bhi <= b.len(),
    ensures
        core_of(a.map_values(f), b.map_values(f), alo, ahi, blo, bhi) == core_of(a, b, alo, ahi, blo, bhi),
{
    let a2 = a.map_values(f);
    let b2 = b.map_values(f);
    assert forall|i: int, j: int, k: int| #[trigger] np_block(a2, b2, alo, ahi, blo, bhi, i, j, k) == np_block(
        a,
        b,
        alo,
        ahi,
        blo,
        bhi,
        i,
        j,
        k,
    ) by {
        lemma_np_block_relabel(f, a, b, alo, ahi, blo, bhi, i, j, k);
    }
    let c1 = core_of(a, b, alo, ahi, blo, bhi);
    let c2 = core_of(a2, b2, alo, ahi, blo, bhi);
    lemma_core_exists(a, b, alo, ahi, blo, bhi);
    lemma_core_exists(a2, b2, alo, ahi, blo, bhi);
    assert(best_core(a, b, alo, ahi, blo, bhi, c2.0, c2.1, c2.2)) by {
        assert forall|i: int, j: int, k: int| #[trigger] np_block(a, b, alo, ahi, blo, bhi, i, j, k) implies k <= c2.2 by {
            assert(np_block(a2, b2, alo, ahi, blo, bhi, i, j, k));
        }
        if c2.2 > 0 {
            assert(np_block(a2, b2, alo, ahi, blo, bhi, c2.0, c2.1, c2.2));
            assert forall|i: int, j: int| #[trigger] np_block(a, b, alo, ahi, blo, bhi, i, j, c2.2) implies lex_le(
                c2.0,
                c2.1,
                i,
                j,
            ) by {
                assert(np_block(a2, b2, alo, ahi, blo, bhi, i, j, c2.2));
            }
        }
    }
    lemma_core_unique(a, b, alo, ahi, blo, bhi, c1, c2);
}

proof fn lemma_ext_back_relabel(f: spec_fn(usize) -> usize, a: Seq<usize>, b: Seq<usize>, alo: int, blo: int, i: int, j: int)
    requires
        one_to_one_on(f, a, b),
    ensures
        ext_back(a.map_values(f), b.map_values(f), alo, blo, i, j) == ext_back(a, b, alo, blo, i, j),
    decreases i,
{
    if alo < i && blo < j && 0 < i <= a.len() && 0 < j <= b.len() {
        lemma_one_to_one_ab(f, a, b, i - 1, j - 1);
        assert(a.map_values(f)[i - 1] == f(a[i - 1]));
        assert(b.map_values(f)[j - 1] == f(b[j - 1]));
        lemma_ext_back_relabel(f, a, b, alo, blo, i - 1, j - 1);
    }
}

proof fn lemma_ext_fwd_relabel(f: spec_fn(usize) -> usize, a: Seq<usize>, b: Seq<usize>, ahi: int, bhi: int, i: int, j: int)
    requires
        one_to_one_on(f, a, b),
    ensures
        ext_fwd(a.map_values(f), b.map_values(f), ahi, bhi, i, j) == ext_fwd(a, b, ahi, bhi, i, j),
    decreases ahi - i,
{
    if 0 <= i < ahi && 0 <= j < bhi && i < a.len() && j < b.len() {
        lemma_one_to_one_ab(f, a, b, i, j);
        assert(a.map_values(f)[i] == f(a[i]));
        assert(b.map_values(f)[j] == f(b[j]));
        lemma_ext_fwd_relabel(f, a, b, ahi, bhi, i + 1, j + 1);
    }
}

proof fn lemma_blocks_relabel(f: spec_fn(usize) -> usize, a: Seq<usize>, b: Seq<usize>, alo: int, ahi: int, blo: int, bhi: int)
    requires
        one_to_one_on(f, a, b),
        0 <= alo <= ahi <= a.len(),
        0 <= blo <= bhi <= b.len(),
        a.len() <= usize::MAX,
        b.len() <= usize::MAX,
    ensures
        blocks_in(a.map_values(f), b.map_values(f), alo, ahi, blo, bhi) == blocks_in(a, b, alo, ahi, blo, bhi),
    decreases ahi - alo,
{
    let a2 = a.map_values(f);
    let b2 = b.map_values(f);
    let c = core_of(a, b, alo, ahi, blo, bhi);
    lemma_core_relabel(f, a, b, alo, ahi, blo, bhi);
    lemma_ext_back_relabel(f, a, b, alo, blo, c.0, c.1);
    lemma_ext_fwd_relabel(f, a, b, ahi, bhi, c.0 + c.2, c.1 + c.2);
    let m = longest_match(a, b, alo, ahi, blo, bhi);
    assert(longest_match(a2, b2, alo, ahi, blo, bhi) == m);
    lemma_longest_match(a, b, alo, ahi, blo, bhi);
    if m.size > 0 {
        lemma_blocks_relabel(f, a, b, alo, m.a_pos as int, blo, m.b_pos as int);
        lemma_blocks_relabel(f, a, b, m.a_pos + m.size, ahi, m.b_pos + m.size, bhi);
    }
}

/// Law: difflib's ratio depends only on which elements are equal: renaming
/// the elements of the two sequences one to one leaves it unchanged.
pub proof fn law_ratio_relabel(a: Seq<usize>, b: Seq<usize>, f: spec_fn(usize) -> usize)
    requires
        a.len() <= usize::MAX,
        b.len() <= usize::MAX,
        one_to_one_on(f, a, b),
    ensures
        ratio_codes(a.map_values(f), b.map_values(f)) == ratio_codes(a, b),
{
    lemma_blocks_relabel(f, a, b, 0, a.len() as int, 0, b.len() as int);
}

/// difflib's ratio of two symbol sequences as exact counts.
pub open spec fn ratio_codes(a: Seq<usize>, b: Seq<usize>) -> Ratio {
    Ratio { matches: matched_count(a, b) as usize, len_a: a.len() as usize, len_b: b.len() as usize }
}

/// The code points of a character sequence.
pub open spec fn codes(s: Seq<char>) -> Seq<usize> {
    s.map_values(|c: char| c as usize)
}

/// The ratio of two character sequences as exact counts: the sequences are
/// compared character by character, each character by its code point.
pub open spec fn ratio_of(a: Seq<char>, b: Seq<char>) -> Ratio {
    ratio_codes(codes(a), codes(b))
}

proof fn lemma_char_code(c: char, d: char)
    requires
        c != d,
    ensures
        c as usize != d as usize,
{
}

/// Law: different characters get different symbols, so two characters
/// match only when they are equal.
pub proof fn law_codes_one_to_one(s: Seq<char>, t: Seq<char>, i: int, j: int)
    requires
        0 <= i < s.len(),
        0 <= j < t.len(),
        s[i] != t[j],
    ensures
        codes(s)[i] != codes(t)[j],
{
    lemma_char_code(s[i], t[j]);
}

proof fn lemma_no_common_blocks(a: Seq<usize>, b: Seq<usize>, alo: int, ahi: int, blo: int, bhi: int)
    requires
        0 <= alo <= ahi <= a.len(),
        0 <= blo <= bhi <= b.len(),
        forall|i: int, j: int| 0 <= i < a.len() && 0 <= j < b.len() ==> a[i] != b[j],
    ensures
        blocks_in(a, b, alo, ahi, blo, bhi) == Seq::<Match>::empty(),
{
    lemma_core_exists(a, b, alo, ahi, blo, bhi);
    let c = core_of(a, b, alo, ahi, blo, bhi);
    if c.2 > 0 {
        assert(np_block(a, b, alo, ahi, blo, bhi, c.0, c.1, c.2));
        assert(cell_matches(a, b, c.0 + 0, c.1 + 0));
        assert(false);
    }
    assert(ext_back(a, b, alo, blo, alo, blo) == 0);
    assert(ext_fwd(a, b, ahi, bhi, alo, blo) == 0);
    assert(longest_match(a, b, alo, ahi, blo, bhi).size == 0);
}

/// Law: two strings that share no character have no matching element.
pub proof fn law_ratio_no_shared_char(a: Seq<char>, b: Seq<char>)
    requires
        forall|i: int, j: int| 0 <= i < a.len() && 0 <= j < b.len() ==> a[i] != b[j],
    ensures
        ratio_of(a, b).matches == 0,
{
    let ca = codes(a);
    let cb = codes(b);
    assert forall|i: int, j: int| 0 <= i < ca.len() && 0 <= j < cb.len() implies ca[i] != cb[j] by {
        law_codes_one_to_one(a, b, i, j);
    }
    lemma_no_common_blocks(ca, cb, 0, ca.len() as int, 0, cb.len() as int);
    assert(merge_adjacent(Seq::<Match>::empty()) == Seq::<Match>::empty());
    assert(total_size(Seq::<Match>::empty()) == 0);
}

/// `SequenceMatcher(a, b).ratio()` over symbol sequences.
pub fn symbols_ratio(a: &[usize], b: &[usize]) -> (r: Ratio)
    ensures
        r == ratio_codes(a@, b@),
{
    let matcher = SequenceMatcher::new(a, b);
    let r = matcher.ratio();
    proof {
        law_ratio_at_most_one(a@, b@);
    }
    r
}

/// The code points of `s`.
fn code_points(s: &[char]) -> (r: Vec<usize>)
    ensures
        r@ == codes(s@),
{
    let mut r: Vec<usize> = Vec::new();
    let mut k: usize = 0;
    while k < s.len()
        invariant
            k <= s.len(),
            r@ == codes(s@.take(k as int)),
        decreases s.len() - k,
    {
        r.push(s[k] as usize);
        proof {
            assert(codes(s@.take(k + 1)) =~= codes(s@.take(k as int)).push(s@[k as int] as usize));
        }
        k += 1;
    }
    proof {
        assert(s@.take(s.len() as int) == s@);
    }
    r
}

/// `SequenceMatcher(a, b).ratio()` over character sequences.
pub fn chars_ratio(a: &[char], b: &[char]) -> (r: Ratio)
    ensures
        r == ratio_of(a@, b@),
{
    let ca = code_points(a);
    let cb = code_points(b);
    symbols_ratio(ca.as_slice(), cb.as_slice())
}

/// difflib's `SequenceMatcher(None, a, b).ratio()` for strings, compared
/// character by character, as exact counts.
pub fn str_ratio(a: &str, b: &str) -> (r: Ratio)
    ensures
        r == ratio_of(a@, b@),
        (forall|i: int, j: int| 0 <= i < a@.len() && 0 <= j < b@.len() ==> a@[i] != b@[j]) ==> r.matches == 0,
{
    proof {
        if forall|i: int, j: int| 0 <= i < a@.len() && 0 <= j < b@.len() ==> a@[i] != b@[j] {
            law_ratio_no_shared_char(a@, b@);
        }
    }
    let av = crate::text::chars_of(a);
    let bv = crate::text::chars_of(b);
    chars_ratio(av.as_slice(), bv.as_slice())
}

} // verus!
