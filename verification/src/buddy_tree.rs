//! The mathematics of a buddy system.
//!
//! The blocks of a region form binary trees. Node `n` has the children `2 * n` and `2 * n + 1`;
//! the leaves, nodes `cap .. 2 * cap`, are the single pages. The nodes `top .. 2 * top` are the
//! roots: the blocks of the largest order. A tree is given by a flag per node, which is set where
//! that block is free as a whole and is not part of a larger free block.

use vstd::prelude::*;

verus! {

/// Whether block `m` is block `n` or lies inside it.
pub open spec fn under(m: int, n: int) -> bool
    decreases m,
{
    if m <= n {
        m == n
    } else if m <= 1 {
        false
    } else {
        under(m / 2, n)
    }
}

/// Whether block `m` lies in a free block.
pub open spec fn covered(t: Seq<bool>, m: int) -> bool
    decreases m,
{
    if m <= 0 {
        false
    } else {
        t[m] || covered(t, m / 2)
    }
}

/// The other half of the block that `n` is a half of.
pub open spec fn sibling(n: int) -> int {
    if n % 2 == 0 {
        n + 1
    } else {
        n - 1
    }
}

/// Whether every page of block `n` is one of the first `pages`.
pub open spec fn within(cap: int, pages: int, n: int) -> bool {
    forall|i: int| #![trigger under(cap + i, n)] 0 <= i < cap && under(cap + i, n) ==> i < pages
}

/// The shape that every operation keeps: flags stand on blocks of permitted size and inside the
/// region, no free block lies in another, and no two free halves are left unmerged.
pub open spec fn tree_wf(t: Seq<bool>, cap: int, top: int, pages: int) -> bool {
    &&& 1 <= top <= cap
    &&& t.len() == 2 * cap
    &&& 0 <= pages <= cap
    &&& forall|n: int| #![trigger t[n]] 0 <= n < 2 * cap && t[n] ==> n >= top
    &&& forall|n: int| #![trigger t[n]] 1 <= n < 2 * cap && t[n] ==> !covered(t, n / 2)
    &&& forall|n: int| #![trigger t[n]] top <= n / 2 && 0 <= n < 2 * cap && t[n] ==> !t[sibling(n)]
    &&& forall|n: int| #![trigger t[n]] 0 <= n < 2 * cap && t[n] ==> within(cap, pages, n)
}

/// No free block lies in block `n`, nor `n` in one.
pub open spec fn untouched(t: Seq<bool>, cap: int, n: int) -> bool {
    &&& !covered(t, n)
    &&& forall|x: int| #![trigger t[x]] 0 <= x < 2 * cap && t[x] ==> !under(x, n)
}

pub proof fn lemma_under_step(m: int, n: int)
    requires
        1 <= n < m,
    ensures
        under(m, n) == under(m / 2, n),
{
}

pub proof fn lemma_under_trans(a: int, b: int, c: int)
    requires
        1 <= c,
        under(a, b),
        under(b, c),
    ensures
        under(a, c),
    decreases a,
{
    if a > b {
        lemma_under_trans(a / 2, b, c);
        lemma_under_ge(a, b);
        lemma_under_ge(b, c);
    }
}

pub proof fn lemma_under_ge(m: int, n: int)
    requires
        1 <= n,
        under(m, n),
    ensures
        m >= n,
{
}

/// Two blocks that share a block lie one in the other.
pub proof fn lemma_under_chain(m: int, a: int, b: int)
    requires
        1 <= a <= b,
        under(m, a),
        under(m, b),
    ensures
        under(b, a),
    decreases m,
{
    if m > b {
        lemma_under_chain(m / 2, a, b);
    }
}

/// A block inside `n`, other than `n`, lies in one of its two halves, and only in one.
pub proof fn lemma_under_children(m: int, n: int)
    requires
        1 <= n,
    ensures
        under(m, n) && m != n ==> under(m, 2 * n) || under(m, 2 * n + 1),
        under(m, 2 * n) ==> under(m, n),
        under(m, 2 * n + 1) ==> under(m, n),
        !(under(m, 2 * n) && under(m, 2 * n + 1)),
    decreases m,
{
    if m > 2 * n + 1 {
        lemma_under_children(m / 2, n);
    } else if m == 2 * n + 1 {
        assert(m / 2 == n);
        assert(under(n, n));
        lemma_under_small(n, 2 * n);
    } else if m == 2 * n {
        assert(m / 2 == n);
        assert(under(n, n));
    } else if m > n {
        lemma_under_small(m / 2, n);
    }
}

pub proof fn lemma_under_small(m: int, n: int)
    requires
        m < n,
    ensures
        !under(m, n),
{
}

pub proof fn lemma_sibling(n: int)
    requires
        2 <= n,
    ensures
        sibling(n) / 2 == n / 2,
        sibling(n) >= 2,
        sibling(sibling(n)) == n,
        sibling(n) != n,
        (n == 2 * (n / 2) && sibling(n) == 2 * (n / 2) + 1) || (n == 2 * (n / 2) + 1 && sibling(n)
            == 2 * (n / 2)),
{
}

/// What lies in a covered block is covered.
pub proof fn lemma_covered_mono(t: Seq<bool>, m: int, n: int)
    requires
        1 <= n,
        under(m, n),
        covered(t, n),
    ensures
        covered(t, m),
    decreases m,
{
    if m > n {
        lemma_covered_mono(t, m / 2, n);
    }
}

/// Setting a flag covers exactly what lies in that block.
pub proof fn lemma_covered_set(t: Seq<bool>, n: int, m: int)
    requires
        1 <= n < t.len(),
        0 <= m < t.len(),
    ensures
        covered(t.update(n, true), m) == (covered(t, m) || under(m, n)),
    decreases m,
{
    if m > 0 {
        lemma_covered_set(t, n, m / 2);
        if m <= n {
            lemma_under_small(m / 2, n);
        }
    }
}

/// Clearing a flag uncovers exactly what lies in that block.
pub proof fn lemma_covered_clear(t: Seq<bool>, cap: int, top: int, pages: int, n: int, m: int)
    requires
        tree_wf(t, cap, top, pages),
        1 <= n < t.len(),
        t[n],
        0 <= m < t.len(),
    ensures
        covered(t.update(n, false), m) == (covered(t, m) && !under(m, n)),
    decreases m,
{
    if m > 0 {
        lemma_covered_clear(t, cap, top, pages, n, m / 2);
        if m <= n {
            lemma_under_small(m / 2, n);
        } else if under(m, n) {
            lemma_covered_mono(t, m / 2, n);
        }
    }
}

/// Every block holds a page.
pub proof fn lemma_some_leaf(cap: int, n: int) -> (i: int)
    requires
        1 <= n < 2 * cap,
    ensures
        0 <= i < cap,
        under(cap + i, n),
    decreases 2 * cap - n,
{
    if n >= cap {
        n - cap
    } else {
        let i = lemma_some_leaf(cap, 2 * n);
        lemma_under_children(cap + i, n);
        i
    }
}

/// A block all of whose pages are free lies in a free block: free halves never stay apart.
pub proof fn lemma_all_leaves_covered(t: Seq<bool>, cap: int, top: int, pages: int, n: int)
    requires
        tree_wf(t, cap, top, pages),
        top <= n < 2 * cap,
        forall|i: int| #![trigger under(cap + i, n)]
            0 <= i < cap && under(cap + i, n) ==> covered(t, cap + i),
    ensures
        covered(t, n),
    decreases 2 * cap - n,
{
    if n >= cap {
        assert(under(cap + (n - cap), n));
    } else {
        assert forall|i: int| #![trigger under(cap + i, 2 * n)]
            0 <= i < cap && under(cap + i, 2 * n) implies covered(t, cap + i) by {
            lemma_under_children(cap + i, n);
            assert(under(cap + i, n));
        }
        assert forall|i: int| #![trigger under(cap + i, 2 * n + 1)]
            0 <= i < cap && under(cap + i, 2 * n + 1) implies covered(t, cap + i) by {
            lemma_under_children(cap + i, n);
            assert(under(cap + i, n));
        }
        lemma_all_leaves_covered(t, cap, top, pages, 2 * n);
        lemma_all_leaves_covered(t, cap, top, pages, 2 * n + 1);
        assert((2 * n) / 2 == n && (2 * n + 1) / 2 == n);
        if t[2 * n] && t[2 * n + 1] {
            assert(sibling(2 * n) == 2 * n + 1);
        }
    }
}

/// A block none of whose pages is free has no flag at, above or below it.
pub proof fn lemma_untouched(t: Seq<bool>, cap: int, top: int, pages: int, n: int)
    requires
        tree_wf(t, cap, top, pages),
        1 <= n < 2 * cap,
        forall|i: int| #![trigger under(cap + i, n)]
            0 <= i < cap && under(cap + i, n) ==> !covered(t, cap + i),
    ensures
        untouched(t, cap, n),
{
    if covered(t, n) {
        let i = lemma_some_leaf(cap, n);
        lemma_covered_mono(t, cap + i, n);
    }
    assert forall|x: int| #![trigger t[x]] 0 <= x < 2 * cap && t[x] implies !under(x, n) by {
        if under(x, n) {
            let i = lemma_some_leaf(cap, x);
            lemma_under_trans(cap + i, x, n);
            assert(covered(t, x));
            lemma_covered_mono(t, cap + i, x);
        }
    }
}

/// Clearing a flag keeps the shape and leaves the block untouched by any free block.
pub proof fn lemma_clear(t: Seq<bool>, cap: int, top: int, pages: int, n: int)
    requires
        tree_wf(t, cap, top, pages),
        0 <= n < 2 * cap,
        t[n],
    ensures
        tree_wf(t.update(n, false), cap, top, pages),
        untouched(t.update(n, false), cap, n),
        within(cap, pages, n),
{
    let t2 = t.update(n, false);
    assert forall|x: int| #![trigger t2[x]] 1 <= x < 2 * cap && t2[x] implies !covered(t2, x / 2) by {
        lemma_covered_clear(t, cap, top, pages, n, x / 2);
        assert(t[x]);
    }
    assert forall|x: int| #![trigger t2[x]] top <= x / 2 && 0 <= x < 2 * cap && t2[x] implies !t2[sibling(
        x,
    )] by {
        assert(t[x]);
        assert(0 <= sibling(x) < 2 * cap);
    }
    lemma_covered_clear(t, cap, top, pages, n, n);
    assert(under(n, n));
    assert forall|x: int| #![trigger t2[x]] 0 <= x < 2 * cap && t2[x] implies !under(x, n) by {
        assert(t[x]);
        if under(x, n) {
            lemma_under_step(x, n);
            assert(covered(t, n));
            lemma_covered_mono(t, x / 2, n);
        }
    }
    assert forall|x: int| #![trigger t2[x]] 0 <= x < 2 * cap && t2[x] implies x >= top && within(
        cap,
        pages,
        x,
    ) by {
        assert(t[x]);
    }
}

/// Setting the flag of an untouched block keeps the shape, where no free sibling waits for it.
pub proof fn lemma_set(t: Seq<bool>, cap: int, top: int, pages: int, n: int)
    requires
        tree_wf(t, cap, top, pages),
        top <= n < 2 * cap,
        untouched(t, cap, n),
        within(cap, pages, n),
        top <= n / 2 ==> !t[sibling(n)],
    ensures
        tree_wf(t.update(n, true), cap, top, pages),
{
    let t2 = t.update(n, true);
    assert forall|x: int| #![trigger t2[x]] 1 <= x < 2 * cap && t2[x] implies !covered(t2, x / 2) by {
        lemma_covered_set(t, n, x / 2);
        if x == n {
            lemma_under_small(n / 2, n);
        } else {
            assert(t[x]);
            if under(x / 2, n) {
                lemma_under_ge(x / 2, n);
                lemma_under_step(x, n);
            }
        }
    }
    assert forall|x: int| #![trigger t2[x]] top <= x / 2 && 0 <= x < 2 * cap && t2[x] implies !t2[sibling(
        x,
    )] by {
        if x != n {
            assert(t[x]);
            if sibling(x) == n {
                assert(sibling(n) == x);
            }
        }
    }
    assert forall|x: int| #![trigger t2[x]] 0 <= x < 2 * cap && t2[x] implies x >= top && within(
        cap,
        pages,
        x,
    ) by {
        if x != n {
            assert(t[x]);
        }
    }
}

/// Handing out one half of an untouched block: the other half becomes free.
pub proof fn lemma_split(t: Seq<bool>, cap: int, top: int, pages: int, n: int)
    requires
        tree_wf(t, cap, top, pages),
        2 <= n < 2 * cap,
        top <= n / 2,
        untouched(t, cap, n / 2),
        within(cap, pages, n / 2),
    ensures
        tree_wf(t.update(sibling(n), true), cap, top, pages),
        untouched(t.update(sibling(n), true), cap, n),
        within(cap, pages, n),
{
    let s = sibling(n);
    let parent = n / 2;
    lemma_sibling(n);
    let t2 = t.update(s, true);
    assert forall|x: int| 0 <= x < 2 * cap && under(x, s) implies under(x, parent) by {
        lemma_under_children(x, parent);
    }
    assert forall|x: int| 0 <= x < 2 * cap && under(x, n) implies under(x, parent) by {
        lemma_under_children(x, parent);
    }
    assert(under(n, n) && under(s, s));
    assert(!t[n]);
    assert(!t[s]);
    assert(untouched(t, cap, s)) by {
        assert(covered(t, s) == (t[s] || covered(t, parent)));
    }
    assert(within(cap, pages, s)) by {
        assert forall|i: int| #![trigger under(cap + i, s)]
            0 <= i < cap && under(cap + i, s) implies i < pages by {
            assert(under(cap + i, parent));
        }
    }
    assert(within(cap, pages, n)) by {
        assert forall|i: int| #![trigger under(cap + i, n)]
            0 <= i < cap && under(cap + i, n) implies i < pages by {
            assert(under(cap + i, parent));
        }
    }
    lemma_set(t, cap, top, pages, s);
    assert(!under(n, s)) by {
        lemma_under_children(n, parent);
    }
    assert(!under(s, n)) by {
        lemma_under_children(s, parent);
    }
    lemma_covered_set(t, s, n);
    assert(covered(t, n) == (t[n] || covered(t, parent)));
    assert forall|x: int| #![trigger t2[x]] 0 <= x < 2 * cap && t2[x] implies !under(x, n) by {
        if x != s {
            assert(t[x]);
        }
    }
}

/// Merging with a free sibling: its flag goes, and the whole larger block is untouched.
pub proof fn lemma_merge(t: Seq<bool>, cap: int, top: int, pages: int, n: int)
    requires
        tree_wf(t, cap, top, pages),
        2 <= n < 2 * cap,
        top <= n / 2,
        untouched(t, cap, n),
        within(cap, pages, n),
        t[sibling(n)],
    ensures
        tree_wf(t.update(sibling(n), false), cap, top, pages),
        untouched(t.update(sibling(n), false), cap, n / 2),
        within(cap, pages, n / 2),
{
    let s = sibling(n);
    let parent = n / 2;
    lemma_sibling(n);
    let t2 = t.update(s, false);
    lemma_clear(t, cap, top, pages, s);
    lemma_covered_clear(t, cap, top, pages, s, parent);
    assert(!covered(t, parent));
    assert forall|x: int| #![trigger t2[x]] 0 <= x < 2 * cap && t2[x] implies !under(x, parent) by {
        assert(t[x]);
        lemma_under_children(x, parent);
        if x == parent {
            assert(covered(t, parent));
        }
    }
    assert forall|i: int| #![trigger under(cap + i, parent)]
        0 <= i < cap && under(cap + i, parent) implies i < pages by {
        lemma_under_children(cap + i, parent);
        assert(parent < cap);
    }
}

} // verus!
