//! Forwarding chains over the cell array, as pure functions of the cells.
//!
//! A cell at index `j` at or past the boundary `n` holds `0` (empty) or
//! `t + 1`, a forward to slot `t`, always with `t < j`. Following forwards
//! from any index therefore ends, at a live slot (`< n`) or at an empty cell.
use vstd::prelude::*;

verus! {

/// Whether cell `j` forwards somewhere: past the boundary, non-zero, and
/// pointing strictly downwards.
pub open spec fn forwards(links: Seq<usize>, n: int, j: int) -> bool {
    &&& n <= j < links.len()
    &&& links[j] != 0
    &&& links[j] - 1 < j
}

/// The slot that cell `j` forwards to.
pub open spec fn target(links: Seq<usize>, j: int) -> int {
    links[j] - 1
}

/// The live slot reached from index `i` by following forwards, if any.
pub open spec fn resolve(links: Seq<usize>, n: int, i: int) -> Option<int>
    decreases i,
{
    if i < 0 || i >= links.len() {
        None
    } else if i < n {
        Some(i)
    } else if forwards(links, n, i) {
        resolve(links, n, target(links, i))
    } else {
        None
    }
}

/// Whether `j` is visited when following forwards from `i` (`i` included).
pub open spec fn on_path(links: Seq<usize>, n: int, i: int, j: int) -> bool
    decreases i,
{
    if i == j {
        true
    } else if 0 <= i && forwards(links, n, i) {
        on_path(links, n, target(links, i), j)
    } else {
        false
    }
}

/// Every index on a path lies at or below its start.
pub proof fn lemma_path_descends(links: Seq<usize>, n: int, i: int, j: int)
    requires
        on_path(links, n, i, j),
    ensures
        j <= i,
    decreases i,
{
    if i != j {
        lemma_path_descends(links, n, target(links, i), j);
    }
}

/// Indices on one path resolve alike.
pub proof fn lemma_path_resolves_alike(links: Seq<usize>, n: int, i: int, j: int)
    requires
        on_path(links, n, i, j),
    ensures
        resolve(links, n, i) == resolve(links, n, j),
    decreases i,
{
    if i != j {
        lemma_path_resolves_alike(links, n, target(links, i), j);
    }
}

/// A resolved index reaches a live slot along its path.
pub proof fn lemma_resolved_path_ends_live(links: Seq<usize>, n: int, i: int)
    requires
        resolve(links, n, i) is Some,
    ensures
        on_path(links, n, i, resolve(links, n, i)->0),
        0 <= resolve(links, n, i)->0 < n,
        0 <= i < links.len(),
    decreases i,
{
    if i >= n {
        lemma_resolved_path_ends_live(links, n, target(links, i));
    }
}

/// A slot on a path other than its start is forwarded to by a cell on the
/// same path.
pub proof fn lemma_path_predecessor(links: Seq<usize>, n: int, i: int, x: int) -> (j: int)
    requires
        on_path(links, n, i, x),
        x != i,
    ensures
        on_path(links, n, i, j),
        forwards(links, n, j),
        target(links, j) == x,
        x < j <= i,
    decreases i,
{
    let t = target(links, i);
    if t == x {
        i
    } else {
        let j = lemma_path_predecessor(links, n, t, x);
        lemma_path_descends(links, n, t, j);
        j
    }
}

/// Following forwards from `i` down to `x` gives the same result under new
/// cells when every cell above `x` on the way keeps its forward and stays
/// past the new boundary.
pub proof fn lemma_path_cut(
    l1: Seq<usize>,
    n1: int,
    l2: Seq<usize>,
    n2: int,
    i: int,
    x: int,
)
    requires
        on_path(l1, n1, i, x),
        l1.len() == l2.len(),
        forall|j: int|
            #[trigger] on_path(l1, n1, i, j) && x < j ==> n2 <= j && l2[j] == l1[j],
    ensures
        resolve(l2, n2, i) == resolve(l2, n2, x),
        on_path(l2, n2, i, x),
    decreases i,
{
    if i != x {
        let t = target(l1, i);
        assert(0 <= i && forwards(l1, n1, i));
        lemma_path_descends(l1, n1, t, x);
        assert(on_path(l1, n1, i, i));
        assert(l2[i] == l1[i]);
        assert forall|j: int| #[trigger] on_path(l1, n1, t, j) && x < j implies n2 <= j && l2[j]
            == l1[j] by {
            lemma_path_descends(l1, n1, t, j);
            assert(on_path(l1, n1, i, j));
        }
        lemma_path_cut(l1, n1, l2, n2, t, x);
    }
}

/// A path through `j` continues along the path from `j`.
pub proof fn lemma_path_transitive(links: Seq<usize>, n: int, i: int, j: int, k: int)
    requires
        on_path(links, n, i, j),
        on_path(links, n, j, k),
    ensures
        on_path(links, n, i, k),
    decreases i,
{
    if i != j {
        lemma_path_transitive(links, n, target(links, i), j, k);
    }
}

/// Two indices on one path: the lower lies on the path from the higher.
pub proof fn lemma_path_between(links: Seq<usize>, n: int, i: int, j: int, k: int)
    requires
        on_path(links, n, i, j),
        on_path(links, n, i, k),
        k < j,
    ensures
        on_path(links, n, j, k),
    decreases i,
{
    if i != j {
        lemma_path_descends(links, n, target(links, i), j);
        if i == k {
            lemma_path_descends(links, n, i, j);
        }
        lemma_path_between(links, n, target(links, i), j, k);
    }
}

/// How many cells hold a non-zero word.
pub open spec fn count_nonzero(links: Seq<usize>) -> nat
    decreases links.len(),
{
    if links.len() == 0 {
        0
    } else {
        count_nonzero(links.drop_last()) + if links.last() != 0 {
            1nat
        } else {
            0nat
        }
    }
}

/// How many flags are set.
pub open spec fn count_set(bits: Seq<bool>) -> nat
    decreases bits.len(),
{
    if bits.len() == 0 {
        0
    } else {
        count_set(bits.drop_last()) + if bits.last() {
            1nat
        } else {
            0nat
        }
    }
}

/// Rewriting one cell changes the count by what the cell held and holds.
pub proof fn lemma_count_nonzero_update(links: Seq<usize>, i: int, w: usize)
    requires
        0 <= i < links.len(),
    ensures
        count_nonzero(links.update(i, w)) + (if links[i] != 0 { 1int } else { 0int })
            == count_nonzero(links) + (if w != 0 { 1int } else { 0int }),
    decreases links.len(),
{
    let u = links.update(i, w);
    if i < links.len() - 1 {
        assert(u.drop_last() =~= links.drop_last().update(i, w));
        lemma_count_nonzero_update(links.drop_last(), i, w);
    } else {
        assert(u.drop_last() =~= links.drop_last());
    }
}

/// Rewriting one flag changes the count by what the flag was and is.
pub proof fn lemma_count_set_update(bits: Seq<bool>, i: int, b: bool)
    requires
        0 <= i < bits.len(),
    ensures
        count_set(bits.update(i, b)) + (if bits[i] { 1int } else { 0int }) == count_set(bits) + (
        if b {
            1int
        } else {
            0int
        }),
    decreases bits.len(),
{
    let u = bits.update(i, b);
    if i < bits.len() - 1 {
        assert(u.drop_last() =~= bits.drop_last().update(i, b));
        lemma_count_set_update(bits.drop_last(), i, b);
    } else {
        assert(u.drop_last() =~= bits.drop_last());
    }
}

/// Cells that are all empty count nothing.
pub proof fn lemma_count_nonzero_empty(links: Seq<usize>)
    requires
        forall|j: int| 0 <= j < links.len() ==> #[trigger] links[j] == 0,
    ensures
        count_nonzero(links) == 0,
    decreases links.len(),
{
    if links.len() > 0 {
        lemma_count_nonzero_empty(links.drop_last());
    }
}

/// Flags that are all clear count nothing.
pub proof fn lemma_count_set_clear(bits: Seq<bool>)
    requires
        forall|j: int| 0 <= j < bits.len() ==> !#[trigger] bits[j],
    ensures
        count_set(bits) == 0,
    decreases bits.len(),
{
    if bits.len() > 0 {
        lemma_count_set_clear(bits.drop_last());
    }
}

} // verus!
